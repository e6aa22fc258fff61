//! What a patch text file becomes as patch source, and what is read from that source.

use crate::assemble;
use crate::numbers;
use crate::parse::address::CodeAddress;
use crate::parse::code;
use crate::parse::code::{DatumModel, LabelModel};
use crate::parse::state;
use crate::parse::state::{SplitModel, SubModel};
use crate::parse::types::{
    CodeInstructionModel, Halt, HaltModel, ParseDiagnostic, ParsedCodeInstruction, ReadingModel,
};
use crate::pchtxt_laws;
use crate::pchtxt_nxpch;
use crate::pchtxt_writer;
use crate::preprocessor::token;
use crate::preprocessor::token::IntParseError;
use crate::text;
use crate::utils::SourceSpan;
use vstd::prelude::*;
use vstd::string::*;

verus! {

// ---------------------------------------------------------------------------------------------
// Numbers

pub proof fn lemma_same_grouped(a: Seq<u8>, b: Seq<u8>, i: int, j: int, radix: int)
    requires
        forall|k: int| i <= k < j ==> a[k] == b[k],
    ensures
        numbers::grouped_value(a, i, j, radix) == numbers::grouped_value(b, i, j, radix),
    decreases j - i,
{
    if i < j {
        lemma_same_grouped(a, b, i, j - 1, radix);
    }
}

proof fn lemma_decimal(n: int)
    requires
        n >= 0,
    ensures
        ({
            let s = pchtxt_nxpch::decimal(n);
            &&& s.len() > 0
            &&& s.len() >= 2 ==> s[0] != 0x30
            &&& forall|k: int| 0 <= k < s.len() ==> 0x30 <= #[trigger] s[k] <= 0x39
            &&& numbers::grouped_value(s, 0, s.len() as int, 10) == Some(n)
        }),
    decreases n,
{
    let s = pchtxt_nxpch::decimal(n);
    if n < 10 {
        reveal_with_fuel(numbers::grouped_value, 2);
    } else {
        lemma_decimal(n / 10);
        let init = pchtxt_nxpch::decimal(n / 10);
        assert(s == init.push((0x30 + n % 10) as u8));
        lemma_same_grouped(s, init, 0, init.len() as int, 10);
        assert(s[0] == init[0]);
        if init.len() == 1 {
            reveal_with_fuel(numbers::grouped_value, 2);
        }
        assert forall|k: int| 0 <= k < s.len() implies 0x30 <= #[trigger] s[k] <= 0x39 by {
            if k < init.len() {
                assert(s[k] == init[k]);
            }
        }
    }
}

/// A number that is written in decimal is a plain number with that value.
pub proof fn law_decimal_is_plain(n: int)
    requires
        n >= 0,
    ensures
        numbers::plain_value(pchtxt_nxpch::decimal(n)) == Some(n),
{
    lemma_decimal(n);
    assert(pchtxt_nxpch::decimal(n)[0] != 0x5f);
}

spec fn hex_prefix() -> Seq<u8> {
    seq![0x30u8, 0x78]
}

proof fn lemma_hex_prefix()
    ensures
        "0x".spec_bytes() == hex_prefix(),
{
    reveal_strlit("0x");
    is_ascii_spec_bytes("0x");
    assert("0x".spec_bytes() =~= hex_prefix());
}

proof fn lemma_prefixed(digits: Seq<u8>, n: int)
    requires
        digits.len() > 0,
        forall|k: int| 0 <= k < digits.len() ==> #[trigger] digits[k] != 0x5f,
        numbers::grouped_value(hex_prefix() + digits, 2, 2 + digits.len() as int, 16) == Some(n),
    ensures
        numbers::plain_value(hex_prefix() + digits) == Some(n),
{
    let s = hex_prefix() + digits;
    assert(s[0] == 0x30 && s[1] == 0x78);
    assert(s[2] == digits[0]);
}

proof fn lemma_grouped_push(b: Seq<u8>, d: int)
    requires
        b.len() >= 2,
        numbers::grouped_value(b, 2, b.len() as int, 16) is Some,
        0 <= d < 16,
    ensures
        numbers::grouped_value(
            b.push(pchtxt_writer::hex_digit(d)),
            2,
            b.len() as int + 1,
            16,
        ) == Some(numbers::grouped_value(b, 2, b.len() as int, 16)->0 * 16 + d),
{
    let more = b.push(pchtxt_writer::hex_digit(d));
    lemma_same_grouped(more, b, 2, b.len() as int, 16);
    assert(more[b.len() as int] == pchtxt_writer::hex_digit(d));
    assert(token::digit_value(pchtxt_writer::hex_digit(d)) == d);
}

proof fn lemma_hex(n: int, d: nat)
    requires
        0 <= n < pchtxt_laws::pow16(d),
    ensures
        ({
            let s = hex_prefix() + pchtxt_writer::hex_text(n, d);
            &&& s.len() == 2 + d
            &&& forall|k: int| 0 <= k < d ==> #[trigger] pchtxt_writer::hex_text(n, d)[k] != 0x5f
            &&& numbers::grouped_value(s, 2, s.len() as int, 16) == Some(n)
        }),
    decreases d,
{
    if d > 0 {
        let p = (d - 1) as nat;
        lemma_hex(n / 16, p);
        let init = pchtxt_writer::hex_text(n / 16, p);
        let all = pchtxt_writer::hex_text(n, d);
        lemma_grouped_push(hex_prefix() + init, n % 16);
        assert(hex_prefix() + all =~= (hex_prefix() + init).push(
            pchtxt_writer::hex_digit(n % 16),
        ));
        assert forall|k: int| 0 <= k < d implies #[trigger] all[k] != 0x5f by {
            if k < p {
                assert(all[k] == init[k]);
            }
        }
    }
}

proof fn lemma_short_hex(n: int)
    requires
        n >= 0,
    ensures
        ({
            let digits = pchtxt_nxpch::short_hex(n);
            let s = hex_prefix() + digits;
            &&& digits.len() > 0
            &&& forall|k: int| 0 <= k < digits.len() ==> #[trigger] digits[k] != 0x5f
            &&& numbers::grouped_value(s, 2, s.len() as int, 16) == Some(n)
        }),
    decreases n,
{
    let all = pchtxt_nxpch::short_hex(n);
    let (init, d) = if n < 16 {
        (Seq::<u8>::empty(), n)
    } else {
        (pchtxt_nxpch::short_hex(n / 16), n % 16)
    };
    if n >= 16 {
        lemma_short_hex(n / 16);
    }
    lemma_grouped_push(hex_prefix() + init, d);
    assert(hex_prefix() + all =~= (hex_prefix() + init).push(pchtxt_writer::hex_digit(d)));
    assert forall|k: int| 0 <= k < all.len() implies #[trigger] all[k] != 0x5f by {
        if k < init.len() {
            assert(all[k] == init[k]);
        }
    }
}

/// An address that is written in hexadecimal is a plain number with that value.
pub proof fn law_address_is_plain(address: u32)
    ensures
        numbers::plain_value("0x".spec_bytes() + pchtxt_writer::hex_text(address as int, 8))
            == Some(address as int),
{
    lemma_hex_prefix();
    reveal_with_fuel(pchtxt_laws::pow16, 9);
    lemma_hex(address as int, 8);
    lemma_prefixed(pchtxt_writer::hex_text(address as int, 8), address as int);
}

/// A number that is written in hexadecimal without leading zeros is a plain number with that
/// value.
pub proof fn law_short_hex_is_plain(n: int)
    requires
        n >= 0,
    ensures
        numbers::plain_value("0x".spec_bytes() + pchtxt_nxpch::short_hex(n)) == Some(n),
{
    lemma_hex_prefix();
    lemma_short_hex(n);
    lemma_prefixed(pchtxt_nxpch::short_hex(n), n);
}

// ---------------------------------------------------------------------------------------------
// Data

proof fn lemma_little_endian(b: Seq<u8>, i: int, n: nat)
    requires
        0 <= i,
        i + n <= b.len(),
    ensures
        pchtxt_nxpch::little_endian(b, i, n as int) >= 0,
        n == 1 ==> pchtxt_nxpch::little_endian(b, i, n as int) <= u8::MAX,
        n <= 2 ==> pchtxt_nxpch::little_endian(b, i, n as int) <= u16::MAX,
        n <= 3 ==> pchtxt_nxpch::little_endian(b, i, n as int) <= 0xff_ffff,
        n <= 4 ==> pchtxt_nxpch::little_endian(b, i, n as int) <= u32::MAX,
        n <= 5 ==> pchtxt_nxpch::little_endian(b, i, n as int) <= 0xff_ffff_ffff,
        n <= 6 ==> pchtxt_nxpch::little_endian(b, i, n as int) <= 0xffff_ffff_ffff,
        n <= 7 ==> pchtxt_nxpch::little_endian(b, i, n as int) <= 0xff_ffff_ffff_ffff,
        n <= 8 ==> pchtxt_nxpch::little_endian(b, i, n as int) <= u64::MAX,
        assemble::le_bytes(pchtxt_nxpch::little_endian(b, i, n as int), n) == b.subrange(i, i + n),
    decreases n,
{
    if n > 0 {
        let p = (n - 1) as nat;
        lemma_little_endian(b, i + 1, p);
        if n == 1 {
            reveal_with_fuel(pchtxt_nxpch::little_endian, 2);
        }
        let high = pchtxt_nxpch::little_endian(b, i + 1, n - 1);
        let v = pchtxt_nxpch::little_endian(b, i, n as int);
        assert(v == b[i] + 256 * high);
        assert(v % 256 == b[i] as int && v / 256 == high);
        assert(b.subrange(i, i + n) =~= seq![b[i]] + b.subrange(i + 1, i + n));
    } else {
        assert(b.subrange(i, i + n) =~= Seq::empty());
    }
}

/// A line of data is split at the space behind its directive.
pub proof fn lemma_split_data(word: Seq<u8>, value: Seq<u8>)
    requires
        word.len() > 0,
        forall|k: int| 0 <= k < word.len() ==> 0x61 <= #[trigger] word[k] <= 0x7a,
        value.len() > 0,
        0x21 <= value[0] <= 0x7e,
    ensures
        ({
            let code = seq![0x2eu8] + word + seq![0x20u8] + value;
            let end = code.len() as int;
            let k = 1 + word.len() as int;
            &&& text::find_byte(code, 0x20, 1, end) == k
            &&& text::drop_space(code, 1, k) == k
            &&& code.subrange(1, k) == word
            &&& text::skip_space(code, k + 1, end) == k + 1
            &&& code.subrange(k + 1, end) == value
        }),
{
    let code = seq![0x2eu8] + word + seq![0x20u8] + value;
    let end = code.len() as int;
    let k = 1 + word.len() as int;
    text::lemma_find_byte(code, 0x20, 1, end);
    assert(code[k] == 0x20);
    assert forall|j: int| 1 <= j < k implies #[trigger] code[j] == word[j - 1] by {}
    assert(code[k - 1] == word[k - 2]);
    assert(code[k + 1] == value[0]);
    assert(code.subrange(1, k) =~= word);
    assert(code.subrange(k + 1, end) =~= value);
    assert(text::space_width_before(code, 1, k) == 0);
    assert(text::space_width(code, k + 1, end) == 0);
}

/// The name of the directive for numbers of `n` bytes.
pub open spec fn data_word(n: int) -> Seq<u8> {
    if n == 8 {
        "long".spec_bytes()
    } else if n == 4 {
        "int".spec_bytes()
    } else if n == 2 {
        "short".spec_bytes()
    } else {
        "byte".spec_bytes()
    }
}

proof fn lemma_data_words()
    ensures
        forall|n: int, k: int|
            0 <= k < data_word(n).len() ==> 0x61 <= #[trigger] data_word(n)[k] <= 0x7a,
        forall|n: int| (#[trigger] data_word(n)).len() > 0,
        forall|n: int| #[trigger]
            pchtxt_nxpch::data_directive(n) == seq![0x2eu8] + data_word(n) + seq![0x20u8],
        "long".spec_bytes() != "int".spec_bytes(),
        "long".spec_bytes() != "short".spec_bytes(),
        "long".spec_bytes() != "byte".spec_bytes(),
        "int".spec_bytes() != "short".spec_bytes(),
        "int".spec_bytes() != "byte".spec_bytes(),
        "short".spec_bytes() != "byte".spec_bytes(),
{
    reveal_strlit("long");
    is_ascii_spec_bytes("long");
    reveal_strlit("int");
    is_ascii_spec_bytes("int");
    reveal_strlit("short");
    is_ascii_spec_bytes("short");
    reveal_strlit("byte");
    is_ascii_spec_bytes("byte");
    reveal_strlit(".long ");
    is_ascii_spec_bytes(".long ");
    reveal_strlit(".int ");
    is_ascii_spec_bytes(".int ");
    reveal_strlit(".short ");
    is_ascii_spec_bytes(".short ");
    reveal_strlit(".byte ");
    is_ascii_spec_bytes(".byte ");
    assert(".long ".spec_bytes() =~= seq![0x2eu8] + "long".spec_bytes() + seq![0x20u8]);
    assert(".int ".spec_bytes() =~= seq![0x2eu8] + "int".spec_bytes() + seq![0x20u8]);
    assert(".short ".spec_bytes() =~= seq![0x2eu8] + "short".spec_bytes() + seq![0x20u8]);
    assert(".byte ".spec_bytes() =~= seq![0x2eu8] + "byte".spec_bytes() + seq![0x20u8]);
    assert("long".spec_bytes()[0] == 0x6c && "byte".spec_bytes()[0] == 0x62);
}

/// A line of data that holds `n` bytes of a patch as a number is read as code at the same
/// address that stands for the same bytes, and nothing is said about it.
#[verifier::spinoff_prover]
#[verifier::rlimit(40)]
pub proof fn law_data_line_reads_back(
    labels: Seq<LabelModel>,
    source_offset: usize,
    address: u32,
    b: Seq<u8>,
    i: int,
    n: int,
    line_span: SourceSpan,
    floats: Seq<ReadingModel>,
)
    requires
        n == 1 || n == 2 || n == 4 || n == 8,
        0 <= i,
        i + n <= b.len(),
        address + n <= CodeAddress::MAX_ALLOWED_ADDR + 1,
    ensures
        ({
            let value = pchtxt_nxpch::decimal(pchtxt_nxpch::little_endian(b, i, n));
            let code = pchtxt_nxpch::data_directive(n) + value;
            &&& code::line_parsed(labels, source_offset, address, code, line_span, floats) matches Ok(
                line,
            )
            &&& line.code matches Some(c)
            &&& c.address == address
            &&& assemble::data_bytes(c.instruction) == b.subrange(i, i + n)
            &&& line.next == (if address + n <= CodeAddress::MAX_ALLOWED_ADDR {
                Some((address + n) as u32)
            } else {
                None
            })
            &&& line.label is None
            &&& line.diags.len() == 0
        }),
{
    let v = pchtxt_nxpch::little_endian(b, i, n);
    let value = pchtxt_nxpch::decimal(v);
    let word = data_word(n);
    let code = pchtxt_nxpch::data_directive(n) + value;
    lemma_little_endian(b, i, n as nat);
    lemma_decimal(v);
    law_decimal_is_plain(v);
    lemma_data_words();
    lemma_split_data(word, value);
    assert(code == seq![0x2eu8] + word + seq![0x20u8] + value);
    assert(code.last() == value.last());
    assert(code[0] == 0x2e);
    if n == 1 {
        reveal_with_fuel(assemble::le_bytes, 2);
        assert(assemble::le_bytes(v, 1) =~= seq![v as u8]);
    }
    numbers::law_plain_number_is_read(value);
    let at = SourceSpan {
        offset: source_offset.wrapping_add((word.len() + 2) as usize),
        len: value.len() as usize,
    };
    let made = code::datum(word, value, at, floats);
    assert(made is Ok && made->Ok_0 is Some);
    let d = (made->Ok_0)->0;
    assert(d.width == n && d.diags.len() == 0);
    assert(assemble::data_bytes(d.value) == b.subrange(i, i + n));
}

/// The instruction for a number of `n` bytes.
pub open spec fn data_of(n: int, v: int) -> CodeInstructionModel {
    if n == 8 {
        ParsedCodeInstruction::Long(v as u64)
    } else if n == 4 {
        ParsedCodeInstruction::Int(v as u32)
    } else if n == 2 {
        ParsedCodeInstruction::Short(v as u16)
    } else {
        ParsedCodeInstruction::Byte(v as u8)
    }
}

/// The largest number of `n` bytes with a sign.
pub open spec fn signed_max(n: int) -> int {
    if n == 8 {
        i64::MAX as int
    } else if n == 4 {
        i32::MAX as int
    } else if n == 2 {
        i16::MAX as int
    } else {
        i8::MAX as int
    }
}

/// The number that the bits of `-v` are in `n` bytes without a sign.
pub open spec fn negated_bits(n: int, v: int) -> int {
    if n == 8 {
        (-v) as i64 as u64 as int
    } else if n == 4 {
        (-v) as i32 as u32 as int
    } else if n == 2 {
        (-v) as i16 as u16 as int
    } else {
        (-v) as i8 as u8 as int
    }
}

/// Data that a directive for `n` bytes makes of a number, which draws an overflow where it is
/// none.
pub open spec fn integer_made(n: int, v: Option<int>, at: SourceSpan) -> DatumModel {
    DatumModel {
        value: data_of(
            n,
            match v {
                Some(v) => v,
                None => 0,
            },
        ),
        width: n as u32,
        diags: match v {
            Some(_) => Seq::empty(),
            None => code::bad_integer(IntParseError::PosOverflow, at),
        },
    }
}

/// Data whose value is a plain number is that number, or 0 with a diagnostic where it is too
/// large. With a minus sign before it, it is the bits of the negated number where the signed type
/// holds the number itself; beyond that the source cannot be read on, or the number is too large.
#[verifier::spinoff_prover]
#[verifier::rlimit(40)]
pub proof fn law_integer_data(n: int, value: Seq<u8>, at: SourceSpan, floats: Seq<ReadingModel>)
    requires
        n == 1 || n == 2 || n == 4 || n == 8,
    ensures
        numbers::plain_value(value) matches Some(v) ==> code::datum(
            data_word(n),
            value,
            at,
            floats,
        ) == Ok::<Option<DatumModel>, HaltModel>(
            Some(
                integer_made(
                    n,
                    if v <= 2 * signed_max(n) + 1 {
                        Some(v)
                    } else {
                        None
                    },
                    at,
                ),
            ),
        ),
        numbers::negated_value(value) matches Some(v) ==> code::datum(
            data_word(n),
            value,
            at,
            floats,
        ) == (if v <= signed_max(n) {
            Ok::<Option<DatumModel>, HaltModel>(
                Some(integer_made(n, Some(negated_bits(n, v)), at)),
            )
        } else if v <= 2 * signed_max(n) + 1 {
            Err(Halt::BadSign)
        } else {
            Ok(Some(integer_made(n, None, at)))
        }),
{
    lemma_data_words();
    if numbers::plain_value(value) is Some {
        numbers::law_plain_number_is_read(value);
    }
    if numbers::negated_value(value) is Some {
        numbers::law_negated_number_is_read(value);
    }
}

/// A line `address = code` whose address is a plain number puts the code at that address, and a
/// line `.origin = address` makes it the address of the next line. An address that code cannot
/// have draws a diagnostic.
pub proof fn law_plain_address(
    floats: Seq<ReadingModel>,
    st: SubModel,
    t: Seq<u8>,
    offsets: Seq<usize>,
    k: int,
    line_start: usize,
    line_span: SourceSpan,
    v: int,
)
    requires
        0 <= k < t.len(),
        text::skip_space(t, k + 1, t.len() as int) < t.len(),
        numbers::plain_value(address_text(t, k)) == Some(v),
    ensures
        ({
            let cleared = st.multi_cleared(line_start);
            let value = text::skip_space(t, k + 1, t.len() as int);
            let (a, a_end) = address_range(t, k);
            let at = SourceSpan { offset: offsets[a], len: (a_end - a) as usize };
            state::assign_step(floats, st, t, offsets, k, line_start, line_span) == (if v
                > u32::MAX {
                Ok::<SplitModel, HaltModel>(
                    state::goes_on(
                        cleared,
                        seq![
                            ParseDiagnostic::InvalidCodeAddress {
                                cause: IntParseError::PosOverflow.spec_message().spec_bytes(),
                                at,
                            },
                        ],
                    ),
                )
            } else if v > CodeAddress::MAX_ALLOWED_ADDR {
                Ok(
                    state::goes_on(
                        cleared,
                        seq![ParseDiagnostic::UnsupportedCodeAddress { at }],
                    ),
                )
            } else if is_origin(t, k) {
                Ok(
                    state::goes_on(
                        SubModel { multi: Some(v as u32), ..cleared },
                        Seq::empty(),
                    ),
                )
            } else {
                match code::line_parsed(
                    cleared.labels,
                    offsets[value],
                    v as u32,
                    t.subrange(value, t.len() as int),
                    line_span,
                    floats,
                ) {
                    Err(h) => Err(h),
                    Ok(line) => Ok(state::goes_on(cleared.with_line(line), line.diags)),
                }
            })
        }),
{
    numbers::law_plain_number_is_read(address_text(t, k));
}

/// The line sets the address of the next line; `k` is the offset of its equals sign.
pub open spec fn is_origin(t: Seq<u8>, k: int) -> bool {
    t.subrange(0, text::drop_space(t, 0, k)) == ".origin".spec_bytes()
}

/// Where the address of a line with an equals sign at `k` stands.
pub open spec fn address_range(t: Seq<u8>, k: int) -> (int, int) {
    if is_origin(t, k) {
        (text::skip_space(t, k + 1, t.len() as int), t.len() as int)
    } else {
        (0, text::drop_space(t, 0, k))
    }
}

pub open spec fn address_text(t: Seq<u8>, k: int) -> Seq<u8> {
    t.subrange(address_range(t, k).0, address_range(t, k).1)
}

} // verus!
