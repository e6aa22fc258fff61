//! What the lines of a patch text file say, byte by byte.

use crate::numbers;
use crate::pchtxt;
use crate::pchtxt::{PchtxtDianostic, PchtxtFlag, PchtxtLineData};
use crate::preprocessor::token;
use crate::preprocessor::token::IntParseError;
use vstd::prelude::*;
use vstd::string::*;

verus! {

// ---------------------------------------------------------------------------------------------
// Digits

/// The value of a hexadecimal digit.
pub open spec fn nibble(x: u8) -> Option<int> {
    if 0x30 <= x <= 0x39 {
        Some(x - 0x30)
    } else if 0x41 <= x <= 0x46 {
        Some(x - 0x41 + 10)
    } else if 0x61 <= x <= 0x66 {
        Some(x - 0x61 + 10)
    } else {
        None
    }
}

/// The bytes `i..j` are hexadecimal digits.
pub open spec fn all_hex(b: Seq<u8>, i: int, j: int) -> bool {
    forall|k: int| i <= k < j ==> (#[trigger] nibble(b[k])) is Some
}

/// The number that hexadecimal digits are.
pub open spec fn hex_number(b: Seq<u8>, i: int, j: int) -> int
    decreases j - i,
{
    if i >= j {
        0
    } else {
        16 * hex_number(b, i, j - 1) + nibble(b[j - 1])->0
    }
}

/// How many numbers `n` hexadecimal digits can be.
pub open spec fn hex_range(n: nat) -> int
    decreases n,
{
    if n == 0 {
        1
    } else {
        16 * hex_range((n - 1) as nat)
    }
}

proof fn lemma_digit(x: u8)
    ensures
        nibble(x) is Some <==> token::digit_value(x) < 16,
        nibble(x) matches Some(v) ==> v == token::digit_value(x) && 0 <= v < 16,
{
}

proof fn lemma_hex_number(b: Seq<u8>, i: int, j: int)
    requires
        0 <= i <= j <= b.len(),
        all_hex(b, i, j),
    ensures
        token::digits_value(b, i, j, 16) == hex_number(b, i, j),
        0 <= hex_number(b, i, j) < hex_range((j - i) as nat),
    decreases j - i,
{
    if i < j {
        lemma_hex_number(b, i, j - 1);
        assert(nibble(b[j - 1]) is Some);
        lemma_digit(b[j - 1]);
    }
}

proof fn lemma_hex_end(b: Seq<u8>, i: int, j: int, end: int)
    requires
        0 <= i <= j <= end <= b.len(),
        all_hex(b, i, j),
        j == end || nibble(b[j]) is None,
    ensures
        pchtxt::hex_end(b, i, end) == j,
    decreases j - i,
{
    if i < end {
        lemma_digit(b[i]);
        if i < j {
            assert(nibble(b[i]) is Some);
            lemma_hex_end(b, i + 1, j, end);
        }
    }
}

/// A byte that ends a value.
pub open spec fn ends_value(x: u8) -> bool {
    x == 0x20 || x == 0x2f || x == 0x0d || x == 0x0a
}

/// A value reaches from `i` to `j` on a line that ends at `e`.
pub open spec fn is_value(b: Seq<u8>, i: int, j: int, e: int) -> bool {
    &&& i <= j <= e
    &&& forall|k: int| i <= k < j ==> !ends_value(#[trigger] b[k])
    &&& j == e || ends_value(b[j])
}

proof fn lemma_value_end(b: Seq<u8>, i: int, j: int, e: int)
    requires
        0 <= i,
        e <= b.len(),
        is_value(b, i, j, e),
    ensures
        pchtxt::value_end(b, i, e) == j,
    decreases j - i,
{
    if i < j {
        assert(!ends_value(b[i]));
        lemma_value_end(b, i + 1, j, e);
    }
}

// ---------------------------------------------------------------------------------------------
// Kinds of lines

/// A line of less than two bytes counts for nothing, and a line behind the one that stops the
/// reading neither. A line that starts with `#` is shown, one that starts with a slash is a
/// comment, and one that starts with `@` does what its second letter tells, in either case.
pub proof fn law_line_kinds(b: Seq<u8>, s: int, e: int, first: bool, finished: bool)
    requires
        0 <= s <= e <= b.len(),
        !pchtxt::names_build(b, s, e, first),
    ensures
        ({
            let m = pchtxt::line_at(b, s, e, first, finished);
            let read = e - s >= 2 && !finished;
            let x = b[s + 1];
            &&& !read ==> m.data is Ignored && m.diag is None
            &&& read && b[s] == 0x23 ==> m.data is Information && m.diag is None
            &&& read && b[s] == 0x2f ==> m.data is Comment && m.diag is None
            &&& read && b[s] == 0x40 && (x == 0x65 || x == 0x45) ==> m.data is Enable && m.diag
                is None
            &&& read && b[s] == 0x40 && (x == 0x73 || x == 0x53) ==> m.data is Stop && m.diag
                is None
            &&& read && b[s] == 0x40 && (x == 0x6c || x == 0x4c) ==> m.data is LittleEndian
                && m.diag is None
            &&& read && b[s] == 0x40 && (x == 0x62 || x == 0x42) ==> m.data is BigEndian && m.diag
                == Some(
                PchtxtDianostic::<Seq<u8>>::BigEndian { at: (s as usize, (e - s) as usize) },
            )
            &&& read && b[s] == 0x40 && (x == 0x66 || x == 0x46) ==> m.data is Flag || m.data
                is Ignored
            &&& read && b[s] == 0x40 && x != 0x65 && x != 0x45 && x != 0x73 && x != 0x53 && x
                != 0x6c && x != 0x4c && x != 0x62 && x != 0x42 && x != 0x66 && x != 0x46
                ==> m.data is Disable && m.diag is None
            &&& read && b[s] != 0x23 && b[s] != 0x2f && b[s] != 0x40 ==> m.data is Patch || m.data
                is Ignored
        }),
{
}

/// The first line names the build behind `@nsobid-`: the number that its hexadecimal digits are.
/// Without a digit, and with more than an identifier holds, it is told and counts as 0.
pub proof fn law_build_line(b: Seq<u8>, e: int, h: int)
    requires
        8 <= h <= e <= b.len() <= usize::MAX,
        b.subrange(0, 8) == seq![0x40u8, 0x6e, 0x73, 0x6f, 0x62, 0x69, 0x64, 0x2d],
        all_hex(b, 8, h),
        h == e || nibble(b[h]) is None,
    ensures
        ({
            let m = pchtxt::line_at(b, 0, e, true, false);
            let v = hex_number(b, 8, h);
            &&& h > 8 && v <= u128::MAX ==> m.data == PchtxtLineData::<Seq<u8>>::BuildId(v as u128)
                && m.diag is None
            &&& h == 8 || v > u128::MAX ==> m.data == PchtxtLineData::<Seq<u8>>::BuildId(0)
                && m.diag == Some(
                PchtxtDianostic::<Seq<u8>>::InvalidBuildId {
                    cause: if h == 8 {
                        IntParseError::Empty
                    } else {
                        IntParseError::PosOverflow
                    },
                    at: (8, (h - 8) as usize),
                },
            )
            &&& m.rest == (h as usize, e as usize)
        }),
{
    reveal_strlit("@nsobid-");
    is_ascii_spec_bytes("@nsobid-");
    let word = seq![0x40u8, 0x6e, 0x73, 0x6f, 0x62, 0x69, 0x64, 0x2d];
    assert("@nsobid-".spec_bytes() =~= word);
    assert forall|k: int| 0 <= k < 8 implies #[trigger] b[k] == word[k] by {
        assert(b.subrange(0, 8)[k] == b[k]);
    }
    lemma_hex_end(b, 8, h, e);
    lemma_hex_number(b, 8, h);
    assert(pchtxt::names_build(b, 0, e, true));
}

// ---------------------------------------------------------------------------------------------
// Patches

/// A line starts with an offset: eight hexadecimal digits, and a byte of ASCII behind the next
/// one.
pub open spec fn has_offset(b: Seq<u8>, s: int, e: int) -> bool {
    &&& 0 <= s
    &&& s + 11 <= e <= b.len()
    &&& all_hex(b, s, s + 8)
    &&& b[s + 9] < 0x80
}

proof fn lemma_offset(b: Seq<u8>, s: int, e: int)
    requires
        has_offset(b, s, e),
    ensures
        pchtxt::patch_offset(b, s) == Some(hex_number(b, s, s + 8) as u32),
        0 <= hex_number(b, s, s + 8) <= u32::MAX,
        b[s] != 0x40,
        b[s] != 0x23,
        b[s] != 0x2f,
{
    assert(nibble(b[s]) is Some);
    lemma_hex_end(b, s, s + 8, s + 8);
    lemma_hex_number(b, s, s + 8);
    reveal_with_fuel(hex_range, 9);
}

/// The offset of a line may have a plus sign in the place of its first digit. With any other byte
/// among its first eight the line is told there and counts for nothing.
pub proof fn law_offsets(b: Seq<u8>, s: int, e: int, first: bool)
    requires
        0 <= s,
        s + 11 <= e <= b.len() <= usize::MAX,
        b[s] != 0x40,
        b[s] != 0x23,
        b[s] != 0x2f,
    ensures
        b[s] == 0x2b && all_hex(b, s + 1, s + 8) ==> pchtxt::patch_offset(b, s) == Some(
            hex_number(b, s + 1, s + 8) as u32,
        ),
        !all_hex(b, s, s + 8) && !(b[s] == 0x2b && all_hex(b, s + 1, s + 8)) ==> {
            let m = pchtxt::line_at(b, s, e, first, false);
            m.data is Ignored && m.diag == Some(
                PchtxtDianostic::<Seq<u8>>::InvalidOffset {
                    cause: IntParseError::InvalidDigit,
                    at: (s as usize, 8),
                },
            )
        },
{
    lemma_not_build(b, s, e, first);
    let from = if b[s] == 0x2b {
        s + 1
    } else {
        s
    };
    if all_hex(b, from, s + 8) {
        lemma_hex_end(b, from, s + 8, s + 8);
        lemma_hex_number(b, from, s + 8);
        assert(all_hex(b, s, s + 8) || b[s] == 0x2b);
    } else {
        lemma_not_hex(b, from, s + 8);
    }
}

proof fn lemma_not_hex(b: Seq<u8>, i: int, end: int)
    requires
        0 <= i <= end <= b.len(),
        !all_hex(b, i, end),
    ensures
        pchtxt::hex_end(b, i, end) < end,
    decreases end - i,
{
    let k = choose|k: int| i <= k < end && (#[trigger] nibble(b[k])) is None;
    lemma_digit(b[i]);
    if nibble(b[i]) is Some {
        assert(!all_hex(b, i + 1, end)) by {
            assert(nibble(b[k]) is None);
        }
        lemma_not_hex(b, i + 1, end);
    }
}

proof fn lemma_pairs(b: Seq<u8>, i: int, j: int)
    requires
        0 <= i <= j <= b.len(),
        (j - i) % 2 == 0,
        all_hex(b, i, j),
    ensures
        ({
            let p = pchtxt::pair_bytes(b, i, j);
            &&& p.len() * 2 == j - i
            &&& forall|k: int|
                0 <= k < p.len() ==> #[trigger] p[k] == 16 * nibble(b[i + 2 * k])->0 + nibble(
                    b[i + 2 * k + 1],
                )->0
        }),
    decreases j - i,
{
    if i < j {
        assert(nibble(b[i]) is Some && nibble(b[i + 1]) is Some);
        lemma_digit(b[i]);
        lemma_digit(b[i + 1]);
        lemma_pairs(b, i + 2, j);
        let p = pchtxt::pair_bytes(b, i, j);
        let rest = pchtxt::pair_bytes(b, i + 2, j);
        assert forall|k: int| 0 <= k < p.len() implies #[trigger] p[k] == 16 * nibble(
            b[i + 2 * k],
        )->0 + nibble(b[i + 2 * k + 1])->0 by {
            if k > 0 {
                assert(p[k] == rest[k - 1]);
                assert(i + 2 + 2 * (k - 1) == i + 2 * k);
            }
        }
    }
}

/// A patch in digits puts a byte for each pair of them at the offset of the line. A digit too many
/// and a byte that is no digit are told where they stand, and the line counts for nothing.
pub proof fn law_digit_patch(b: Seq<u8>, s: int, p: int, e: int, h: int, first: bool)
    requires
        has_offset(b, s, e),
        b[s + 9] != 0x22,
        is_value(b, s + 9, p, e),
        s + 9 <= h <= p,
        all_hex(b, s + 9, h),
        h == p || nibble(b[h]) is None,
        e <= usize::MAX,
    ensures
        ({
            let m = pchtxt::line_at(b, s, e, first, false);
            let n = p - (s + 9);
            &&& n % 2 == 0 && h == p ==> {
                &&& m.diag is None
                &&& m.rest == (p as usize, e as usize)
                &&& m.data matches PchtxtLineData::Patch { offset, patch, is_string }
                &&& offset == hex_number(b, s, s + 8)
                &&& !is_string
                &&& patch.len() * 2 == n
                &&& forall|k: int|
                    0 <= k < patch.len() ==> #[trigger] patch[k] == 16 * nibble(
                        b[s + 9 + 2 * k],
                    )->0 + nibble(b[s + 9 + 2 * k + 1])->0
            }
            &&& n % 2 != 0 ==> m.data is Ignored && m.diag == Some(
                PchtxtDianostic::<Seq<u8>>::OddHexValueLength {
                    at: ((s + 9) as usize, n as usize),
                },
            )
            &&& n % 2 == 0 && h < p ==> m.data is Ignored && m.diag == Some(
                PchtxtDianostic::<Seq<u8>>::InvalidHexValue { at: (h as usize, 1) },
            )
        }),
{
    lemma_offset(b, s, e);
    lemma_value_end(b, s + 9, p, e);
    lemma_hex_end(b, s + 9, h, p);
    lemma_not_build(b, s, e, first);
    if (p - (s + 9)) % 2 == 0 && h == p {
        lemma_pairs(b, s + 9, p);
    }
}

/// A line that starts with a digit does not name the build.
proof fn lemma_not_build(b: Seq<u8>, s: int, e: int, first: bool)
    requires
        0 <= s < e <= b.len(),
        b[s] != 0x40,
    ensures
        !pchtxt::names_build(b, s, e, first),
{
    reveal_strlit("@nsobid-");
    is_ascii_spec_bytes("@nsobid-");
    if pchtxt::names_build(b, s, e, first) {
        let word = "@nsobid-".spec_bytes();
        assert(b.subrange(s, s + word.len())[0] == b[s]);
        assert(word[0] == 0x40);
    }
}

/// The byte that a backslash and a letter stand for: those of C, and for other letters the letter.
pub open spec fn is_escape(x: u8, y: u8) -> bool {
    match x {
        0x61u8 => y == 7,
        0x62u8 => y == 8,
        0x66u8 => y == 12,
        0x6eu8 => y == 10,
        0x72u8 => y == 13,
        0x74u8 => y == 9,
        _ => y == x,
    }
}

/// A string is read from its start: a byte stands for itself, and a backslash with the byte
/// behind it for what the two escape. A string without a backslash is its own text.
pub proof fn law_string_bytes(b: Seq<u8>, i: int, j: int)
    requires
        0 <= i <= j < b.len(),
    ensures
        i == j ==> pchtxt::string_bytes(b, i, j).len() == 0,
        i < j ==> {
            let t = pchtxt::string_bytes(b, i, j);
            let n = t.len() as int;
            &&& n > 0
            &&& b[i] != 0x5c ==> t[0] == b[i] && t.subrange(1, n) == pchtxt::string_bytes(
                b,
                i + 1,
                j,
            )
            &&& b[i] == 0x5c ==> is_escape(b[i + 1], t[0]) && t.subrange(1, n)
                == pchtxt::string_bytes(b, i + 2, j)
        },
        (forall|k: int| i <= k < j ==> #[trigger] b[k] != 0x5c) ==> pchtxt::string_bytes(b, i, j)
            == b.subrange(i, j),
    decreases j - i,
{
    let t = pchtxt::string_bytes(b, i, j);
    if i < j {
        let next = if b[i] == 0x5c {
            i + 2
        } else {
            i + 1
        };
        assert(t.subrange(1, t.len() as int) =~= pchtxt::string_bytes(b, next, j));
        if forall|k: int| i <= k < j ==> #[trigger] b[k] != 0x5c {
            assert(b[i] != 0x5c);
            law_string_bytes(b, i + 1, j);
            assert(t =~= b.subrange(i, j));
        }
    } else {
        assert(t =~= b.subrange(i, j));
    }
}

/// A string patch reaches to the first quote behind its opening one that no backslash stands
/// before, not counting the byte right behind the opening quote. It puts its bytes and a zero at
/// the offset of the line. Without such a quote it is told, and the line counts for nothing.
pub proof fn law_string_patch(b: Seq<u8>, s: int, q: int, e: int, first: bool)
    requires
        has_offset(b, s, e),
        b[s + 9] == 0x22,
        s + 11 <= q <= e,
        forall|k: int|
            s + 11 <= k < q ==> !(#[trigger] b[k] == 0x22 && b[k - 1] != 0x5c),
        q == e || (b[q] == 0x22 && b[q - 1] != 0x5c),
        e <= usize::MAX,
    ensures
        ({
            let m = pchtxt::line_at(b, s, e, first, false);
            &&& q < e ==> {
                &&& m.diag is None
                &&& m.rest == ((q + 1) as usize, e as usize)
                &&& m.data matches PchtxtLineData::Patch { offset, patch, is_string }
                &&& offset == hex_number(b, s, s + 8)
                &&& is_string
                &&& patch.len() > 0 && patch.last() == 0
                &&& patch.drop_last() == pchtxt::string_bytes(b, s + 10, q)
            }
            &&& q == e ==> m.data is Ignored && m.diag == Some(
                PchtxtDianostic::<Seq<u8>>::UnterminatedStringLiteral { at: e as usize },
            )
        }),
{
    lemma_offset(b, s, e);
    lemma_not_build(b, s, e, first);
    lemma_quote(b, s + 11, q, e);
    let t = pchtxt::string_bytes(b, s + 10, q);
    assert(t.push(0).drop_last() =~= t);
}

proof fn lemma_quote(b: Seq<u8>, i: int, q: int, e: int)
    requires
        0 < i <= q <= e <= b.len(),
        forall|k: int| i <= k < q ==> !(#[trigger] b[k] == 0x22 && b[k - 1] != 0x5c),
        q == e || (b[q] == 0x22 && b[q - 1] != 0x5c),
    ensures
        pchtxt::closing_quote(b, i, e) == q,
    decreases q - i,
{
    if i < q {
        assert(!(b[i] == 0x22 && b[i - 1] != 0x5c));
        lemma_quote(b, i + 1, q, e);
    }
}

// ---------------------------------------------------------------------------------------------
// Flags

/// A byte is a lower case letter, an underscore, or the upper case form of such a letter.
pub open spec fn is_letter(x: u8, lower: u8) -> bool {
    x == lower || (0x61 <= lower <= 0x7a && x == lower - 0x20)
}

/// The bytes from `i` on spell a word, in either case.
pub open spec fn spells(b: Seq<u8>, i: int, word: Seq<u8>) -> bool {
    i + word.len() <= b.len() && forall|k: int|
        0 <= k < word.len() ==> is_letter(#[trigger] b[i + k], word[k])
}

/// `offset_shift`
pub open spec fn shift_word() -> Seq<u8> {
    seq![0x6fu8, 0x66, 0x66, 0x73, 0x65, 0x74, 0x5f, 0x73, 0x68, 0x69, 0x66, 0x74]
}

/// `print_values`
pub open spec fn print_word() -> Seq<u8> {
    seq![0x70u8, 0x72, 0x69, 0x6e, 0x74, 0x5f, 0x76, 0x61, 0x6c, 0x75, 0x65, 0x73]
}

proof fn lemma_flag_words()
    ensures
        "offset_shift".spec_bytes() == shift_word(),
        "print_values".spec_bytes() == print_word(),
{
    reveal_strlit("offset_shift");
    is_ascii_spec_bytes("offset_shift");
    assert("offset_shift".spec_bytes() =~= shift_word());
    reveal_strlit("print_values");
    is_ascii_spec_bytes("print_values");
    assert("print_values".spec_bytes() =~= print_word());
}

proof fn lemma_spelled(b: Seq<u8>, i: int, word: Seq<u8>)
    requires
        0 <= i,
        spells(b, i, word),
        word == shift_word() || word == print_word(),
    ensures
        pchtxt::reads_as(b, i, word),
        forall|k: int| 0 <= k < word.len() ==> !ends_value(#[trigger] b[i + k]),
        b[i] < 0x80,
        word == shift_word() ==> !pchtxt::reads_as(b, i, print_word()),
{
    assert forall|k: int| 0 <= k < word.len() implies pchtxt::lower(b[i + k]) == pchtxt::lower(
        #[trigger] word[k],
    ) && !ends_value(b[i + k]) by {
        assert(is_letter(b[i + k], word[k]));
    }
    assert forall|k: int| 0 <= k < word.len() implies !ends_value(#[trigger] b[i + k]) by {
        let x = word[k];
    }
    assert(is_letter(b[i + 0], word[0]));
    if word == shift_word() && pchtxt::reads_as(b, i, print_word()) {
        assert(pchtxt::lower(b[i + 0]) == pchtxt::lower(print_word()[0]));
    }
}

/// A line `@flag offset_shift value` sets the shift to its value, in decimal or with a prefix, with
/// a minus sign or without one; the letters of the words may be of either case. What no shift can
/// be counts as 0.
pub proof fn law_shift_line(b: Seq<u8>, s: int, q: int, e: int, first: bool)
    requires
        0 <= s,
        s + 20 <= e <= b.len() <= usize::MAX,
        b[s] == 0x40,
        is_letter(b[s + 1], 0x66),
        spells(b, s + 6, shift_word()),
        ends_value(b[s + 18]),
        b[s + 19] < 0x80,
        is_value(b, s + 19, q, e),
    ensures
        ({
            let t = b.subrange(s + 19, q);
            let m = pchtxt::line_at(b, s, e, first, false);
            &&& m.diag is None
            &&& m.rest == (q as usize, e as usize)
            &&& m.data matches PchtxtLineData::Flag(PchtxtFlag::OffsetShift(shift))
            &&& numbers::plain_value(t) matches Some(v) ==> shift == if v <= i32::MAX {
                v
            } else {
                0
            }
        }),
{
    lemma_flag_words();
    lemma_spelled(b, s + 6, shift_word());
    assert forall|k: int| s + 6 <= k < s + 18 implies !ends_value(#[trigger] b[k]) by {
        assert(!ends_value(b[s + 6 + (k - s - 6)]));
    }
    lemma_value_end(b, s + 6, s + 18, e);
    lemma_value_end(b, s + 19, q, e);
    lemma_flag_is_no_build(b, s, e, first);
    let t = b.subrange(s + 19, q);
    if numbers::plain_value(t) is Some {
        numbers::law_plain_number_is_read(t);
    }
}

/// A line `@flag print_values`, in either case, is a flag of its own.
pub proof fn law_print_line(b: Seq<u8>, s: int, e: int, first: bool)
    requires
        0 <= s,
        s + 18 <= e <= b.len() <= usize::MAX,
        b[s] == 0x40,
        is_letter(b[s + 1], 0x66),
        spells(b, s + 6, print_word()),
        s + 18 == e || ends_value(b[s + 18]),
    ensures
        pchtxt::line_at(b, s, e, first, false).data == PchtxtLineData::<Seq<u8>>::Flag(
            PchtxtFlag::PrintValues,
        ),
        pchtxt::line_at(b, s, e, first, false).diag is None,
{
    lemma_flag_words();
    lemma_spelled(b, s + 6, print_word());
    assert forall|k: int| s + 6 <= k < s + 18 implies !ends_value(#[trigger] b[k]) by {
        assert(!ends_value(b[s + 6 + (k - s - 6)]));
    }
    lemma_value_end(b, s + 6, s + 18, e);
    lemma_flag_is_no_build(b, s, e, first);
}

proof fn lemma_flag_is_no_build(b: Seq<u8>, s: int, e: int, first: bool)
    requires
        0 <= s,
        s + 2 <= e <= b.len(),
        is_letter(b[s + 1], 0x66),
    ensures
        !pchtxt::names_build(b, s, e, first),
{
    reveal_strlit("@nsobid-");
    is_ascii_spec_bytes("@nsobid-");
    if pchtxt::names_build(b, s, e, first) {
        let word = "@nsobid-".spec_bytes();
        assert(b.subrange(s, s + word.len())[1] == b[s + 1]);
        assert(word[1] == 0x6e);
    }
}

/// What stands behind the word of a line counts as its rest: behind the whole word where it is
/// spelled out, in either case, and behind its first letter otherwise; for the word that disables,
/// behind the at sign.
pub proof fn law_word_rest(b: Seq<u8>, s: int, e: int, first: bool, word: Seq<u8>)
    requires
        0 <= s,
        s + 1 + word.len() <= e <= b.len() <= usize::MAX,
        b[s] == 0x40,
        !pchtxt::names_build(b, s, e, first),
        spells(b, s + 1, word),
        word == seq![0x65u8, 0x6e, 0x61, 0x62, 0x6c, 0x65, 0x64] || word == seq![
            0x73u8,
            0x74,
            0x6f,
            0x70,
        ] || word == seq![0x64u8, 0x69, 0x73, 0x61, 0x62, 0x6c, 0x65, 0x64],
    ensures
        pchtxt::line_at(b, s, e, first, false).rest == (
            (s + 1 + word.len()) as usize,
            e as usize,
        ),
{
    reveal_strlit("nabled");
    is_ascii_spec_bytes("nabled");
    reveal_strlit("top");
    is_ascii_spec_bytes("top");
    reveal_strlit("disabled");
    is_ascii_spec_bytes("disabled");
    assert(is_letter(b[s + 1 + 0], word[0]));
    let part = if word.len() == 7 {
        "nabled".spec_bytes()
    } else if word.len() == 4 {
        "top".spec_bytes()
    } else {
        "disabled".spec_bytes()
    };
    let at = if word.len() == 8 {
        s + 1
    } else {
        s + 2
    };
    assert forall|k: int| 0 <= k < part.len() implies pchtxt::lower(b[at + k]) == pchtxt::lower(
        #[trigger] part[k],
    ) by {
        assert(is_letter(b[s + 1 + (at - s - 1 + k)], word[at - s - 1 + k]));
    }
    assert(pchtxt::reads_as(b, at, part));
}

} // verus!
