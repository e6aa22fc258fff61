//! Where the pieces of a source end, and what their words mean.

use crate::json;
use crate::json::MemberModel;
use crate::option;
use crate::option::{OptionKind, OptionModel};
use crate::pre_parse;
use crate::pre_parse::{Piece, PreParseDiagnostic, StatementModel, ValueModel};
use crate::preprocessor::directive;
use crate::preprocessor::macros::MacroModel;
use crate::text;
use vstd::prelude::*;
use vstd::string::*;

verus! {

// ---------------------------------------------------------------------------------------------
// Values

pub open spec fn opens_bracket(x: u8) -> bool {
    x == 0x7b || x == 0x5b
}

pub open spec fn closes_bracket(x: u8) -> bool {
    x == 0x7d || x == 0x5d
}

pub open spec fn quotes(x: u8) -> bool {
    x == 0x22 || x == 0x27
}

/// How many brackets of `i..j` are open at its end.
pub open spec fn brackets(b: Seq<u8>, i: int, j: int) -> int
    decreases j - i,
{
    if i >= j {
        0
    } else {
        brackets(b, i, j - 1) + (if opens_bracket(b[j - 1]) {
            1int
        } else {
            0
        }) - (if closes_bracket(b[j - 1]) {
            1int
        } else {
            0
        })
    }
}

/// A value that starts at `i` ends with the byte at `j`: a bracket that leaves none open, or white
/// space outside of brackets.
pub open spec fn ends_with(b: Seq<u8>, i: int, j: int) -> bool {
    ||| closes_bracket(b[j]) && brackets(b, i, j) <= 1
    ||| (b[j] == 0x20 || b[j] == 0x09 || b[j] == 0x0a || b[j] == 0x0c || b[j] == 0x0d) && brackets(
        b,
        i,
        j,
    ) == 0
}

/// A value without strings reaches up to the first byte that it ends with, or to the end of the
/// source.
pub proof fn law_value_end(b: Seq<u8>, i: int, k: int)
    requires
        0 <= i < k <= b.len(),
        forall|j: int| i <= j < k ==> !quotes(#[trigger] b[j]),
        forall|j: int| i <= j < k - 1 ==> !#[trigger] ends_with(b, i, j),
        ends_with(b, i, k - 1) || k == b.len(),
    ensures
        pre_parse::value_end(b, i, 0, b.len() as int) == Some(k),
{
    lemma_value_end(b, i, i, k);
}

proof fn lemma_value_end(b: Seq<u8>, i: int, j: int, k: int)
    requires
        0 <= i <= j < k <= b.len(),
        forall|j: int| i <= j < k ==> !quotes(#[trigger] b[j]),
        forall|j: int| i <= j < k - 1 ==> !#[trigger] ends_with(b, i, j),
        ends_with(b, i, k - 1) || k == b.len(),
        brackets(b, i, j) >= 0,
    ensures
        pre_parse::value_end(b, j, brackets(b, i, j) as nat, b.len() as int) == Some(k),
    decreases k - j,
{
    assert(!quotes(b[j]));
    assert(brackets(b, i, j + 1) == brackets(b, i, j) + (if opens_bracket(b[j]) {
        1int
    } else {
        0
    }) - (if closes_bracket(b[j]) {
        1int
    } else {
        0
    }));
    if j < k - 1 {
        assert(!ends_with(b, i, j));
        lemma_value_end(b, i, j + 1, k);
    } else if !ends_with(b, i, j) {
        assert(pre_parse::value_end(
            b,
            j + 1,
            brackets(b, i, j + 1) as nat,
            b.len() as int,
        ) == Some(k));
    }
}

/// A string ends with the quote that it starts with. A backslash takes the byte behind it along,
/// and any other byte is passed over.
pub proof fn law_string_end(b: Seq<u8>, quote: u8, i: int, end: int)
    requires
        0 <= i < end <= b.len(),
        quotes(quote),
    ensures
        ({
            let e = pre_parse::string_end(b, quote, i, end);
            &&& b[i] == quote ==> e == i
            &&& b[i] == 0x5c ==> e == pre_parse::string_end(b, quote, i + 2, end)
            &&& b[i] != quote && b[i] != 0x5c ==> e == pre_parse::string_end(b, quote, i + 1, end)
        }),
{
}

/// A string in a value, without a backslash in it, does not count for where the value ends: it
/// goes on behind the string as deep in brackets as before it.
pub proof fn law_value_string(b: Seq<u8>, i: int, j: int, depth: nat)
    requires
        0 <= i < j < b.len(),
        quotes(b[i]),
        b[j] == b[i],
        forall|k: int| i < k < j ==> #[trigger] b[k] != b[i] && b[k] != 0x5c,
    ensures
        pre_parse::value_end(b, i, depth, b.len() as int) == pre_parse::value_end(
            b,
            j + 1,
            depth,
            b.len() as int,
        ),
{
    lemma_plain_string(b, b[i], i + 1, j, b.len() as int);
}

proof fn lemma_plain_string(b: Seq<u8>, quote: u8, i: int, j: int, end: int)
    requires
        0 <= i <= j < end <= b.len(),
        quotes(quote),
        b[j] == quote,
        forall|k: int| i <= k < j ==> #[trigger] b[k] != quote && b[k] != 0x5c,
    ensures
        pre_parse::string_end(b, quote, i, end) == j,
    decreases j - i,
{
    if i < j {
        assert(b[i] != quote && b[i] != 0x5c);
        lemma_plain_string(b, quote, i + 1, j, end);
    }
}

// ---------------------------------------------------------------------------------------------
// Comments

/// The part of a line without strings that counts reaches up to the first two slashes, or to the
/// end of the line.
pub proof fn law_code_end(b: Seq<u8>, i: int, k: int, end: int)
    requires
        0 <= i <= k <= end <= b.len(),
        forall|j: int| i <= j < k ==> !quotes(#[trigger] b[j]),
        forall|j: int| i <= j < k && j + 1 < end ==> !(#[trigger] b[j] == 0x2f && b[j + 1] == 0x2f),
        k == end || (k + 1 < end && b[k] == 0x2f && b[k + 1] == 0x2f),
    ensures
        pre_parse::code_end(b, i, end) == k,
    decreases k - i,
{
    if i < k {
        assert(!quotes(b[i]));
        if i + 1 < end {
            assert(!(b[i] == 0x2f && b[i + 1] == 0x2f));
            law_code_end(b, i + 1, k, end);
        }
    }
}

/// Slashes in a string, without a backslash in it, start no comment.
pub proof fn law_code_string(b: Seq<u8>, i: int, j: int, end: int)
    requires
        0 <= i < j < end <= b.len(),
        quotes(b[i]),
        b[j] == b[i],
        forall|k: int| i < k < j ==> #[trigger] b[k] != b[i] && b[k] != 0x5c,
    ensures
        pre_parse::code_end(b, i, end) == pre_parse::code_end(b, j + 1, end),
{
    lemma_plain_string(b, b[i], i + 1, j, end);
}

/// The end of the line at `s`: behind the first line break, or the end of the source.
pub open spec fn is_line_end(b: Seq<u8>, s: int, n: int) -> bool {
    &&& s <= n <= b.len()
    &&& forall|k: int| s <= k < n - 1 ==> #[trigger] b[k] != 0x0a
    &&& n < b.len() ==> s < n && b[n - 1] == 0x0a
}

proof fn lemma_line_end_is(b: Seq<u8>, s: int, n: int)
    requires
        0 <= s < n <= b.len(),
        is_line_end(b, s, n),
    ensures
        pre_parse::line_end(b, s, b.len() as int) == n,
{
    text::lemma_find_byte(b, 0x0a, s, b.len() as int);
    let f = text::find_byte(b, 0x0a, s, b.len() as int);
    if f < n - 1 {
        assert(b[f] != 0x0a);
    }
}

/// A line of two slashes is no piece; a line that starts with `#` is a directive and any other
/// that is no option is code, both up to a comment and without the white space before it. What
/// follows is looked for on the next line.
pub proof fn law_line_pieces(b: Seq<u8>, s: int, n: int)
    requires
        0 <= s < n <= b.len() <= usize::MAX,
        is_line_end(b, s, n),
        pre_parse::option_head(b, s) is None,
    ensures
        ({
            let slashes = s + 2 <= b.len() && b[s] == 0x2f && b[s + 1] == 0x2f;
            let end = text::drop_space(b, s, pre_parse::code_end(b, s, n)) as usize;
            &&& slashes ==> pre_parse::piece_at(b, s) == Some((None::<Piece>, n))
            &&& !slashes && b[s] == 0x23 ==> pre_parse::piece_at(b, s) == Some(
                (Some(Piece::Directive { start: s as usize, end }), n),
            )
            &&& !slashes && b[s] != 0x23 ==> pre_parse::piece_at(b, s) == Some(
                (Some(Piece::Code { start: s as usize, end }), n),
            )
        }),
{
    lemma_line_end_is(b, s, n);
    reveal_strlit("//");
    is_ascii_spec_bytes("//");
    assert("//".spec_bytes() =~= seq![0x2fu8, 0x2f]);
    if s + 2 <= b.len() && b[s] == 0x2f && b[s + 1] == 0x2f {
        assert(b.subrange(s, s + 2) =~= seq![0x2fu8, 0x2f]);
    } else if text::has_at(b, s, "//".spec_bytes()) {
        assert(b.subrange(s, s + 2)[0] == b[s]);
        assert(b.subrange(s, s + 2)[1] == b[s + 1]);
    }
}

/// An option is a name of lower case letters and underscores, an equals sign and a value, with
/// blanks around the sign or without. It takes the rest of the line that its value ends on.
pub proof fn law_option_piece(b: Seq<u8>, s: int, name: int, sign: int, value: int, k: int, n: int)
    requires
        0 <= s < name <= sign < value < k <= n <= b.len() <= usize::MAX,
        forall|j: int| s <= j < name ==> 0x61 <= #[trigger] b[j] <= 0x7a || b[j] == 0x5f,
        forall|j: int| name <= j < sign ==> #[trigger] b[j] == 0x20 || b[j] == 0x09,
        b[sign] == 0x3d,
        forall|j: int| sign < j < value ==> #[trigger] b[j] == 0x20 || b[j] == 0x09,
        b[value] != 0x20,
        b[value] != 0x09,
        forall|j: int| value <= j < k ==> !quotes(#[trigger] b[j]),
        forall|j: int| value <= j < k - 1 ==> !#[trigger] ends_with(b, value, j),
        ends_with(b, value, k - 1) || k == b.len(),
        k < b.len() ==> k < n && is_line_end(b, k, n),
        k == b.len() ==> n == k,
    ensures
        pre_parse::piece_at(b, s) == Some(
            (
                Some(
                    Piece::Option {
                        start: s as usize,
                        name_end: name as usize,
                        value: value as usize,
                        end: n as usize,
                    },
                ),
                n,
            ),
        ),
{
    let end = b.len() as int;
    lemma_option_name(b, s, name);
    lemma_blanks(b, name, sign);
    lemma_blanks(b, sign + 1, value);
    law_value_end(b, value, k);
    if k < end {
        lemma_line_end_is(b, k, n);
    } else {
        assert(pre_parse::line_end(b, end, end) == end);
    }
    reveal_strlit("//");
    is_ascii_spec_bytes("//");
    if text::has_at(b, s, "//".spec_bytes()) {
        assert(b.subrange(s, s + 2)[0] == b[s]);
    }
}

proof fn lemma_option_name(b: Seq<u8>, i: int, j: int)
    requires
        0 <= i <= j < b.len(),
        forall|k: int| i <= k < j ==> 0x61 <= #[trigger] b[k] <= 0x7a || b[k] == 0x5f,
        b[j] == 0x20 || b[j] == 0x09 || b[j] == 0x3d,
    ensures
        pre_parse::skip_option_name(b, i, b.len() as int) == j,
    decreases j - i,
{
    if i < j {
        assert(pre_parse::is_option_byte(b[i]));
        lemma_option_name(b, i + 1, j);
    }
}

proof fn lemma_blanks(b: Seq<u8>, i: int, j: int)
    requires
        0 <= i <= j < b.len(),
        forall|k: int| i <= k < j ==> #[trigger] b[k] == 0x20 || b[k] == 0x09,
        b[j] != 0x20,
        b[j] != 0x09,
    ensures
        text::skip_blank(b, i, b.len() as int) == j,
    decreases j - i,
{
    if i < j {
        assert(text::is_blank(b[i]));
        lemma_blanks(b, i + 1, j);
    }
}

// ---------------------------------------------------------------------------------------------
// Statements

/// A piece of code makes one statement: its text, at its place.
pub proof fn law_code_statement(b: Seq<u8>, start: usize, end: usize)
    requires
        start <= end <= b.len(),
    ensures
        ({
            let (made, said) = pre_parse::code_made(b, start, end);
            &&& said.len() == 0
            &&& made.len() == 1
            &&& made[0].start == start && made[0].end == end
            &&& made[0].statement matches StatementModel::Code(t, at)
            &&& t == b.subrange(start as int, end as int)
            &&& at.offset == start && at.len == end - start
        }),
{
    reveal(pre_parse::code_made);
}

/// The kinds of options by their names.
pub proof fn law_option_names(name: Seq<u8>)
    ensures
        option::kind_named(name) == Some(OptionKind::TargetBuild) <==> name == seq![
            0x74u8, 0x61, 0x72, 0x67, 0x65, 0x74, 0x5f, 0x62, 0x75, 0x69, 0x6c, 0x64,
        ],
        option::kind_named(name) == Some(OptionKind::TargetBuilds) <==> name == seq![
            0x74u8, 0x61, 0x72, 0x67, 0x65, 0x74, 0x5f, 0x62, 0x75, 0x69, 0x6c, 0x64, 0x73,
        ],
        option::kind_named(name) == Some(OptionKind::PointerOffset) <==> name == seq![
            0x70u8, 0x6f, 0x69, 0x6e, 0x74, 0x65, 0x72, 0x5f, 0x6f, 0x66, 0x66, 0x73, 0x65, 0x74,
        ],
        option::kind_named(name) == Some(OptionKind::UserSettings) <==> name == seq![
            0x75u8, 0x73, 0x65, 0x72, 0x5f, 0x73, 0x65, 0x74, 0x74, 0x69, 0x6e, 0x67, 0x73,
        ],
        option::kind_named(name) == Some(OptionKind::OutputFormat) <==> name == seq![
            0x6fu8, 0x75, 0x74, 0x70, 0x75, 0x74, 0x5f, 0x66, 0x6f, 0x72, 0x6d, 0x61, 0x74,
        ],
        option::kind_named(name) == Some(OptionKind::ModName) <==> name == seq![
            0x6du8, 0x6f, 0x64, 0x5f, 0x6e, 0x61, 0x6d, 0x65,
        ],
        option::kind_named(name) == Some(OptionKind::ModVersion) <==> name == seq![
            0x6du8, 0x6f, 0x64, 0x5f, 0x76, 0x65, 0x72, 0x73, 0x69, 0x6f, 0x6e,
        ],
{
    reveal_strlit("target_build");
    is_ascii_spec_bytes("target_build");
    let a = seq![0x74u8, 0x61, 0x72, 0x67, 0x65, 0x74, 0x5f, 0x62, 0x75, 0x69, 0x6c, 0x64];
    assert("target_build".spec_bytes() =~= a);
    reveal_strlit("target_builds");
    is_ascii_spec_bytes("target_builds");
    let c = seq![0x74u8, 0x61, 0x72, 0x67, 0x65, 0x74, 0x5f, 0x62, 0x75, 0x69, 0x6c, 0x64, 0x73];
    assert("target_builds".spec_bytes() =~= c);
    reveal_strlit("pointer_offset");
    is_ascii_spec_bytes("pointer_offset");
    let d = seq![
        0x70u8, 0x6f, 0x69, 0x6e, 0x74, 0x65, 0x72, 0x5f, 0x6f, 0x66, 0x66, 0x73, 0x65, 0x74,
    ];
    assert("pointer_offset".spec_bytes() =~= d);
    reveal_strlit("user_settings");
    is_ascii_spec_bytes("user_settings");
    let e = seq![0x75u8, 0x73, 0x65, 0x72, 0x5f, 0x73, 0x65, 0x74, 0x74, 0x69, 0x6e, 0x67, 0x73];
    assert("user_settings".spec_bytes() =~= e);
    reveal_strlit("output_format");
    is_ascii_spec_bytes("output_format");
    let f = seq![0x6fu8, 0x75, 0x74, 0x70, 0x75, 0x74, 0x5f, 0x66, 0x6f, 0x72, 0x6d, 0x61, 0x74];
    assert("output_format".spec_bytes() =~= f);
    reveal_strlit("mod_name");
    is_ascii_spec_bytes("mod_name");
    let g = seq![0x6du8, 0x6f, 0x64, 0x5f, 0x6e, 0x61, 0x6d, 0x65];
    assert("mod_name".spec_bytes() =~= g);
    reveal_strlit("mod_version");
    is_ascii_spec_bytes("mod_version");
    let h = seq![0x6du8, 0x6f, 0x64, 0x5f, 0x76, 0x65, 0x72, 0x73, 0x69, 0x6f, 0x6e];
    assert("mod_version".spec_bytes() =~= h);
    assert(c.len() == 13 && e.len() == 13 && f.len() == 13);
    assert(c[0] == 0x74 && e[0] == 0x75 && f[0] == 0x6f);
}

/// The statements and what is said come from the pieces one by one, in order: one more piece adds
/// what it makes behind what the others made. Options take the values that were read in their
/// order.
pub proof fn law_made_in_order(b: Seq<u8>, ps: Seq<Piece>, read: Seq<ValueModel>, n: int)
    requires
        0 < n <= ps.len(),
        pre_parse::made(b, ps, read, n) is Some,
    ensures
        ({
            let (ss, ds) = pre_parse::made(b, ps, read, n)->0;
            let (ss0, ds0) = pre_parse::made(b, ps, read, n - 1)->0;
            let (s, d) = pre_parse::made_by(
                b,
                ps[n - 1],
                read[pre_parse::option_count(ps, n - 1)],
            )->0;
            &&& pre_parse::made(b, ps, read, n - 1) is Some
            &&& ss.len() == ss0.len() + s.len()
            &&& ss.subrange(0, ss0.len() as int) == ss0
            &&& ss.subrange(ss0.len() as int, ss.len() as int) == s
            &&& ds.len() == ds0.len() + d.len()
            &&& ds.subrange(0, ds0.len() as int) == ds0
            &&& ds.subrange(ds0.len() as int, ds.len() as int) == d
            &&& pre_parse::option_count(ps, n) == pre_parse::option_count(ps, n - 1) + (if ps[n - 1]
                is Option {
                1int
            } else {
                0
            })
        }),
{
    let (ss, ds) = pre_parse::made(b, ps, read, n)->0;
    let (ss0, ds0) = pre_parse::made(b, ps, read, n - 1)->0;
    let (s, d) = pre_parse::made_by(b, ps[n - 1], read[pre_parse::option_count(ps, n - 1)])->0;
    assert(ss.subrange(0, ss0.len() as int) =~= ss0);
    assert(ss.subrange(ss0.len() as int, ss.len() as int) =~= s);
    assert(ds.subrange(0, ds0.len() as int) =~= ds0);
    assert(ds.subrange(ds0.len() as int, ds.len() as int) =~= d);
}

/// An option whose value was read makes one statement at its place, with the option that was read
/// moved to its place; one whose value is wrong, and one of an unknown name, makes none and draws
/// one diagnostic.
pub proof fn law_option_statement(
    b: Seq<u8>,
    start: usize,
    name_end: usize,
    value: usize,
    end: usize,
    read: ValueModel,
)
    requires
        start < name_end < value <= end <= b.len(),
        pre_parse::option_made(b, start, name_end, value, end, read) is Some,
    ensures
        ({
            let name = b.subrange(start as int, name_end as int);
            let (made, said) = pre_parse::option_made(b, start, name_end, value, end, read)->0;
            let known = option::kind_named(name) is Some;
            &&& made.len() + said.len() == 1
            &&& made.len() == 1 <==> known && read is Ok
            &&& made.len() == 1 ==> {
                &&& made[0].start == start
                &&& made[0].end == text::drop_space(b, value as int, end as int) as usize
                &&& made[0].statement matches StatementModel::Option(o, at)
                &&& at.offset == start && at.len == name_end - start
                &&& option::kind_named(name) == Some(option::kind_of(o))
            }
            &&& !known ==> (said[0] matches PreParseDiagnostic::UnknownOption {
                option: told,
                closest,
                at,
            } && told == name && at.offset == start && at.len == name_end - start)
            &&& known && read is Err ==> (said[0] matches PreParseDiagnostic::InvalidOptionValue {
                option: told,
                cause,
                at,
            } && told == name && cause == read->Err_0)
        }),
{
    reveal(pre_parse::option_made);
}

/// Moving the macros of an option to their places changes nothing of them but their offsets, and
/// nothing else of the option.
pub proof fn law_placed_macros(
    defines: Seq<MacroModel>,
    member: MemberModel,
    json: Seq<u8>,
    start: usize,
    j: int,
)
    requires
        0 <= j < defines.len(),
    ensures
        ({
            let after = option::placed(defines, member, json, start);
            let m = after[j];
            &&& after.len() == defines.len()
            &&& m.name == defines[j].name
            &&& m.args == defines[j].args
            &&& m.expansion == defines[j].expansion
            &&& m.declaration_range.1 == defines[j].declaration_range.1
            &&& m.expansion_offset.wrapping_sub(m.declaration_range.0)
                == defines[j].expansion_offset.wrapping_sub(defines[j].declaration_range.0)
        }),
{
}

/// An object has under a name what its first member of that name holds.
pub proof fn law_first_member(members: Seq<(Seq<u8>, json::ValueModel)>, key: Seq<u8>, k: int)
    requires
        0 <= k <= members.len(),
        forall|j: int| 0 <= j < k ==> (#[trigger] members[j]).0 != key,
        k < members.len() ==> members[k].0 == key,
    ensures
        k == members.len() ==> json::member_from(members, key, 0) is Missing,
        k < members.len() ==> match members[k].1 {
            json::Value::List(places) => json::member_from(members, key, 0)
                == MemberModel::List(places),
            json::Value::Other => json::member_from(members, key, 0) is Other,
        },
{
    lemma_first_member(members, key, 0, k);
}

proof fn lemma_first_member(
    members: Seq<(Seq<u8>, json::ValueModel)>,
    key: Seq<u8>,
    i: int,
    k: int,
)
    requires
        0 <= i <= k <= members.len(),
        forall|j: int| i <= j < k ==> (#[trigger] members[j]).0 != key,
        k < members.len() ==> members[k].0 == key,
    ensures
        json::member_from(members, key, i) == json::member_from(members, key, k),
    decreases k - i,
{
    if i < k {
        assert(members[i].0 != key);
        lemma_first_member(members, key, i + 1, k);
    }
}

/// A directive makes a statement where it can be read, from its `#` to its end, and what is said
/// about its line is told.
pub proof fn law_directive_statement(b: Seq<u8>, start: usize, end: usize)
    requires
        start <= end <= b.len(),
    ensures
        ({
            let (made, said) = pre_parse::directive_made(b, start, end);
            let (d, told) = directive::directive_of(b.subrange(start as int, end as int), start);
            &&& said.len() == told.len()
            &&& forall|k: int|
                0 <= k < said.len() ==> #[trigger] said[k] == PreParseDiagnostic::Preprocessor(
                    told[k],
                )
            &&& d is None ==> made.len() == 0
            &&& d matches Some(d) ==> made.len() == 1 && made[0].start == start && made[0].end
                == end && made[0].statement == StatementModel::Preprocessor(d)
        }),
{
    reveal(pre_parse::directive_made);
}

/// Placing the macros of an option leaves its entries, with their ids, names and layers, and the
/// number of macros of each, in their order.
pub proof fn law_option_placed(
    o: OptionModel,
    members: Option<Seq<MemberModel>>,
    json: Seq<u8>,
    start: usize,
)
    ensures
        ({
            let after = option::option_placed(o, members, json, start);
            match o {
                OptionModel::TargetBuilds(es) => after matches OptionModel::TargetBuilds(fs)
                    && fs.len() == es.len() && forall|i: int|
                    0 <= i < es.len() ==> (#[trigger] fs[i]).id == es[i].id && fs[i].defines.len()
                        == es[i].defines.len(),
                OptionModel::UserSettings(es) => after matches OptionModel::UserSettings(fs)
                    && fs.len() == es.len() && forall|i: int|
                    0 <= i < es.len() ==> (#[trigger] fs[i]).name == es[i].name && fs[i].layer
                        == es[i].layer && fs[i].defines.len() == es[i].defines.len(),
                _ => after == o,
            }
        }),
{
}

} // verus!
