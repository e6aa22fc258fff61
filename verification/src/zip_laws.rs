//! Where the patches of an archive stand, and what it is called.

use crate::distribution;
use crate::ips;
use crate::ips::IpsGenerateError;
use crate::option::OutputFormat;
use crate::parse::types::ResultModel;
use crate::parse::BuildTarget;
use crate::patches;
use crate::pchtxt_writer;
use crate::preprocessor::operator_laws;
use crate::text;
use crate::zip_gen;
use crate::zip_gen::{
    CompiledModel, EntryModel, PathSegment, ZipEntry, ZipGenerateDiagnostic, ZipModel,
};
use vstd::prelude::*;
use vstd::string::*;

verus! {

// ---------------------------------------------------------------------------------------------
// Paths

/// Names of nested directories, each with a slash behind it.
pub open spec fn nested(names: Seq<Seq<u8>>) -> Seq<u8>
    decreases names.len(),
{
    if names.len() == 0 {
        Seq::empty()
    } else {
        names[0] + seq![0x2fu8] + nested(names.subrange(1, names.len() as int))
    }
}

proof fn lemma_nested_push(names: Seq<Seq<u8>>, name: Seq<u8>)
    ensures
        nested(names.push(name)) == nested(names) + name + seq![0x2fu8],
    decreases names.len(),
{
    let all = names.push(name);
    if names.len() == 0 {
        assert(all.subrange(1, 1) =~= Seq::<Seq<u8>>::empty());
        reveal_with_fuel(nested, 2);
        assert(nested(all) =~= nested(names) + name + seq![0x2fu8]);
    } else {
        let rest = names.subrange(1, names.len() as int);
        lemma_nested_push(rest, name);
        assert(all.subrange(1, all.len() as int) =~= rest.push(name));
        assert(nested(all) =~= nested(names) + name + seq![0x2fu8]);
    }
}

/// The path of directories holds their names in order, each with a slash behind it.
pub proof fn law_directory_path(names: Seq<Seq<u8>>, n: int)
    requires
        0 <= n <= names.len(),
    ensures
        zip_gen::directory_path(names, n) == nested(names.subrange(0, n)),
    decreases n,
{
    reveal_strlit("/");
    is_ascii_spec_bytes("/");
    assert("/".spec_bytes() =~= seq![0x2fu8]);
    if n > 0 {
        law_directory_path(names, n - 1);
        lemma_nested_push(names.subrange(0, n - 1), names[n - 1]);
        assert(names.subrange(0, n) =~= names.subrange(0, n - 1).push(names[n - 1]));
    }
}

proof fn lemma_hex_digit(d: int)
    requires
        0 <= d < 16,
    ensures
        text::digit_text(d) == seq![operator_laws::digit_byte(d, true)],
{
    reveal_strlit("0");
    is_ascii_spec_bytes("0");
    reveal_strlit("1");
    is_ascii_spec_bytes("1");
    reveal_strlit("2");
    is_ascii_spec_bytes("2");
    reveal_strlit("3");
    is_ascii_spec_bytes("3");
    reveal_strlit("4");
    is_ascii_spec_bytes("4");
    reveal_strlit("5");
    is_ascii_spec_bytes("5");
    reveal_strlit("6");
    is_ascii_spec_bytes("6");
    reveal_strlit("7");
    is_ascii_spec_bytes("7");
    reveal_strlit("8");
    is_ascii_spec_bytes("8");
    reveal_strlit("9");
    is_ascii_spec_bytes("9");
    reveal_strlit("A");
    is_ascii_spec_bytes("A");
    reveal_strlit("B");
    is_ascii_spec_bytes("B");
    reveal_strlit("C");
    is_ascii_spec_bytes("C");
    reveal_strlit("D");
    is_ascii_spec_bytes("D");
    reveal_strlit("E");
    is_ascii_spec_bytes("E");
    reveal_strlit("F");
    is_ascii_spec_bytes("F");
    assert(text::digit_text(d) =~= seq![operator_laws::digit_byte(d, true)]);
}

/// The value of digits in base 16, in upper case.
pub open spec fn hex_value(b: Seq<u8>) -> int
    decreases b.len(),
{
    if b.len() == 0 {
        0
    } else {
        16 * hex_value(b.drop_last()) + (if b.last() <= 0x39 {
            b.last() - 0x30
        } else {
            b.last() - 0x41 + 10
        })
    }
}

/// Digits in base 16, in upper case.
pub open spec fn is_hex(b: Seq<u8>) -> bool {
    forall|k: int|
        0 <= k < b.len() ==> 0x30 <= #[trigger] b[k] <= 0x39 || 0x41 <= b[k] <= 0x46
}

/// A build is named by its number in base 16: digits in upper case whose value is the number, the
/// first of them zero for zero alone.
pub proof fn law_hex_number(n: nat)
    ensures
        zip_gen::hex_number(n).len() > 0,
        is_hex(zip_gen::hex_number(n)),
        hex_value(zip_gen::hex_number(n)) == n,
        zip_gen::hex_number(n)[0] == 0x30 <==> n == 0,
    decreases n,
{
    let s = zip_gen::hex_number(n);
    if n < 16 {
        lemma_hex_digit(n as int);
        reveal_with_fuel(hex_value, 2);
    } else {
        law_hex_number(n / 16);
        lemma_hex_digit((n % 16) as int);
        let init = zip_gen::hex_number(n / 16);
        assert(s.drop_last() =~= init);
        assert(s[0] == init[0]);
        assert forall|k: int| 0 <= k < s.len() implies 0x30 <= #[trigger] s[k] <= 0x39 || 0x41
            <= s[k] <= 0x46 by {
            if k < init.len() {
                assert(s[k] == init[k]);
            }
        }
    }
}

/// A segment of a path is its own text, the name of the mod, if it has one, or the number of the
/// build in base 16.
pub proof fn law_segments(segment: PathSegment, patch: ResultModel, fallback: Seq<u8>)
    ensures
        match segment {
            PathSegment::Static(s) => zip_gen::segment_text(segment, patch, fallback)
                == s.spec_bytes(),
            PathSegment::ModName => if patch.mod_name is Some {
                zip_gen::segment_text(segment, patch, fallback) == patch.mod_name->0
            } else {
                zip_gen::segment_text(segment, patch, fallback) == fallback
            },
            PathSegment::BuildId => {
                let t = zip_gen::segment_text(segment, patch, fallback);
                &&& is_hex(t)
                &&& hex_value(t) == patch.target_build
                &&& t.len() > 0 && (t[0] == 0x30 <==> patch.target_build == 0)
            },
        },
{
    law_hex_number(patch.target_build as nat);
}

// ---------------------------------------------------------------------------------------------
// Files

/// The names of the directories of a patch: its settings, and then the segments of its path.
pub open spec fn is_place(
    names: Seq<Seq<u8>>,
    patch: ResultModel,
    fallback: Seq<u8>,
    segments: Seq<PathSegment>,
) -> bool {
    let m = patch.user_settings.len();
    &&& names.len() == m + segments.len()
    &&& forall|i: int| 0 <= i < m ==> #[trigger] names[i] == patch.user_settings[i]
    &&& forall|i: int|
        m <= i < names.len() ==> #[trigger] names[i] == zip_gen::segment_text(
            segments[i - m],
            patch,
            fallback,
        )
}

/// The entries `k..` of an archive are directories on the way to a place.
pub open spec fn leads_to(
    entries: Seq<EntryModel>,
    k: int,
    end: int,
    names: Seq<Seq<u8>>,
) -> bool {
    forall|i: int|
        k <= i < end ==> exists|j: int|
            0 < j <= names.len() && #[trigger] entries[i] == ZipEntry::<
                Seq<u8>,
                Seq<u8>,
            >::Directory(nested(#[trigger] names.subrange(0, j)))
}

proof fn lemma_directories(entries: Seq<EntryModel>, names: Seq<Seq<u8>>, n: int)
    requires
        0 <= n <= names.len(),
    ensures
        ({
            let after = zip_gen::with_directories(entries, names, n);
            &&& entries.len() <= after.len()
            &&& after.subrange(0, entries.len() as int) == entries
            &&& leads_to(after, entries.len() as int, after.len() as int, names)
            &&& forall|j: int|
                0 < j <= n ==> after.contains(
                    ZipEntry::<Seq<u8>, Seq<u8>>::Directory(
                        nested(#[trigger] names.subrange(0, j)),
                    ),
                )
        }),
    decreases n,
{
    let after = zip_gen::with_directories(entries, names, n);
    if n == 0 {
        assert(after.subrange(0, entries.len() as int) =~= entries);
    } else {
        lemma_directories(entries, names, n - 1);
        law_directory_path(names, n);
        let before = zip_gen::with_directories(entries, names, n - 1);
        let last = ZipEntry::<Seq<u8>, Seq<u8>>::Directory(nested(names.subrange(0, n)));
        assert(after.subrange(0, entries.len() as int) =~= before.subrange(
            0,
            entries.len() as int,
        ));
        assert forall|i: int| entries.len() <= i < after.len() implies exists|j: int|
            0 < j <= names.len() && #[trigger] after[i] == ZipEntry::<Seq<u8>, Seq<u8>>::Directory(
                nested(#[trigger] names.subrange(0, j)),
            ) by {
            if i < before.len() {
                assert(after[i] == before[i]);
                let j = choose|j: int|
                    0 < j <= names.len() && #[trigger] before[i] == ZipEntry::<
                        Seq<u8>,
                        Seq<u8>,
                    >::Directory(nested(#[trigger] names.subrange(0, j)));
                assert(after[i] == ZipEntry::<Seq<u8>, Seq<u8>>::Directory(
                    nested(names.subrange(0, j)),
                ));
            } else {
                assert(after[i] == last);
            }
        }
        assert forall|j: int| 0 < j <= n implies after.contains(
            ZipEntry::<Seq<u8>, Seq<u8>>::Directory(nested(#[trigger] names.subrange(0, j))),
        ) by {
            let d = ZipEntry::<Seq<u8>, Seq<u8>>::Directory(nested(names.subrange(0, j)));
            if j < n {
                assert(before.contains(d));
                let i = choose|i: int| 0 <= i < before.len() && before[i] == d;
                assert(after[i] == d);
            } else if !before.contains(last) {
                assert(after[before.len() as int] == last);
            }
        }
    }
}

/// A patch adds its directories to an archive, and then one file in the last of them or one
/// diagnostic with its settings. The file is IPS unless the patch asks for the other format or
/// cannot be IPS, and its name says so. What was in the archive stays.
#[verifier::spinoff_prover]
pub proof fn law_patch_is_placed(
    zip: ZipModel,
    compiled: CompiledModel,
    fallback: Seq<u8>,
    segments: Seq<PathSegment>,
    file_name: PathSegment,
    all_ips: bool,
) -> (names: Seq<Seq<u8>>)
    ensures
        is_place(names, compiled.0, fallback, segments),
        ({
            let (patch, bytes) = compiled;
            let forced = patch.forced_output_format;
            let ips_fails = patches::starts_hunk(bytes, 0x45454f46);
            let (entries, diags) = zip_gen::with_patch(
                zip,
                compiled,
                fallback,
                segments,
                file_name,
                all_ips,
            );
            let path = nested(names) + zip_gen::segment_text(file_name, patch, fallback);
            let had = zip.0.len() as int;
            let as_ips = forced != Some(OutputFormat::Pchtxt) && !ips_fails;
            let as_text = !all_ips && (forced == Some(OutputFormat::Pchtxt) || (forced is None
                && ips_fails));
            let settings = patch.user_settings;
            &&& had <= entries.len()
            &&& entries.subrange(0, had) == zip.0
            &&& forall|j: int|
                0 < j <= names.len() ==> entries.contains(
                    ZipEntry::<Seq<u8>, Seq<u8>>::Directory(
                        nested(#[trigger] names.subrange(0, j)),
                    ),
                )
            &&& as_ips ==> {
                &&& had < entries.len()
                &&& entries.last() == (ZipEntry::<Seq<u8>, Seq<u8>>::File {
                    path: path + seq![0x2eu8, 0x69, 0x70, 0x73],
                    content: ips::ips_file(ips::ips_records(bytes)),
                })
                &&& leads_to(entries, had, entries.len() - 1, names)
                &&& diags == zip.1
            }
            &&& as_text ==> {
                &&& had < entries.len()
                &&& entries.last() == (ZipEntry::<Seq<u8>, Seq<u8>>::File {
                    path: path + seq![0x2eu8, 0x70, 0x63, 0x68, 0x74, 0x78, 0x74],
                    content: pchtxt_writer::pchtxt_file(bytes, patch.target_build),
                })
                &&& leads_to(entries, had, entries.len() - 1, names)
                &&& diags == zip.1
            }
            &&& !as_ips && !as_text ==> {
                &&& leads_to(entries, had, entries.len() as int, names)
                &&& diags == zip.1.push(
                    if forced == Some(OutputFormat::Pchtxt) {
                        ZipGenerateDiagnostic::PchtxtPartiallyRequested { settings }
                    } else if all_ips {
                        ZipGenerateDiagnostic::PchtxtRequired {
                            settings,
                            cause: IpsGenerateError::HasEofHunk,
                        }
                    } else {
                        ZipGenerateDiagnostic::IpsError {
                            settings,
                            cause: IpsGenerateError::HasEofHunk,
                        }
                    },
                )
            }
        }),
{
    let (patch, bytes) = compiled;
    let names = zip_gen::directory_names(patch, fallback, segments);
    let n = names.len() as int;
    let before = zip_gen::with_directories(zip.0, names, n);
    let entries = zip_gen::with_patch(zip, compiled, fallback, segments, file_name, all_ips).0;
    lemma_directories(zip.0, names, n);
    law_directory_path(names, n);
    assert(names.subrange(0, n) =~= names);
    reveal_strlit(".ips");
    is_ascii_spec_bytes(".ips");
    assert(".ips".spec_bytes() =~= seq![0x2eu8, 0x69, 0x70, 0x73]);
    reveal_strlit(".pchtxt");
    is_ascii_spec_bytes(".pchtxt");
    assert(".pchtxt".spec_bytes() =~= seq![0x2eu8, 0x70, 0x63, 0x68, 0x74, 0x78, 0x74]);
    assert(entries.subrange(0, before.len() as int) =~= before);
    assert(entries.subrange(0, zip.0.len() as int) =~= before.subrange(0, zip.0.len() as int));
    assert forall|i: int| zip.0.len() <= i < before.len() implies exists|j: int|
        0 < j <= names.len() && #[trigger] entries[i] == ZipEntry::<Seq<u8>, Seq<u8>>::Directory(
            nested(#[trigger] names.subrange(0, j)),
        ) by {
        assert(entries[i] == before[i]);
        let j = choose|j: int|
            0 < j <= names.len() && #[trigger] before[i] == ZipEntry::<
                Seq<u8>,
                Seq<u8>,
            >::Directory(nested(#[trigger] names.subrange(0, j)));
        assert(entries[i] == ZipEntry::<Seq<u8>, Seq<u8>>::Directory(
            nested(names.subrange(0, j)),
        ));
    }
    assert forall|j: int| 0 < j <= names.len() implies entries.contains(
        ZipEntry::<Seq<u8>, Seq<u8>>::Directory(nested(#[trigger] names.subrange(0, j))),
    ) by {
        let d = ZipEntry::<Seq<u8>, Seq<u8>>::Directory(nested(names.subrange(0, j)));
        assert(before.contains(d));
        let i = choose|i: int| 0 <= i < before.len() && before[i] == d;
        assert(entries[i] == d);
    }
    names
}

/// How many of the first `k` entries are files.
pub open spec fn file_count(entries: Seq<EntryModel>, k: int) -> int
    decreases k,
{
    if k <= 0 {
        0
    } else {
        file_count(entries, k - 1) + (if entries[k - 1] is File {
            1int
        } else {
            0
        })
    }
}

proof fn lemma_file_count(a: Seq<EntryModel>, b: Seq<EntryModel>, k: int)
    requires
        0 <= k <= a.len(),
        k <= b.len(),
        forall|i: int| 0 <= i < k ==> #[trigger] a[i] == b[i],
    ensures
        file_count(a, k) == file_count(b, k),
    decreases k,
{
    if k > 0 {
        lemma_file_count(a, b, k - 1);
        assert(a[k - 1] == b[k - 1]);
    }
}

proof fn lemma_no_files(entries: Seq<EntryModel>, k: int, end: int, names: Seq<Seq<u8>>)
    requires
        0 <= k <= end <= entries.len(),
        leads_to(entries, k, end, names),
    ensures
        file_count(entries, end) == file_count(entries, k),
    decreases end - k,
{
    if k < end {
        lemma_no_files(entries, k, end - 1, names);
        let j = choose|j: int|
            0 < j <= names.len() && #[trigger] entries[end - 1] == ZipEntry::<
                Seq<u8>,
                Seq<u8>,
            >::Directory(nested(#[trigger] names.subrange(0, j)));
        assert(entries[end - 1] is Directory);
    }
}

/// Every patch of an archive is in it as a file or is told: there are as many of the two together
/// as there are patches.
pub proof fn law_every_patch_counts(
    ps: Seq<CompiledModel>,
    fallback: Seq<u8>,
    segments: Seq<PathSegment>,
    file_name: PathSegment,
    all_ips: bool,
    n: int,
)
    requires
        0 <= n <= ps.len(),
    ensures
        ({
            let zip = zip_gen::zip_of(ps, fallback, segments, file_name, all_ips, n);
            file_count(zip.0, zip.0.len() as int) + zip.1.len() == n
        }),
    decreases n,
{
    if n > 0 {
        law_every_patch_counts(ps, fallback, segments, file_name, all_ips, n - 1);
        let before = zip_gen::zip_of(ps, fallback, segments, file_name, all_ips, n - 1);
        let after = zip_gen::zip_of(ps, fallback, segments, file_name, all_ips, n);
        let names = law_patch_is_placed(
            before,
            ps[n - 1],
            fallback,
            segments,
            file_name,
            all_ips,
        );
        let had = before.0.len() as int;
        assert forall|i: int| 0 <= i < had implies #[trigger] after.0[i] == before.0[i] by {
            assert(after.0.subrange(0, had)[i] == after.0[i]);
        }
        lemma_file_count(after.0, before.0, had);
        let end = after.0.len() as int;
        if after.1 == before.1 {
            lemma_no_files(after.0, had, end - 1, names);
        } else {
            lemma_no_files(after.0, had, end, names);
        }
    }
}

// ---------------------------------------------------------------------------------------------
// Names and versions

/// Every build whose mod has another name than that of the first draws a diagnostic with both
/// names and its own settings, and no other build does.
pub proof fn law_name_diagnostics(rs: Seq<ResultModel>, n: int) -> (at: Seq<int>)
    requires
        1 <= n <= rs.len(),
    ensures
        zip_gen::name_diagnostics(rs, n).len() == at.len(),
        forall|k: int| 0 <= k < at.len() ==> 0 < #[trigger] at[k] < n,
        forall|j: int, k: int| 0 <= j < k < at.len() ==> #[trigger] at[j] < #[trigger] at[k],
        forall|i: int| 0 < i < n ==> (at.contains(i) <==> (#[trigger] rs[i]).mod_name
            != rs[0].mod_name),
        forall|k: int|
            0 <= k < at.len() ==> ({
                &&& #[trigger] zip_gen::name_diagnostics(rs, n)[k] matches
                    ZipGenerateDiagnostic::InconsistentModNames {
                    first_name,
                    second_name,
                    second_settings,
                }
                &&& second_settings == rs[at[k]].user_settings
                &&& rs[0].mod_name matches Some(name) ==> first_name == name
                &&& rs[0].mod_name is None ==> first_name == "<unspecified>".spec_bytes()
                &&& rs[at[k]].mod_name matches Some(name) ==> second_name == name
                &&& rs[at[k]].mod_name is None ==> second_name == "<unspecified>".spec_bytes()
            }),
    decreases n,
{
    if n == 1 {
        Seq::empty()
    } else {
        let before = law_name_diagnostics(rs, n - 1);
        if rs[n - 1].mod_name == rs[0].mod_name {
            before
        } else {
            let at = before.push(n - 1);
            assert forall|i: int| 0 < i < n implies (at.contains(i) <==> (
            #[trigger] rs[i]).mod_name != rs[0].mod_name) by {
                if i == n - 1 {
                    assert(at[before.len() as int] == i);
                } else if before.contains(i) {
                    let k = choose|k: int| 0 <= k < before.len() && before[k] == i;
                    assert(at[k] == i);
                }
            }
            at
        }
    }
}

/// Every build whose mod has another version than that of the first draws a diagnostic with both
/// versions and its own settings, and no other build does.
pub proof fn law_version_diagnostics(rs: Seq<ResultModel>, n: int) -> (at: Seq<int>)
    requires
        1 <= n <= rs.len(),
    ensures
        zip_gen::version_diagnostics(rs, n).len() == at.len(),
        forall|k: int| 0 <= k < at.len() ==> 0 < #[trigger] at[k] < n,
        forall|j: int, k: int| 0 <= j < k < at.len() ==> #[trigger] at[j] < #[trigger] at[k],
        forall|i: int| 0 < i < n ==> (at.contains(i) <==> (#[trigger] rs[i]).mod_version
            != rs[0].mod_version),
        forall|k: int|
            0 <= k < at.len() ==> ({
                &&& #[trigger] zip_gen::version_diagnostics(rs, n)[k] matches
                    ZipGenerateDiagnostic::InconsistentModVersions {
                    first_version,
                    second_version,
                    second_settings,
                }
                &&& second_settings == rs[at[k]].user_settings
                &&& first_version == rs[0].mod_version
                &&& second_version == rs[at[k]].mod_version
            }),
    decreases n,
{
    if n == 1 {
        Seq::empty()
    } else {
        let before = law_version_diagnostics(rs, n - 1);
        if rs[n - 1].mod_version == rs[0].mod_version {
            before
        } else {
            let at = before.push(n - 1);
            assert forall|i: int| 0 < i < n implies (at.contains(i) <==> (
            #[trigger] rs[i]).mod_version != rs[0].mod_version) by {
                if i == n - 1 {
                    assert(at[before.len() as int] == i);
                } else if before.contains(i) {
                    let k = choose|k: int| 0 <= k < before.len() && before[k] == i;
                    assert(at[k] == i);
                }
            }
            at
        }
    }
}

/// An archive is called by the name and the version of the first mod and by the target:
/// `name-version+target.zip`.
pub proof fn law_zip_filename(rs: Seq<ResultModel>, fallback: Seq<u8>, target: Seq<u8>)
    requires
        rs.len() > 0,
    ensures
        ({
            let name = match rs[0].mod_name {
                Some(name) => name,
                None => fallback,
            };
            zip_gen::zip_filename(rs, fallback, target) == name + seq![0x2du8] + rs[0].mod_version
                + seq![0x2bu8] + target + seq![0x2eu8, 0x7a, 0x69, 0x70]
        }),
{
    reveal_strlit("-");
    is_ascii_spec_bytes("-");
    assert("-".spec_bytes() =~= seq![0x2du8]);
    reveal_strlit("+");
    is_ascii_spec_bytes("+");
    assert("+".spec_bytes() =~= seq![0x2bu8]);
    reveal_strlit(".zip");
    is_ascii_spec_bytes(".zip");
    assert(".zip".spec_bytes() =~= seq![0x2eu8, 0x7a, 0x69, 0x70]);
}

// ---------------------------------------------------------------------------------------------
// Targets

/// A single build is there where the two targets have one build between them, or one each and
/// both the same. It is that build. Elsewhere the number of builds is given.
pub proof fn law_single_build(emulator: Seq<ResultModel>, hardware: Seq<ResultModel>)
    ensures
        ({
            let r = distribution::single_build(emulator, hardware);
            let count = emulator.len() + hardware.len();
            &&& r is Ok <==> count == 1 || (emulator.len() == 1 && hardware.len() == 1
                && distribution::same_but_target(hardware[0], emulator[0]))
            &&& r matches Ok(b) ==> (emulator + hardware)[0] == b
            &&& r matches Err(n) ==> n == count
        }),
{
}

/// The builds for a target are those of the list that are for it, in their order.
pub proof fn law_of_target(rs: Seq<ResultModel>, target: BuildTarget, n: int) -> (at: Seq<int>)
    requires
        0 <= n <= rs.len(),
    ensures
        distribution::of_target(rs, target, n).len() == at.len(),
        forall|k: int| 0 <= k < at.len() ==> 0 <= #[trigger] at[k] < n,
        forall|j: int, k: int| 0 <= j < k < at.len() ==> #[trigger] at[j] < #[trigger] at[k],
        forall|k: int|
            0 <= k < at.len() ==> #[trigger] distribution::of_target(rs, target, n)[k] == rs[at[k]],
        forall|i: int| 0 <= i < n ==> (at.contains(i) <==> (#[trigger] rs[i]).build_target
            == target),
    decreases n,
{
    if n == 0 {
        Seq::empty()
    } else {
        let before = law_of_target(rs, target, n - 1);
        if rs[n - 1].build_target != target {
            before
        } else {
            let at = before.push(n - 1);
            assert forall|i: int| 0 <= i < n implies (at.contains(i) <==> (
            #[trigger] rs[i]).build_target == target) by {
                if i == n - 1 {
                    assert(at[before.len() as int] == i);
                } else if before.contains(i) {
                    let k = choose|k: int| 0 <= k < before.len() && before[k] == i;
                    assert(at[k] == i);
                }
            }
            at
        }
    }
}

/// The last dot is a dot with none behind it.
pub proof fn law_last_dot(b: Seq<u8>, n: int)
    requires
        0 <= n <= b.len(),
    ensures
        match distribution::last_dot(b, n) {
            Some(k) => 0 <= k < n && b[k] == 0x2e && forall|i: int|
                k < i < n ==> #[trigger] b[i] != 0x2e,
            None => forall|i: int| 0 <= i < n ==> #[trigger] b[i] != 0x2e,
        },
    decreases n,
{
    if n > 0 && b[n - 1] != 0x2e {
        law_last_dot(b, n - 1);
    }
}

/// The bits of a number of single precision that is no number: all bits of its exponent, and some
/// of its fraction.
pub open spec fn is_no_number(bits: u32) -> bool {
    bits / 0x80_0000 % 0x100 == 0xff && bits % 0x80_0000 != 0
}

/// The bits of a number of double precision that is no number.
pub open spec fn is_no_double(bits: u64) -> bool {
    bits / 0x10_0000_0000_0000 % 0x800 == 0x7ff && bits % 0x10_0000_0000_0000 != 0
}

/// Numbers are the same where their bits are, and beyond that only zeros of either sign are, and
/// those that are no numbers.
pub proof fn law_same_numbers(a: u32, b: u32, c: u64, d: u64)
    ensures
        distribution::same_float(a, b) <==> a == b || (is_no_number(a) && is_no_number(b)) || ((a
            == 0 || a == 0x8000_0000) && (b == 0 || b == 0x8000_0000)),
        distribution::same_double(c, d) <==> c == d || (is_no_double(c) && is_no_double(d)) || ((c
            == 0 || c == 0x8000_0000_0000_0000) && (d == 0 || d == 0x8000_0000_0000_0000)),
{
}

/// Builds that are the same but for their targets have the same name, version, build id, format,
/// settings and labels, and the same code at the same addresses; and a build is the same as itself
/// for another target.
pub proof fn law_same_parts(a: ResultModel, b: ResultModel, target: BuildTarget)
    ensures
        distribution::same_but_target(a, b) ==> {
            &&& a.mod_name == b.mod_name
            &&& a.mod_version == b.mod_version
            &&& a.target_build == b.target_build
            &&& a.forced_output_format == b.forced_output_format
            &&& a.user_settings == b.user_settings
            &&& a.labels == b.labels
            &&& a.code.len() == b.code.len()
            &&& forall|i: int|
                0 <= i < a.code.len() ==> {
                    let x = #[trigger] a.code[i];
                    let y = b.code[i];
                    &&& x.address == y.address
                    &&& x.line_span == y.line_span
                    &&& x.instruction_span == y.instruction_span
                    &&& !(x.instruction is Float) && !(x.instruction is Double) ==> x.instruction
                        == y.instruction
                    &&& x.instruction is Float <==> y.instruction is Float
                    &&& x.instruction is Double <==> y.instruction is Double
                }
        },
        distribution::same_but_target(a, ResultModel { build_target: target, ..a }),
{
    if distribution::same_but_target(a, b) {
        assert forall|i: int| 0 <= i < a.code.len() implies ({
            let x = #[trigger] a.code[i];
            let y = b.code[i];
            &&& x.address == y.address
            &&& x.line_span == y.line_span
            &&& x.instruction_span == y.instruction_span
            &&& !(x.instruction is Float) && !(x.instruction is Double) ==> x.instruction
                == y.instruction
            &&& x.instruction is Float <==> y.instruction is Float
            &&& x.instruction is Double <==> y.instruction is Double
        }) by {
            assert(distribution::same_line(a.code[i], b.code[i]));
        }
    }
}

} // verus!
