//! What goes into the archive of a mod: a directory for each choice of settings, and in it the
//! patch for each program.

use crate::assemble::AssembleDiagnostic;
use crate::ips;
use crate::ips::IpsGenerateError;
use crate::option::{BuildId, OutputFormat};
use crate::parse::types;
use crate::parse::types::{ParsingResult, ResultModel};
use crate::patches;
use crate::patches::PatchVec;
use crate::pchtxt_writer;
use crate::text;
use vstd::prelude::*;
use vstd::string::*;

verus! {

/// A part of the path of a patch.
#[derive(Clone, Copy, Debug)]
pub enum PathSegment {
    Static(&'static str),
    ModName,
    BuildId,
}

/// What an archive holds.
#[derive(Debug, PartialEq, Eq)]
pub enum ZipEntry<Text = String, Bytes = Vec<u8>> {
    Directory(Text),
    File { path: Text, content: Bytes },
}

#[derive(Debug, PartialEq, Eq)]
#[allow(inconsistent_fields)]
pub enum ZipGenerateDiagnostic<Text = String, Texts = Vec<String>> {
    InconsistentModNames { first_name: Text, second_name: Text, second_settings: Texts },
    InconsistentModVersions { first_version: Text, second_version: Text, second_settings: Texts },
    PchtxtRequired { settings: Texts, cause: IpsGenerateError },
    PchtxtPartiallyRequested { settings: Texts },
    IpsError { settings: Texts, cause: IpsGenerateError },
    Assemble(AssembleDiagnostic<Text>),
}

// ---------------------------------------------------------------------------------------------
// Model

pub type EntryModel = ZipEntry<Seq<u8>, Seq<u8>>;

impl View for ZipEntry<String, Vec<u8>> {
    type V = ZipEntry<Seq<u8>, Seq<u8>>;

    open spec fn view(&self) -> ZipEntry<Seq<u8>, Seq<u8>> {
        match *self {
            ZipEntry::Directory(path) => ZipEntry::Directory(text::bytes_of(path)),
            ZipEntry::File { path, content } => ZipEntry::File {
                path: text::bytes_of(path),
                content: content@,
            },
        }
    }
}

pub open spec fn entry_models(v: Seq<ZipEntry>) -> Seq<EntryModel> {
    Seq::new(v.len(), |i: int| v[i]@)
}

pub type ZipDiagnosticModel = ZipGenerateDiagnostic<Seq<u8>, Seq<Seq<u8>>>;

impl View for ZipGenerateDiagnostic<String, Vec<String>> {
    type V = ZipGenerateDiagnostic<Seq<u8>, Seq<Seq<u8>>>;

    open spec fn view(&self) -> ZipGenerateDiagnostic<Seq<u8>, Seq<Seq<u8>>> {
        match *self {
            ZipGenerateDiagnostic::InconsistentModNames {
                first_name,
                second_name,
                second_settings,
            } => ZipGenerateDiagnostic::InconsistentModNames {
                first_name: text::bytes_of(first_name),
                second_name: text::bytes_of(second_name),
                second_settings: types::texts(second_settings@),
            },
            ZipGenerateDiagnostic::InconsistentModVersions {
                first_version,
                second_version,
                second_settings,
            } => ZipGenerateDiagnostic::InconsistentModVersions {
                first_version: text::bytes_of(first_version),
                second_version: text::bytes_of(second_version),
                second_settings: types::texts(second_settings@),
            },
            ZipGenerateDiagnostic::PchtxtRequired { settings, cause } =>
                ZipGenerateDiagnostic::PchtxtRequired {
                settings: types::texts(settings@),
                cause,
            },
            ZipGenerateDiagnostic::PchtxtPartiallyRequested { settings } =>
                ZipGenerateDiagnostic::PchtxtPartiallyRequested {
                settings: types::texts(settings@),
            },
            ZipGenerateDiagnostic::IpsError { settings, cause } => ZipGenerateDiagnostic::IpsError {
                settings: types::texts(settings@),
                cause,
            },
            ZipGenerateDiagnostic::Assemble(d) => ZipGenerateDiagnostic::Assemble(d@),
        }
    }
}

pub open spec fn zip_diagnostics(v: Seq<ZipGenerateDiagnostic>) -> Seq<ZipDiagnosticModel> {
    Seq::new(v.len(), |i: int| v[i]@)
}

/// A number in hexadecimal.
pub open spec fn hex_number(n: nat) -> Seq<u8>
    decreases n,
{
    if n < 16 {
        text::digit_text(n as int)
    } else {
        hex_number(n / 16) + text::digit_text((n % 16) as int)
    }
}

/// The text that a segment stands for.
pub open spec fn segment_text(segment: PathSegment, patch: ResultModel, fallback: Seq<u8>) -> Seq<
    u8,
> {
    match segment {
        PathSegment::Static(s) => s.spec_bytes(),
        PathSegment::ModName => match patch.mod_name {
            Some(name) => name,
            None => fallback,
        },
        PathSegment::BuildId => hex_number(patch.target_build as nat),
    }
}

/// The names of the directories of a patch: its settings, and the segments.
pub open spec fn directory_names(
    patch: ResultModel,
    fallback: Seq<u8>,
    segments: Seq<PathSegment>,
) -> Seq<Seq<u8>> {
    patch.user_settings + Seq::new(
        segments.len(),
        |i: int| segment_text(segments[i], patch, fallback),
    )
}

/// The path of the first `n` of nested directories.
pub open spec fn directory_path(names: Seq<Seq<u8>>, n: int) -> Seq<u8>
    decreases n,
{
    if n <= 0 {
        Seq::empty()
    } else {
        directory_path(names, n - 1) + names[n - 1] + "/".spec_bytes()
    }
}

/// The archive with a directory, which it holds only once.
pub open spec fn with_directory(entries: Seq<EntryModel>, path: Seq<u8>) -> Seq<EntryModel> {
    if entries.contains(ZipEntry::Directory(path)) {
        entries
    } else {
        entries.push(ZipEntry::Directory(path))
    }
}

/// The archive with the first `n` of nested directories.
pub open spec fn with_directories(entries: Seq<EntryModel>, names: Seq<Seq<u8>>, n: int) -> Seq<
    EntryModel,
>
    decreases n,
{
    if n <= 0 {
        entries
    } else {
        with_directory(with_directories(entries, names, n - 1), directory_path(names, n))
    }
}

/// What is done with a patch: which format it is written in, or why it is not.
#[derive(Clone, Copy, Debug, PartialEq, Eq, Structural)]
pub enum Choice {
    Ips,
    Pchtxt,
    PchtxtRequired,
    PchtxtPartiallyRequested,
    IpsError,
}

/// The choice for a patch. `forced` is the format that it asks for, `ips_fails` whether it cannot
/// be written as IPS, and `all_ips` whether the archive is for a system on which all patches
/// should be IPS and not all of them ask for the other format.
pub open spec fn choice(forced: Option<OutputFormat>, ips_fails: bool, all_ips: bool) -> Choice {
    match forced {
        Some(OutputFormat::Pchtxt) => if all_ips {
            Choice::PchtxtPartiallyRequested
        } else {
            Choice::Pchtxt
        },
        Some(OutputFormat::Ips) => if !ips_fails {
            Choice::Ips
        } else if all_ips {
            Choice::PchtxtRequired
        } else {
            Choice::IpsError
        },
        None => if !ips_fails {
            Choice::Ips
        } else if all_ips {
            Choice::PchtxtRequired
        } else {
            Choice::Pchtxt
        },
    }
}

/// The archive and what is said about it.
pub type ZipModel = (Seq<EntryModel>, Seq<ZipDiagnosticModel>);

/// A build and its patch.
pub type CompiledModel = (ResultModel, Map<u32, u8>);

/// The archive with a patch.
pub open spec fn with_patch(
    zip: ZipModel,
    compiled: CompiledModel,
    fallback: Seq<u8>,
    segments: Seq<PathSegment>,
    file_name: PathSegment,
    all_ips: bool,
) -> ZipModel {
    let (patch, bytes) = compiled;
    let names = directory_names(patch, fallback, segments);
    let n = names.len() as int;
    let entries = with_directories(zip.0, names, n);
    let path = directory_path(names, n) + segment_text(file_name, patch, fallback);
    let settings = patch.user_settings;
    let cause = IpsGenerateError::HasEofHunk;
    match choice(
        patch.forced_output_format,
        patches::starts_hunk(bytes, ips::IPS_UNSAFE_OFFSET),
        all_ips,
    ) {
        Choice::Ips => (
            entries.push(
                ZipEntry::File {
                    path: path + ".ips".spec_bytes(),
                    content: ips::ips_file(ips::ips_records(bytes)),
                },
            ),
            zip.1,
        ),
        Choice::Pchtxt => (
            entries.push(
                ZipEntry::File {
                    path: path + ".pchtxt".spec_bytes(),
                    content: pchtxt_writer::pchtxt_file(bytes, patch.target_build),
                },
            ),
            zip.1,
        ),
        Choice::PchtxtRequired => (
            entries,
            zip.1.push(ZipGenerateDiagnostic::PchtxtRequired { settings, cause }),
        ),
        Choice::PchtxtPartiallyRequested => (
            entries,
            zip.1.push(ZipGenerateDiagnostic::PchtxtPartiallyRequested { settings }),
        ),
        Choice::IpsError => (
            entries,
            zip.1.push(ZipGenerateDiagnostic::IpsError { settings, cause }),
        ),
    }
}

/// Every patch asks for the patch text format.
pub open spec fn all_force_pchtxt(ps: Seq<CompiledModel>) -> bool {
    forall|i: int|
        0 <= i < ps.len() ==> (#[trigger] ps[i]).0.forced_output_format == Some(
            OutputFormat::Pchtxt,
        )
}

/// The archive with the first `n` of some patches.
pub open spec fn zip_of(
    ps: Seq<CompiledModel>,
    fallback: Seq<u8>,
    segments: Seq<PathSegment>,
    file_name: PathSegment,
    all_ips: bool,
    n: int,
) -> ZipModel
    decreases n,
{
    if n <= 0 {
        (Seq::empty(), Seq::empty())
    } else {
        with_patch(
            zip_of(ps, fallback, segments, file_name, all_ips, n - 1),
            ps[n - 1],
            fallback,
            segments,
            file_name,
            all_ips,
        )
    }
}

pub open spec fn compiled_models(v: Seq<(ParsingResult, PatchVec)>) -> Seq<CompiledModel> {
    Seq::new(v.len(), |i: int| (v[i].0@, v[i].1@))
}

// ---------------------------------------------------------------------------------------------
// Laws

/// No directory is in the archive twice.
pub open spec fn directories_once(entries: Seq<EntryModel>) -> bool {
    forall|i: int, j: int|
        0 <= i < j < entries.len() && (#[trigger] entries[i]) is Directory ==> entries[i] != (
        #[trigger] entries[j])
}

proof fn lemma_with_directories(entries: Seq<EntryModel>, names: Seq<Seq<u8>>, n: int)
    requires
        directories_once(entries),
    ensures
        directories_once(with_directories(entries, names, n)),
        forall|k: int|
            1 <= k <= n ==> with_directories(entries, names, n).contains(
                ZipEntry::<Seq<u8>, Seq<u8>>::Directory(#[trigger] directory_path(names, k)),
            ),
    decreases n,
{
    if n > 0 {
        lemma_with_directories(entries, names, n - 1);
        let before = with_directories(entries, names, n - 1);
        let after = with_directories(entries, names, n);
        let last = ZipEntry::<Seq<u8>, Seq<u8>>::Directory(directory_path(names, n));
        assert forall|k: int| 1 <= k <= n implies after.contains(
            ZipEntry::<Seq<u8>, Seq<u8>>::Directory(#[trigger] directory_path(names, k)),
        ) by {
            if k < n {
                let d = ZipEntry::<Seq<u8>, Seq<u8>>::Directory(directory_path(names, k));
                assert(before.contains(d));
                let i = choose|i: int| 0 <= i < before.len() && before[i] == d;
                assert(after[i] == d);
            } else if !before.contains(last) {
                assert(after[before.len() as int] == last);
            }
        }
        if !before.contains(last) {
            assert forall|i: int, j: int|
                0 <= i < j < after.len() && (#[trigger] after[i]) is Directory implies after[i] != (
            #[trigger] after[j]) by {
                if j < before.len() {
                    assert(before[i] != before[j]);
                } else {
                    assert(before.contains(before[i]));
                }
            }
        }
    }
}

/// Adding patches to an archive never puts a directory into it twice, and the directories of
/// each patch are all in it.
pub proof fn law_directories_once(
    ps: Seq<CompiledModel>,
    fallback: Seq<u8>,
    segments: Seq<PathSegment>,
    file_name: PathSegment,
    all_ips: bool,
    n: int,
)
    requires
        n <= ps.len(),
    ensures
        ({
            let zip = zip_of(ps, fallback, segments, file_name, all_ips, n);
            &&& directories_once(zip.0)
            &&& n > 0 ==> forall|k: int|
                1 <= k <= directory_names(ps[n - 1].0, fallback, segments).len() ==> zip.0.contains(
                    ZipEntry::<Seq<u8>, Seq<u8>>::Directory(
                        #[trigger] directory_path(
                            directory_names(ps[n - 1].0, fallback, segments),
                            k,
                        ),
                    ),
                )
        }),
    decreases n,
{
    if n > 0 {
        law_directories_once(ps, fallback, segments, file_name, all_ips, n - 1);
        let zip = zip_of(ps, fallback, segments, file_name, all_ips, n - 1);
        let names = directory_names(ps[n - 1].0, fallback, segments);
        let m = names.len() as int;
        lemma_with_directories(zip.0, names, m);
        let before = with_directories(zip.0, names, m);
        let after = zip_of(ps, fallback, segments, file_name, all_ips, n);
        assert forall|k: int| 1 <= k <= m implies after.0.contains(
            ZipEntry::<Seq<u8>, Seq<u8>>::Directory(#[trigger] directory_path(names, k)),
        ) by {
            let d = ZipEntry::<Seq<u8>, Seq<u8>>::Directory(directory_path(names, k));
            assert(before.contains(d));
            let i = choose|i: int| 0 <= i < before.len() && before[i] == d;
            assert(after.0[i] == d);
        }
        assert(directories_once(after.0)) by {
            if after.0.len() > before.len() {
                assert forall|i: int, j: int|
                    0 <= i < j < after.0.len() && (
                    #[trigger] after.0[i]) is Directory implies after.0[i] != (
                #[trigger] after.0[j]) by {
                    if j < before.len() {
                        assert(before[i] != before[j]);
                    }
                }
            }
        }
    }
}

/// A patch that asks for IPS is written as IPS where it can be, and is never patch text. One that
/// asks for patch text is patch text, unless all patches should be IPS, and is never IPS. One that
/// asks for nothing is IPS where it can be, and otherwise patch text, unless all patches should be
/// IPS. So where all should be, none is patch text, and none is IPS that cannot be.
pub proof fn law_choice(forced: Option<OutputFormat>, ips_fails: bool, all_ips: bool)
    ensures
        all_ips ==> choice(forced, ips_fails, all_ips) != Choice::Pchtxt,
        choice(forced, ips_fails, all_ips) == Choice::Ips ==> !ips_fails,
        forced == Some(OutputFormat::Pchtxt) ==> choice(forced, ips_fails, all_ips) != Choice::Ips,
        forced == Some(OutputFormat::Pchtxt) && !all_ips ==> choice(forced, ips_fails, all_ips)
            == Choice::Pchtxt,
        forced == Some(OutputFormat::Pchtxt) && all_ips ==> choice(forced, ips_fails, all_ips)
            == Choice::PchtxtPartiallyRequested,
        forced == Some(OutputFormat::Ips) ==> choice(forced, ips_fails, all_ips) != Choice::Pchtxt,
        forced == Some(OutputFormat::Ips) ==> (choice(forced, ips_fails, all_ips) == Choice::Ips
            <==> !ips_fails),
        forced == Some(OutputFormat::Ips) && ips_fails && !all_ips ==> choice(
            forced,
            ips_fails,
            all_ips,
        ) == Choice::IpsError,
        forced is None ==> (choice(forced, ips_fails, all_ips) == Choice::Ips <==> !ips_fails),
        forced is None && !all_ips ==> choice(forced, ips_fails, all_ips) == if ips_fails {
            Choice::Pchtxt
        } else {
            Choice::Ips
        },
        forced != Some(OutputFormat::Pchtxt) && ips_fails && all_ips ==> choice(
            forced,
            ips_fails,
            all_ips,
        ) == Choice::PchtxtRequired,
        choice(forced, ips_fails, all_ips) == Choice::PchtxtPartiallyRequested ==> forced == Some(
            OutputFormat::Pchtxt,
        ) && all_ips,
        choice(forced, ips_fails, all_ips) == Choice::PchtxtRequired ==> ips_fails && all_ips,
        choice(forced, ips_fails, all_ips) == Choice::IpsError ==> ips_fails && forced == Some(
            OutputFormat::Ips,
        ),
{
}

// ---------------------------------------------------------------------------------------------
// Generating

fn append_hex(s: &mut String, n: u128)
    ensures
        text::bytes_of(*final(s)) == text::bytes_of(*old(s)) + hex_number(n as nat),
    decreases n,
{
    if n >= 16 {
        append_hex(s, n / 16);
    }
    text::append_digit(s, (n % 16) as u8);
    assert(text::bytes_of(*s) =~= text::bytes_of(*old(s)) + hex_number(n as nat));
}

impl PathSegment {
    /// Appends the text that a segment stands for.
    fn format(self, patch: &ParsingResult, fallback_filename: &str, output: &mut String)
        ensures
            text::bytes_of(*final(output)) == text::bytes_of(*old(output)) + segment_text(
                self,
                patch@,
                fallback_filename.spec_bytes(),
            ),
    {
        match self {
            PathSegment::Static(s) => text::append(output, s),
            PathSegment::ModName => match &patch.mod_name {
                Some(name) => text::append(output, name.as_str()),
                None => text::append(output, fallback_filename),
            },
            PathSegment::BuildId => append_hex(output, patch.target_build),
        }
    }
}

fn has_directory(entries: &Vec<ZipEntry>, path: &str) -> (r: bool)
    ensures
        r == entry_models(entries@).contains(ZipEntry::Directory(path.spec_bytes())),
{
    let ghost models = entry_models(entries@);
    let ghost wanted = ZipEntry::<Seq<u8>, Seq<u8>>::Directory(path.spec_bytes());
    let mut i: usize = 0;
    while i < entries.len()
        invariant
            i <= entries@.len(),
            models == entry_models(entries@),
            wanted == ZipEntry::<Seq<u8>, Seq<u8>>::Directory(path.spec_bytes()),
            forall|k: int| 0 <= k < i ==> (#[trigger] models[k]) != wanted,
        decreases entries@.len() - i,
    {
        assert(models[i as int] == entries@[i as int]@);
        if let ZipEntry::Directory(d) = &entries[i] {
            if text::bytes_eq(d.as_str().as_bytes(), path.as_bytes()) {
                return true;
            }
        }
        i += 1;
    }
    false
}

fn add_entry(entries: &mut Vec<ZipEntry>, e: ZipEntry)
    ensures
        entry_models(final(entries)@) == entry_models(old(entries)@).push(e@),
{
    entries.push(e);
    assert(entry_models(entries@) =~= entry_models(old(entries)@).push(e@));
}

fn add_directory(entries: &mut Vec<ZipEntry>, path: &str)
    ensures
        entry_models(final(entries)@) == with_directory(
            entry_models(old(entries)@),
            path.spec_bytes(),
        ),
{
    if !has_directory(entries, path) {
        add_entry(entries, ZipEntry::Directory(text::own(path)));
    }
}

/// Adds the directories of a patch, and returns their path.
fn add_directories(
    entries: &mut Vec<ZipEntry>,
    patch: &ParsingResult,
    fallback_filename: &str,
    segments: &[PathSegment],
) -> (path: String)
    ensures
        ({
            let names = directory_names(patch@, fallback_filename.spec_bytes(), segments@);
            let n = names.len() as int;
            &&& text::bytes_of(path) == directory_path(names, n)
            &&& entry_models(final(entries)@) == with_directories(
                entry_models(old(entries)@),
                names,
                n,
            )
        }),
{
    let ghost names = directory_names(patch@, fallback_filename.spec_bytes(), segments@);
    let ghost had = entry_models(entries@);
    let settings = &patch.user_settings;
    let mut path = text::own("");
    proof {
        reveal_strlit("");
        assert(text::bytes_of(path) =~= Seq::empty());
    }
    let mut i: usize = 0;
    while i < settings.len()
        invariant
            i <= settings@.len(),
            names == directory_names(patch@, fallback_filename.spec_bytes(), segments@),
            patch@.user_settings == types::texts(settings@),
            text::bytes_of(path) == directory_path(names, i as int),
            entry_models(entries@) == with_directories(had, names, i as int),
        decreases settings@.len() - i,
    {
        assert(names[i as int] == text::bytes_of(settings@[i as int]));
        text::append(&mut path, settings[i].as_str());
        text::append(&mut path, "/");
        i += 1;
        add_directory(entries, path.as_str());
    }
    let mut k: usize = 0;
    let ghost base = settings@.len() as int;
    while k < segments.len()
        invariant
            k <= segments@.len(),
            base == patch@.user_settings.len(),
            names == directory_names(patch@, fallback_filename.spec_bytes(), segments@),
            text::bytes_of(path) == directory_path(names, base + k),
            entry_models(entries@) == with_directories(had, names, base + k),
        decreases segments@.len() - k,
    {
        assert(names[base + k] == segment_text(
            segments@[k as int],
            patch@,
            fallback_filename.spec_bytes(),
        ));
        segments[k].format(patch, fallback_filename, &mut path);
        text::append(&mut path, "/");
        k += 1;
        add_directory(entries, path.as_str());
    }
    path
}

/// The choice for a patch.
pub fn choose_format(forced: Option<OutputFormat>, ips_fails: bool, all_ips: bool) -> (r: Choice)
    ensures
        r == choice(forced, ips_fails, all_ips),
{
    let forces_pchtxt = match forced {
        Some(OutputFormat::Pchtxt) => true,
        _ => false,
    };
    if all_ips {
        if forces_pchtxt {
            return Choice::PchtxtPartiallyRequested;
        }
        if ips_fails {
            return Choice::PchtxtRequired;
        }
    }
    match forced {
        Some(OutputFormat::Ips) => if ips_fails {
            Choice::IpsError
        } else {
            Choice::Ips
        },
        Some(OutputFormat::Pchtxt) => Choice::Pchtxt,
        None => if ips_fails {
            Choice::Pchtxt
        } else {
            Choice::Ips
        },
    }
}

fn tell(diags: &mut Vec<ZipGenerateDiagnostic>, d: ZipGenerateDiagnostic)
    ensures
        zip_diagnostics(final(diags)@) == zip_diagnostics(old(diags)@).push(d@),
{
    diags.push(d);
    assert(zip_diagnostics(diags@) =~= zip_diagnostics(old(diags)@).push(d@));
}

/// Adds a patch to an archive.
fn add_patch(
    entries: &mut Vec<ZipEntry>,
    diags: &mut Vec<ZipGenerateDiagnostic>,
    patch: &ParsingResult,
    compiled: &PatchVec,
    fallback_filename: &str,
    segments: &[PathSegment],
    file_name: PathSegment,
    all_ips: bool,
)
    ensures
        (entry_models(final(entries)@), zip_diagnostics(final(diags)@)) == with_patch(
            (entry_models(old(entries)@), zip_diagnostics(old(diags)@)),
            (patch@, compiled@),
            fallback_filename.spec_bytes(),
            segments@,
            file_name,
            all_ips,
        ),
{
    let mut path = add_directories(entries, patch, fallback_filename, segments);
    file_name.format(patch, fallback_filename, &mut path);
    let ips_fails = ips::check_generate_ips(compiled).is_err();
    let cause = IpsGenerateError::HasEofHunk;
    match choose_format(patch.forced_output_format, ips_fails, all_ips) {
        Choice::Ips => {
            if let Ok(content) = ips::generate_ips(compiled) {
                text::append(&mut path, ".ips");
                add_entry(entries, ZipEntry::File { path, content });
            }
        },
        Choice::Pchtxt => {
            let content = pchtxt_writer::generate_pchtxt(compiled, patch.target_build);
            text::append(&mut path, ".pchtxt");
            add_entry(entries, ZipEntry::File { path, content });
        },
        Choice::PchtxtRequired => {
            let settings = types::copy_texts(&patch.user_settings);
            tell(diags, ZipGenerateDiagnostic::PchtxtRequired { settings, cause });
        },
        Choice::PchtxtPartiallyRequested => {
            let settings = types::copy_texts(&patch.user_settings);
            tell(diags, ZipGenerateDiagnostic::PchtxtPartiallyRequested { settings });
        },
        Choice::IpsError => {
            let settings = types::copy_texts(&patch.user_settings);
            tell(diags, ZipGenerateDiagnostic::IpsError { settings, cause });
        },
    }
}

fn all_ask_for_pchtxt(patches: &Vec<(ParsingResult, PatchVec)>) -> (r: bool)
    ensures
        r == all_force_pchtxt(compiled_models(patches@)),
{
    let ghost models = compiled_models(patches@);
    let mut i: usize = 0;
    while i < patches.len()
        invariant
            i <= patches@.len(),
            models == compiled_models(patches@),
            forall|k: int|
                0 <= k < i ==> (#[trigger] models[k]).0.forced_output_format == Some(
                    OutputFormat::Pchtxt,
                ),
        decreases patches@.len() - i,
    {
        assert(models[i as int].0 == patches@[i as int].0@);
        match patches[i].0.forced_output_format {
            Some(OutputFormat::Pchtxt) => {},
            _ => {
                return false;
            },
        }
        i += 1;
    }
    true
}

/// What the archive for some builds and their patches holds.
pub fn generate_zip(
    patches: &Vec<(ParsingResult, PatchVec)>,
    fallback_filename: &str,
    dir_segments: &[PathSegment],
    file_name: PathSegment,
    force_ips_default: bool,
) -> (r: (Vec<ZipEntry>, Vec<ZipGenerateDiagnostic>))
    ensures
        ({
            let ps = compiled_models(patches@);
            (entry_models(r.0@), zip_diagnostics(r.1@)) == zip_of(
                ps,
                fallback_filename.spec_bytes(),
                dir_segments@,
                file_name,
                force_ips_default && !all_force_pchtxt(ps),
                ps.len() as int,
            )
        }),
{
    let ghost ps = compiled_models(patches@);
    let ghost fallback = fallback_filename.spec_bytes();
    let all_ips = force_ips_default && !all_ask_for_pchtxt(patches);
    let mut entries: Vec<ZipEntry> = Vec::new();
    let mut diags: Vec<ZipGenerateDiagnostic> = Vec::new();
    assert(entry_models(entries@) =~= Seq::empty());
    assert(zip_diagnostics(diags@) =~= Seq::empty());
    let mut i: usize = 0;
    while i < patches.len()
        invariant
            i <= patches@.len(),
            ps == compiled_models(patches@),
            fallback == fallback_filename.spec_bytes(),
            all_ips == (force_ips_default && !all_force_pchtxt(ps)),
            zip_of(ps, fallback, dir_segments@, file_name, all_ips, i as int) == (
                entry_models(entries@),
                zip_diagnostics(diags@),
            ),
        decreases patches@.len() - i,
    {
        assert(ps[i as int] == (patches@[i as int].0@, patches@[i as int].1@));
        add_patch(
            &mut entries,
            &mut diags,
            &patches[i].0,
            &patches[i].1,
            fallback_filename,
            dir_segments,
            file_name,
            all_ips,
        );
        i += 1;
    }
    (entries, diags)
}

// ---------------------------------------------------------------------------------------------
// The name of the archive

pub open spec fn name_or(name: Option<Seq<u8>>, other: Seq<u8>) -> Seq<u8> {
    match name {
        Some(name) => name,
        None => other,
    }
}

/// What is said about the names of the first `n` builds.
pub open spec fn name_diagnostics(rs: Seq<ResultModel>, n: int) -> Seq<ZipDiagnosticModel>
    decreases n,
{
    if n <= 1 {
        Seq::empty()
    } else {
        let before = name_diagnostics(rs, n - 1);
        if rs[n - 1].mod_name == rs[0].mod_name {
            before
        } else {
            before.push(
                ZipGenerateDiagnostic::InconsistentModNames {
                    first_name: name_or(rs[0].mod_name, "<unspecified>".spec_bytes()),
                    second_name: name_or(rs[n - 1].mod_name, "<unspecified>".spec_bytes()),
                    second_settings: rs[n - 1].user_settings,
                },
            )
        }
    }
}

/// What is said about the versions of the first `n` builds.
pub open spec fn version_diagnostics(rs: Seq<ResultModel>, n: int) -> Seq<ZipDiagnosticModel>
    decreases n,
{
    if n <= 1 {
        Seq::empty()
    } else {
        let before = version_diagnostics(rs, n - 1);
        if rs[n - 1].mod_version == rs[0].mod_version {
            before
        } else {
            before.push(
                ZipGenerateDiagnostic::InconsistentModVersions {
                    first_version: rs[0].mod_version,
                    second_version: rs[n - 1].mod_version,
                    second_settings: rs[n - 1].user_settings,
                },
            )
        }
    }
}

/// The name of the archive for some builds.
pub open spec fn zip_filename(rs: Seq<ResultModel>, fallback: Seq<u8>, target: Seq<u8>) -> Seq<u8> {
    name_or(rs[0].mod_name, fallback) + "-".spec_bytes() + rs[0].mod_version + "+".spec_bytes()
        + target + ".zip".spec_bytes()
}

fn same_name(a: &Option<String>, b: &Option<String>) -> (r: bool)
    ensures
        r == (types::opt_text(*a) == types::opt_text(*b)),
{
    match (a, b) {
        (None, None) => true,
        (Some(a), Some(b)) => text::bytes_eq(a.as_str().as_bytes(), b.as_str().as_bytes()),
        _ => false,
    }
}

fn shown_name(name: &Option<String>) -> (r: String)
    ensures
        text::bytes_of(r) == name_or(types::opt_text(*name), "<unspecified>".spec_bytes()),
{
    match name {
        Some(name) => name.clone(),
        None => text::own("<unspecified>"),
    }
}

/// The name of the archive for some builds, with what is said where they differ in the name or
/// the version of the mod. Those of the first build count.
pub fn generate_zip_filename(
    from: &Vec<ParsingResult>,
    fallback_filename: &str,
    target: &str,
) -> (r: (String, Vec<ZipGenerateDiagnostic>))
    requires
        from@.len() > 0,
    ensures
        ({
            let rs = types::result_models(from@);
            let n = rs.len() as int;
            &&& text::bytes_of(r.0) == zip_filename(
                rs,
                fallback_filename.spec_bytes(),
                target.spec_bytes(),
            )
            &&& zip_diagnostics(r.1@) == name_diagnostics(rs, n) + version_diagnostics(rs, n)
        }),
{
    let ghost rs = types::result_models(from@);
    let ghost n = rs.len() as int;
    let mut diags: Vec<ZipGenerateDiagnostic> = Vec::new();
    assert(zip_diagnostics(diags@) =~= Seq::empty());
    let first = &from[0];
    assert(rs[0] == first@);
    let mut i: usize = 1;
    while i < from.len()
        invariant
            1 <= i <= from@.len(),
            rs == types::result_models(from@),
            first == from@[0],
            rs[0] == first@,
            zip_diagnostics(diags@) == name_diagnostics(rs, i as int),
        decreases from@.len() - i,
    {
        let other = &from[i];
        assert(rs[i as int] == other@);
        if !same_name(&other.mod_name, &first.mod_name) {
            tell(
                &mut diags,
                ZipGenerateDiagnostic::InconsistentModNames {
                    first_name: shown_name(&first.mod_name),
                    second_name: shown_name(&other.mod_name),
                    second_settings: types::copy_texts(&other.user_settings),
                },
            );
        }
        i += 1;
    }
    let ghost names = name_diagnostics(rs, n);
    assert(names + version_diagnostics(rs, 1) =~= names);
    i = 1;
    while i < from.len()
        invariant
            1 <= i <= from@.len(),
            rs == types::result_models(from@),
            first == from@[0],
            rs[0] == first@,
            zip_diagnostics(diags@) == names + version_diagnostics(rs, i as int),
        decreases from@.len() - i,
    {
        let other = &from[i];
        let ghost said = zip_diagnostics(diags@);
        assert(rs[i as int] == other@);
        if !text::bytes_eq(
            other.mod_version.as_str().as_bytes(),
            first.mod_version.as_str().as_bytes(),
        ) {
            tell(
                &mut diags,
                ZipGenerateDiagnostic::InconsistentModVersions {
                    first_version: first.mod_version.clone(),
                    second_version: other.mod_version.clone(),
                    second_settings: types::copy_texts(&other.user_settings),
                },
            );
        }
        i += 1;
        assert(zip_diagnostics(diags@) =~= names + version_diagnostics(rs, i as int));
    }
    let mut name = match &first.mod_name {
        Some(name) => name.clone(),
        None => text::own(fallback_filename),
    };
    text::append(&mut name, "-");
    text::append(&mut name, first.mod_version.as_str());
    text::append(&mut name, "+");
    text::append(&mut name, target);
    text::append(&mut name, ".zip");
    (name, diags)
}

} // verus!
