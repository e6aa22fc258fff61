//! The options that a patch source sets.

use crate::closest;
use crate::json;
use crate::json::{Json5Error, Member, MemberModel};
use crate::preprocessor::macros::{MacroDefine, MacroModel};
use crate::text;
use vstd::prelude::*;
use vstd::string::*;

verus! {

/// The identifier of the build that a patch is for.
pub type BuildId = u128;

#[derive(Debug, PartialEq, Eq)]
pub enum NxpchOption {
    TargetBuild(TargetBuildOption),
    TargetBuilds(TargetBuildsOption),
    PointerOffset(PointerOffsetOption),
    UserSettings(UserSettingsOption),
    OutputFormat(OutputFormatOption),
    ModName(ModNameOption),
    ModVersion(ModVersionOption),
}

/// The build that the patches are for.
#[derive(Debug, PartialEq, Eq)]
pub struct TargetBuildOption(pub BuildId);

/// The builds that the patches are for, each with macros of its own.
#[derive(Debug, PartialEq, Eq)]
pub struct TargetBuildsOption(pub Vec<TargetBuildMatrixEntry>);

#[derive(Debug, PartialEq, Eq)]
pub struct TargetBuildMatrixEntry {
    pub id: BuildId,
    pub defines: Vec<MacroDefine>,
}

#[derive(Debug, PartialEq, Eq)]
pub struct PointerOffsetOption(pub i32);

/// The settings that a user can choose from. Settings of one layer exclude each other.
#[derive(Debug, PartialEq, Eq)]
pub struct UserSettingsOption(pub Vec<UserSetting>);

#[derive(Debug, PartialEq, Eq)]
pub struct UserSetting {
    pub layer: u8,
    pub name: String,
    pub defines: Vec<MacroDefine>,
}

#[derive(Debug, PartialEq, Eq)]
pub struct OutputFormatOption(pub OutputFormat);

#[derive(Clone, Copy, Debug, PartialEq, Eq, Structural)]
pub enum OutputFormat {
    Ips,
    Pchtxt,
}

/// The name of the mod.
#[derive(Debug, PartialEq, Eq)]
pub struct ModNameOption(pub String);

/// The version of the mod.
#[derive(Debug, PartialEq, Eq)]
pub struct ModVersionOption(pub String);

/// Why an option is not set: its value is wrong, or there is no such option.
#[derive(Debug, PartialEq, Eq)]
pub enum OptionParseError<Text = String> {
    InvalidOption(Json5Error<Text>),
    UnknownOption { closest: &'static str },
}

// ---------------------------------------------------------------------------------------------
// Model

/// A build with its macros.
#[verifier::ext_equal]
pub struct EntryModel {
    pub id: BuildId,
    pub defines: Seq<MacroModel>,
}

/// A setting with its macros.
#[verifier::ext_equal]
pub struct SettingModel {
    pub layer: u8,
    pub name: Seq<u8>,
    pub defines: Seq<MacroModel>,
}

#[verifier::ext_equal]
pub enum OptionModel {
    TargetBuild(BuildId),
    TargetBuilds(Seq<EntryModel>),
    PointerOffset(i32),
    UserSettings(Seq<SettingModel>),
    OutputFormat(OutputFormat),
    ModName(Seq<u8>),
    ModVersion(Seq<u8>),
}

/// The macros of a list.
pub open spec fn macro_models(v: Seq<MacroDefine>) -> Seq<MacroModel> {
    Seq::new(v.len(), |i: int| v[i]@)
}

impl View for TargetBuildMatrixEntry {
    type V = EntryModel;

    open spec fn view(&self) -> EntryModel {
        EntryModel { id: self.id, defines: macro_models(self.defines@) }
    }
}

impl View for UserSetting {
    type V = SettingModel;

    open spec fn view(&self) -> SettingModel {
        SettingModel {
            layer: self.layer,
            name: text::bytes_of(self.name),
            defines: macro_models(self.defines@),
        }
    }
}

pub open spec fn entry_models(v: Seq<TargetBuildMatrixEntry>) -> Seq<EntryModel> {
    Seq::new(v.len(), |i: int| v[i]@)
}

pub open spec fn setting_models(v: Seq<UserSetting>) -> Seq<SettingModel> {
    Seq::new(v.len(), |i: int| v[i]@)
}

impl View for NxpchOption {
    type V = OptionModel;

    open spec fn view(&self) -> OptionModel {
        match *self {
            NxpchOption::TargetBuild(o) => OptionModel::TargetBuild(o.0),
            NxpchOption::TargetBuilds(o) => OptionModel::TargetBuilds(entry_models(o.0@)),
            NxpchOption::PointerOffset(o) => OptionModel::PointerOffset(o.0),
            NxpchOption::UserSettings(o) => OptionModel::UserSettings(setting_models(o.0@)),
            NxpchOption::OutputFormat(o) => OptionModel::OutputFormat(o.0),
            NxpchOption::ModName(o) => OptionModel::ModName(text::bytes_of(o.0)),
            NxpchOption::ModVersion(o) => OptionModel::ModVersion(text::bytes_of(o.0)),
        }
    }
}

impl View for OptionParseError<String> {
    type V = OptionParseError<Seq<u8>>;

    open spec fn view(&self) -> OptionParseError<Seq<u8>> {
        match *self {
            OptionParseError::InvalidOption(e) => OptionParseError::InvalidOption(e@),
            OptionParseError::UnknownOption { closest } => OptionParseError::UnknownOption {
                closest,
            },
        }
    }
}

/// The kinds of option, in the order in which a misspelt name is held against them.
#[derive(Clone, Copy, Debug, PartialEq, Eq, Structural)]
pub enum OptionKind {
    TargetBuild,
    TargetBuilds,
    PointerOffset,
    UserSettings,
    OutputFormat,
    ModName,
    ModVersion,
}

/// The kind of option with a name.
pub open spec fn kind_named(name: Seq<u8>) -> Option<OptionKind> {
    if name == "target_build".spec_bytes() {
        Some(OptionKind::TargetBuild)
    } else if name == "target_builds".spec_bytes() {
        Some(OptionKind::TargetBuilds)
    } else if name == "pointer_offset".spec_bytes() {
        Some(OptionKind::PointerOffset)
    } else if name == "user_settings".spec_bytes() {
        Some(OptionKind::UserSettings)
    } else if name == "output_format".spec_bytes() {
        Some(OptionKind::OutputFormat)
    } else if name == "mod_name".spec_bytes() {
        Some(OptionKind::ModName)
    } else if name == "mod_version".spec_bytes() {
        Some(OptionKind::ModVersion)
    } else {
        None
    }
}

/// The kind of an option.
pub open spec fn kind_of(o: OptionModel) -> OptionKind {
    match o {
        OptionModel::TargetBuild(_) => OptionKind::TargetBuild,
        OptionModel::TargetBuilds(_) => OptionKind::TargetBuilds,
        OptionModel::PointerOffset(_) => OptionKind::PointerOffset,
        OptionModel::UserSettings(_) => OptionKind::UserSettings,
        OptionModel::OutputFormat(_) => OptionKind::OutputFormat,
        OptionModel::ModName(_) => OptionKind::ModName,
        OptionModel::ModVersion(_) => OptionKind::ModVersion,
    }
}

/// What was read as the value of the option with a name is of the kind of that option. What was
/// read for a name that no option has does not count.
pub open spec fn fits_name(name: Seq<u8>, value: Result<OptionModel, Json5Error<Seq<u8>>>) -> bool {
    match (kind_named(name), value) {
        (Some(k), Ok(o)) => kind_of(o) == k,
        _ => true,
    }
}

/// The names of the options.
pub open spec fn option_names() -> Seq<&'static str> {
    seq![
        "target_build",
        "target_builds",
        "pointer_offset",
        "user_settings",
        "output_format",
        "mod_name",
        "mod_version",
    ]
}

/// The option made from what was read as its value.
pub open spec fn option_of(
    name: Seq<u8>,
    value: Result<OptionModel, Json5Error<Seq<u8>>>,
) -> Result<OptionModel, OptionParseError<Seq<u8>>> {
    if kind_named(name) is None {
        Err(
            OptionParseError::UnknownOption {
                closest: option_names()[closest::closest_index(option_names(), name)],
            },
        )
    } else {
        match value {
            Ok(o) => Ok(o),
            Err(e) => Err(OptionParseError::InvalidOption(e)),
        }
    }
}

/// The kind of option with a name.
pub fn option_kind(name: &str) -> (r: Option<OptionKind>)
    ensures
        r == kind_named(name.spec_bytes()),
{
    let b = name.as_bytes();
    if text::bytes_eq(b, "target_build".as_bytes()) {
        Some(OptionKind::TargetBuild)
    } else if text::bytes_eq(b, "target_builds".as_bytes()) {
        Some(OptionKind::TargetBuilds)
    } else if text::bytes_eq(b, "pointer_offset".as_bytes()) {
        Some(OptionKind::PointerOffset)
    } else if text::bytes_eq(b, "user_settings".as_bytes()) {
        Some(OptionKind::UserSettings)
    } else if text::bytes_eq(b, "output_format".as_bytes()) {
        Some(OptionKind::OutputFormat)
    } else if text::bytes_eq(b, "mod_name".as_bytes()) {
        Some(OptionKind::ModName)
    } else if text::bytes_eq(b, "mod_version".as_bytes()) {
        Some(OptionKind::ModVersion)
    } else {
        None
    }
}

/// What was read as the value of an option, by its content.
pub open spec fn value_view(r: Result<NxpchOption, Json5Error>) -> Result<
    OptionModel,
    Json5Error<Seq<u8>>,
> {
    match r {
        Ok(o) => Ok(o@),
        Err(e) => Err(e@),
    }
}

/// Whether what was read as the value of the option with a name is of the kind of that option.
pub fn value_fits(option_name: &str, value: &Result<NxpchOption, Json5Error>) -> (r: bool)
    ensures
        r == fits_name(option_name.spec_bytes(), value_view(*value)),
{
    match (option_kind(option_name), value) {
        (Some(kind), Ok(o)) => o.kind() == kind,
        _ => true,
    }
}

impl NxpchOption {
    /// The kind of the option.
    pub fn kind(&self) -> (r: OptionKind)
        ensures
            r == kind_of(self@),
    {
        match self {
            NxpchOption::TargetBuild(_) => OptionKind::TargetBuild,
            NxpchOption::TargetBuilds(_) => OptionKind::TargetBuilds,
            NxpchOption::PointerOffset(_) => OptionKind::PointerOffset,
            NxpchOption::UserSettings(_) => OptionKind::UserSettings,
            NxpchOption::OutputFormat(_) => OptionKind::OutputFormat,
            NxpchOption::ModName(_) => OptionKind::ModName,
            NxpchOption::ModVersion(_) => OptionKind::ModVersion,
        }
    }

    /// The option with a name, given what was read as its value, which has to be of the kind of
    /// the option.
    pub fn parse(option_name: &str, value: Result<NxpchOption, Json5Error>) -> (r: Result<
        Self,
        OptionParseError,
    >)
        requires
            fits_name(option_name.spec_bytes(), value_view(value)),
        ensures
            r matches Ok(x) ==> kind_named(option_name.spec_bytes()) == Some(kind_of(x@)),
            ({
                let o = option_of(option_name.spec_bytes(), value_view(value));
                &&& r matches Ok(x) ==> o == Ok::<OptionModel, OptionParseError<Seq<u8>>>(x@)
                &&& r matches Err(e) ==> o == Err::<OptionModel, OptionParseError<Seq<u8>>>(e@)
            }),
    {
        if option_kind(option_name).is_none() {
            let names: [&'static str; 7] = [
                "target_build",
                "target_builds",
                "pointer_offset",
                "user_settings",
                "output_format",
                "mod_name",
                "mod_version",
            ];
            assert(names@ =~= option_names());
            let closest = closest::closest_key(option_name, &names);
            return Err(OptionParseError::UnknownOption { closest });
        }
        match value {
            Ok(o) => Ok(o),
            Err(e) => Err(OptionParseError::InvalidOption(e)),
        }
    }
}

// ---------------------------------------------------------------------------------------------
// Places of the macros in option values

/// The offset in the source of the text of a string that stands at a line and a column of `json`,
/// both counted from 1, where `json` stands at `start`.
pub open spec fn string_offset(json: Seq<u8>, start: usize, at: (usize, usize)) -> usize {
    let to = (
        if at.0 > 0 {
            (at.0 - 1) as usize
        } else {
            0
        },
        if at.1 > 0 {
            (at.1 - 1) as usize
        } else {
            0
        },
    );
    start.wrapping_add(json::location(json, 0, 0, 0, to) as usize).wrapping_add(1)
}

/// A macro moved by an offset.
pub open spec fn moved(m: MacroModel, by: usize) -> MacroModel {
    MacroModel {
        declaration_range: (m.declaration_range.0.wrapping_add(by), m.declaration_range.1),
        expansion_offset: m.expansion_offset.wrapping_add(by),
        ..m
    }
}

/// The macros of a list, each moved to the place of its string, where that is known.
pub open spec fn placed(
    defines: Seq<MacroModel>,
    member: MemberModel,
    json: Seq<u8>,
    start: usize,
) -> Seq<MacroModel> {
    match member {
        Member::List(places) => Seq::new(
            defines.len(),
            |j: int|
                if j < places.len() {
                    match places[j] {
                        Some(Some(at)) => moved(defines[j], string_offset(json, start, at)),
                        _ => defines[j],
                    }
                } else {
                    defines[j]
                },
        ),
        _ => defines,
    }
}

/// The member is a list with a string for each of the macros that it reaches, or is missing.
pub open spec fn member_matches(
    count: int,
    member: MemberModel,
) -> bool {
    match member {
        Member::Missing => true,
        Member::List(places) => forall|j: int|
            0 <= j < count && j < places.len() ==> (#[trigger] places[j]) is Some,
        _ => false,
    }
}

/// The numbers of macros in the entries of an option that has any.
pub open spec fn define_counts(o: OptionModel) -> Option<Seq<int>> {
    match o {
        OptionModel::TargetBuilds(es) => Some(
            Seq::new(es.len(), |i: int| es[i].defines.len() as int),
        ),
        OptionModel::UserSettings(es) => Some(
            Seq::new(es.len(), |i: int| es[i].defines.len() as int),
        ),
        _ => None,
    }
}

/// The value has the shape that the option was read from.
pub open spec fn value_matches(
    o: OptionModel,
    members: Option<Seq<MemberModel>>,
) -> bool {
    match define_counts(o) {
        None => true,
        Some(counts) => members is Some && forall|i: int|
            0 <= i < counts.len() && i < (members->0).len() ==> member_matches(
                counts[i],
                #[trigger] (members->0)[i],
            ),
    }
}

/// The option with its macros moved to their places in the source.
pub open spec fn option_placed(
    o: OptionModel,
    members: Option<Seq<MemberModel>>,
    json: Seq<u8>,
    start: usize,
) -> OptionModel {
    match o {
        OptionModel::TargetBuilds(es) => OptionModel::TargetBuilds(
            Seq::new(
                es.len(),
                |i: int|
                    if i < (members->0).len() {
                        EntryModel {
                            defines: placed(es[i].defines, (members->0)[i], json, start),
                            ..es[i]
                        }
                    } else {
                        es[i]
                    },
            ),
        ),
        OptionModel::UserSettings(es) => OptionModel::UserSettings(
            Seq::new(
                es.len(),
                |i: int|
                    if i < (members->0).len() {
                        SettingModel {
                            defines: placed(es[i].defines, (members->0)[i], json, start),
                            ..es[i]
                        }
                    } else {
                        es[i]
                    },
            ),
        ),
        _ => o,
    }
}

/// The name of the member that holds the macros of an entry.
pub open spec fn defines_key() -> Seq<u8> {
    "defines".spec_bytes()
}

/// What the value of an option says about the places of its macros.
pub open spec fn value_members(o: OptionModel, json: Seq<u8>) -> Option<
    Seq<MemberModel>,
> {
    if define_counts(o) is Some {
        json::json5_members(json, defines_key())
    } else {
        None
    }
}

fn offset_of_string(json: &str, start: usize, at: (usize, usize)) -> (r: usize)
    ensures
        r == string_offset(json.spec_bytes(), start, at),
{
    let to = (
        if at.0 > 0 { at.0 - 1 } else { 0 },
        if at.1 > 0 { at.1 - 1 } else { 0 },
    );
    start.wrapping_add(json::find_location(json.as_bytes(), to)).wrapping_add(1)
}

fn place_defines(
    defines: &mut Vec<MacroDefine>,
    member: &Member,
    json: &str,
    start: usize,
) -> (r: bool)
    ensures
        r == member_matches(old(defines)@.len() as int, member@),
        r ==> macro_models(final(defines)@) == placed(
            macro_models(old(defines)@),
            member@,
            json.spec_bytes(),
            start,
        ),
        final(defines)@.len() == old(defines)@.len(),
{
    let places = match member {
        Member::Missing => {
            return true;
        },
        Member::List(places) => places,
        _ => {
            return false;
        },
    };
    let ghost before = macro_models(defines@);
    let ghost b = json.spec_bytes();
    let mut j: usize = 0;
    while j < defines.len() && j < places.len()
        invariant
            j <= defines@.len(),
            j <= places@.len(),
            defines@.len() == old(defines)@.len(),
            before == macro_models(old(defines)@),
            b == json.spec_bytes(),
            member@ == MemberModel::List(places@),
            forall|k: int| 0 <= k < j ==> (#[trigger] places@[k]) is Some,
            forall|k: int|
                0 <= k < j ==> (#[trigger] defines@[k])@ == placed(
                    before,
                    Member::List(places@),
                    b,
                    start,
                )[k],
            forall|k: int| j <= k < defines@.len() ==> (#[trigger] defines@[k])@ == before[k],
        decreases defines@.len() - j,
    {
        let at = match places[j] {
            None => {
                assert(!(places@[j as int] is Some));
                return false;
            },
            Some(at) => at,
        };
        if let Some(at) = at {
            let by = offset_of_string(json, start, at);
            let mut define = defines[j].clone();
            define.declaration_range = (
                define.declaration_range.0.wrapping_add(by),
                define.declaration_range.1,
            );
            define.expansion_offset = define.expansion_offset.wrapping_add(by);
            assert(define@ =~= moved(before[j as int], by));
            defines[j] = define;
        }
        j += 1;
    }
    assert(macro_models(defines@) =~= placed(before, member@, b, start));
    true
}

impl NxpchOption {
    /// Moves the macros of an option to their places in the source, given the places of the
    /// strings in its value. `false` when the value does not have the shape that the option was
    /// read from.
    pub fn place(&mut self, members: Option<Vec<Member>>, json: &str, start_offset: usize) -> (r:
        bool)
        ensures
            r == value_matches(old(self)@, json::members_view(members)),
            r ==> final(self)@ == option_placed(
                old(self)@,
                json::members_view(members),
                json.spec_bytes(),
                start_offset,
            ),
    {
        let ghost model = self@;
        let ghost places = json::members_view(members);
        let ghost b = json.spec_bytes();
        match self {
            NxpchOption::TargetBuilds(entries) => {
                let list = match members {
                    None => {
                        return false;
                    },
                    Some(list) => list,
                };
                let ghost before = entry_models(entries.0@);
                let ghost after = option_placed(model, places, b, start_offset);
                let mut i: usize = 0;
                while i < entries.0.len() && i < list.len()
                    invariant
                        i <= entries.0@.len(),
                        i <= list@.len(),
                        b == json.spec_bytes(),
                        entries.0@.len() == before.len(),
                        model == OptionModel::TargetBuilds(before),
                        model == old(self)@,
                        places == json::members_view(members),
                        places == Some(json::member_models(list@)),
                        after == option_placed(model, places, b, start_offset),
                        forall|k: int|
                            0 <= k < i ==> member_matches(
                                before[k].defines.len() as int,
                                #[trigger] (places->0)[k],
                            ),
                        forall|k: int|
                            0 <= k < i ==> (#[trigger] entries.0@[k])@ == after->TargetBuilds_0[k],
                        forall|k: int|
                            i <= k < entries.0@.len() ==> (#[trigger] entries.0@[k])@ == before[k],
                    decreases entries.0@.len() - i,
                {
                    let mut defines = Vec::new();
                    std::mem::swap(&mut entries.0[i].defines, &mut defines);
                    let ok = place_defines(&mut defines, &list[i], json, start_offset);
                    entries.0[i].defines = defines;
                    if !ok {
                        assert(!member_matches(
                            define_counts(model)->0[i as int],
                            (places->0)[i as int],
                        ));
                        return false;
                    }
                    assert(entries.0@[i as int]@ =~= after->TargetBuilds_0[i as int]);
                    i += 1;
                }
                assert(entry_models(entries.0@) =~= after->TargetBuilds_0);
                true
            },
            NxpchOption::UserSettings(settings) => {
                let list = match members {
                    None => {
                        return false;
                    },
                    Some(list) => list,
                };
                let ghost before = setting_models(settings.0@);
                let ghost after = option_placed(model, places, b, start_offset);
                let mut i: usize = 0;
                while i < settings.0.len() && i < list.len()
                    invariant
                        i <= settings.0@.len(),
                        i <= list@.len(),
                        b == json.spec_bytes(),
                        settings.0@.len() == before.len(),
                        model == OptionModel::UserSettings(before),
                        model == old(self)@,
                        places == json::members_view(members),
                        places == Some(json::member_models(list@)),
                        after == option_placed(model, places, b, start_offset),
                        forall|k: int|
                            0 <= k < i ==> member_matches(
                                before[k].defines.len() as int,
                                #[trigger] (places->0)[k],
                            ),
                        forall|k: int|
                            0 <= k < i ==> (#[trigger] settings.0@[k])@ == after->UserSettings_0[k],
                        forall|k: int|
                            i <= k < settings.0@.len() ==> (#[trigger] settings.0@[k])@
                                == before[k],
                    decreases settings.0@.len() - i,
                {
                    let mut defines = Vec::new();
                    std::mem::swap(&mut settings.0[i].defines, &mut defines);
                    let ok = place_defines(&mut defines, &list[i], json, start_offset);
                    settings.0[i].defines = defines;
                    if !ok {
                        assert(!member_matches(
                            define_counts(model)->0[i as int],
                            (places->0)[i as int],
                        ));
                        return false;
                    }
                    assert(settings.0@[i as int]@ =~= after->UserSettings_0[i as int]);
                    i += 1;
                }
                assert(setting_models(settings.0@) =~= after->UserSettings_0);
                true
            },
            _ => true,
        }
    }

    /// Moves the macros of an option to their places in the source. `json` is the value that the
    /// option was read from, and stands at `start_offset`. `false` when it does not have the
    /// shape of such a value.
    pub fn update_offsets(&mut self, json: &str, start_offset: usize) -> (r: bool)
        ensures
            r == value_matches(
                old(self)@,
                value_members(old(self)@, json.spec_bytes()),
            ),
            r ==> final(self)@ == option_placed(
                old(self)@,
                value_members(old(self)@, json.spec_bytes()),
                json.spec_bytes(),
                start_offset,
            ),
    {
        let has_defines = match self {
            NxpchOption::TargetBuilds(_) | NxpchOption::UserSettings(_) => true,
            _ => false,
        };
        let members = if has_defines {
            json::find_members(json, "defines")
        } else {
            None
        };
        self.place(members, json, start_offset)
    }
}

} // verus!
