//! What a patch source says: the code of each of the builds that it makes.

pub mod address;
pub mod code;
pub mod laws;
pub mod run;
pub mod state;
pub mod step_laws;
mod sub_state;
pub mod types;

pub use address::CodeAddress;
pub use run::parse_statements;
pub use types::{
    BuildTarget, FloatReading, ForcedBuildOption, Halt, ParseDiagnostic, ParsedCode,
    ParsedCodeInstruction, ParsingResult, SettingsVec,
};
