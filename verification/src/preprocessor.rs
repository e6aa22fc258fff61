pub mod directive;
pub mod directive_laws;
pub mod directive_words;
pub mod exec_laws;
pub mod expansion_laws;
pub mod expr;
pub mod expr_laws;
pub mod macro_laws;
pub mod macros;
pub mod operator_laws;
pub mod state;
pub mod table;
pub mod token;

pub use crate::preprocessor::directive::{
    PreprocessorDiagnostic, PreprocessorDirective, PreprocessorDirectiveInstruction,
};
pub use crate::preprocessor::macros::{MacroDefine, MacroDiagnostic};
pub use crate::preprocessor::state::PreprocessorState;
pub use crate::preprocessor::table::MacroTable;
