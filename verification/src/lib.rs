//! Patches for the programs of a game console: reading their sources, and writing the files that
//! loaders take.
//!
//! A source is split into statements (`pre_parse`), the statements are read for each of the builds
//! that they make (`parse`), the code of a build becomes a patch (`assemble`), and patches are
//! written to files (`output`) or laid out in an archive (`zip_gen`). `pchtxt` reads patch text
//! files.

pub mod as_num;
pub mod as_num_laws;
pub mod assemble;
pub mod closest;
pub mod data_laws;
pub mod distribution;
pub mod ips;
pub mod ips_laws;
pub mod json;
pub mod numbers;
pub mod option;
pub mod output;
pub mod parse;
pub mod patches;
pub mod pchtxt;
pub mod pchtxt_blocks;
pub mod pchtxt_laws;
pub mod pchtxt_lines;
pub mod pchtxt_nxpch;
pub mod pchtxt_plain;
pub mod pchtxt_words;
pub mod pchtxt_writer;
pub mod piece_laws;
pub mod place_laws;
pub mod pre_parse;
pub mod preprocessor;
pub mod rewrite_laws;
pub mod source_laws;
pub mod text;
pub mod text_laws;
pub mod utils;
pub mod writer_laws;
pub mod zip_gen;
pub mod zip_laws;
