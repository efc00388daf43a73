//! A parser for mex files, which describe how things are built.
//!
//! `code` reads a source text, `grammar` and `syntax` say what stands in one, `parse` and
//! `parse_stmt` read it, and `error` reports what is wrong with it. `ast` and `stmt` hold
//! what was read, and write it out. `list` splits lists of words. `run` leads from a
//! source to what is shown of it.
//!
//! What holds of all this is stated in `laws`, from `progress`, `fits`, `fits_stmt` and
//! `sound`, and in the modules beside it: `laws_text` speaks of numbers, ranges, names and
//! lines, `laws_sign` and `laws_call` of the signs in texts and of function calls,
//! `laws_list` of lists of words, `laws_stmt` and `laws_pad` of statements and the white
//! space in them, and `laws_error` and `laws_report` of errors. `plain`, `plain_stmt`,
//! `plain_file` and `plain_write` spell files out character by character, and show that
//! each is read as what it says and written as it was read.

pub mod ast;
pub mod code;
pub mod error;
pub mod fits;
pub mod fits_stmt;
pub mod grammar;
pub mod laws;
pub mod laws_call;
pub mod laws_error;
pub mod laws_list;
pub mod laws_pad;
pub mod laws_report;
pub mod laws_sign;
pub mod laws_stmt;
pub mod laws_text;
pub mod list;
pub mod parse;
pub mod parse_stmt;
pub mod plain;
pub mod plain_file;
pub mod plain_stmt;
pub mod plain_write;
pub mod progress;
pub mod run;
pub mod sound;
pub mod stmt;
pub mod syntax;
pub mod text;
