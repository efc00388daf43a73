//! From a source text to what is shown of it.

use vstd::prelude::*;
use vstd::string::StringExecFns;

use crate::code::{CodeIter, Cursor, Source};
use crate::error::{all_fit, error_views, render, rendered_report, ParseError};
use crate::fits_stmt::{lemma_file_fits, lemma_file_printable};
use crate::parse::reported;
use crate::parse_stmt::parse_file;
use crate::stmt::MexFile;
use crate::syntax::file;
use crate::text::{byte_len, has_char};

verus! {

/// The start of a text.
pub open spec fn start_of(text: Seq<char>) -> Cursor {
    Cursor { text, at: 0 }
}

/// Reads a whole source, and gives what was wrong with it.
pub fn parse_source<'a>(source: &'a Source) -> (r: (MexFile<'a>, Vec<ParseError>))
    requires
        byte_len(source.code@) <= u32::MAX,
    ensures
        r.0@ == file(start_of(source.code@)).value,
        error_views(r.1@) == file(start_of(source.code@)).errors,
        r.0@.printable(),
        r.0@.fits(source.code@),
        all_fit(error_views(r.1@), source.code@),
{
    let mut errors: Vec<ParseError> = Vec::new();
    let mut code_iter = CodeIter::new(source);
    let ghost c = start_of(source.code@);
    let file_ast = parse_file(&mut code_iter, &mut errors);
    proof {
        reveal(reported);
        let none: Seq<ParseError> = seq![];
        assert(error_views(none) + file(c).errors =~= file(c).errors);
        lemma_file_fits(c);
        lemma_file_printable(file(c).value, c.text);
    }
    (file_ast, errors)
}

/// What is shown of a source.
pub struct Outcome {
    /// The file as it was understood.
    pub ast: String,
    /// The report on the errors, if there are any.
    pub report: Option<String>,
}

/// The reason for which a source is not read at all.
pub open spec fn null_message(path: Seq<char>) -> Seq<char> {
    "Null bytes are not supported (file: "@ + path + ")"@
}

/// Reads a source, and gives what is to be shown of it. A source that holds a null
/// character is not read.
pub fn examine(source: &Source) -> (r: Result<Outcome, String>)
    requires
        source.code@.contains('\0') || byte_len(source.code@) <= u32::MAX,
    ensures
        r is Err <==> source.code@.contains('\0'),
        match r {
            Err(message) => message@ == null_message(source.path@),
            Ok(outcome) => {
                let p = file(start_of(source.code@));
                &&& outcome.ast@ == p.value.text()
                &&& match outcome.report {
                    None => p.errors.len() == 0,
                    Some(report) => p.errors.len() > 0 && exists|windows: bool|
                        report@ == rendered_report(
                            windows,
                            source.path@,
                            source.code@,
                            p.errors,
                        ),
                }
            },
        },
{
    if has_char(source.code.as_str(), '\0') {
        let mut message = "Null bytes are not supported (file: ".to_owned();
        message.append(source.path.as_str());
        message.append(")");
        return Err(message);
    }
    let (file_ast, errors) = parse_source(source);
    let mut ast = String::new();
    file_ast.fmt(&mut ast);
    proof {
        let none: Seq<char> = seq![];
        assert(none + file_ast@.text() =~= file_ast@.text());
    }
    let report = if errors.len() == 0 {
        None
    } else {
        Some(render(source, errors))
    };
    Ok(Outcome { ast, report })
}

} // verus!
