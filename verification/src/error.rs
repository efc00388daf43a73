//! What is wrong with a source text, and how it is shown.

use annotate_snippets::level::{ERROR, HELP, INFO};
use annotate_snippets::renderer::DecorStyle;
use annotate_snippets::AnnotationKind::{Context as Aside, Primary as Main};
use annotate_snippets::{Patch as Edit, Renderer, Snippet};
use vstd::prelude::*;
use vstd::string::StringExecFns;

use self::AnnotationKind::{Context, Primary};
use crate::code::{Source, SpanView, Spanned};
use crate::text::offset_of;

verus! {

/// What an annotation is to the error that it belongs to.
#[derive(Clone, Copy, Debug, PartialEq, Eq, Structural)]
pub enum AnnotationKind {
    /// The place of the error.
    Primary,
    /// A place that helps to understand the error.
    Context,
}

/// A remark on a range of the source text.
#[derive(Debug)]
pub struct Annotation {
    pub kind: AnnotationKind,
    pub range: std::ops::Range<usize>,
    pub label: &'static str,
}

/// An edit of the source text: `replacement` in the place of a range.
#[derive(Debug)]
pub struct Patch {
    pub range: std::ops::Range<usize>,
    pub replacement: &'static str,
}

/// An error in a source text.
#[derive(Debug)]
pub struct ParseError {
    pub title: String,
    pub marks: Vec<Annotation>,
    /// An explanation.
    pub info: Option<&'static str>,
    /// Advice.
    pub help: Option<&'static str>,
    /// Edits that mend the text.
    pub edits: Option<Vec<Patch>>,
}

pub struct AnnotationView {
    pub kind: AnnotationKind,
    pub span: SpanView,
    pub label: Seq<char>,
}

pub struct PatchView {
    pub span: SpanView,
    pub replacement: Seq<char>,
}

pub struct ErrorView {
    pub title: Seq<char>,
    pub marks: Seq<AnnotationView>,
    pub info: Option<Seq<char>>,
    pub help: Option<Seq<char>>,
    pub edits: Option<Seq<PatchView>>,
}

pub open spec fn range_view(r: std::ops::Range<usize>) -> SpanView {
    SpanView { start: r.start as nat, end: r.end as nat }
}

impl Annotation {
    pub open spec fn view(&self) -> AnnotationView {
        AnnotationView { kind: self.kind, span: range_view(self.range), label: self.label@ }
    }
}

impl Patch {
    pub open spec fn view(&self) -> PatchView {
        PatchView { span: range_view(self.range), replacement: self.replacement@ }
    }
}

pub open spec fn annotation_views(marks: Seq<Annotation>) -> Seq<AnnotationView> {
    marks.map_values(|a: Annotation| a.view())
}

pub open spec fn patch_views(edits: Seq<Patch>) -> Seq<PatchView> {
    edits.map_values(|p: Patch| p.view())
}

pub open spec fn text_view(text: Option<&'static str>) -> Option<Seq<char>> {
    match text {
        Some(text) => Some(text@),
        None => None,
    }
}

impl ParseError {
    pub open spec fn view(&self) -> ErrorView {
        ErrorView {
            title: self.title@,
            marks: annotation_views(self.marks@),
            info: text_view(self.info),
            help: text_view(self.help),
            edits: match self.edits {
                Some(edits) => Some(patch_views(edits@)),
                None => None,
            },
        }
    }
}

/// What a list of errors holds.
pub open spec fn error_views(errors: Seq<ParseError>) -> Seq<ErrorView> {
    errors.map_values(|e: ParseError| e.view())
}

/// `span` is a range of whole characters of `text`.
pub open spec fn covers(text: Seq<char>, span: SpanView) -> bool {
    exists|i: int, j: int|
        0 <= i <= j <= text.len() && span == (SpanView {
            start: #[trigger] offset_of(text, i),
            end: #[trigger] offset_of(text, j),
        })
}

/// `span` is the range of a single quote in `text`.
pub open spec fn quote_at(text: Seq<char>, span: SpanView) -> bool {
    exists|i: int|
        0 <= i < text.len() && #[trigger] text[i] == '\'' && span == (SpanView {
            start: offset_of(text, i),
            end: offset_of(text, i + 1),
        })
}

impl PatchView {
    /// The edit adds to `text`, and takes nothing from it.
    pub open spec fn inserts(self, text: Seq<char>) -> bool {
        covers(text, self.span) && self.span.start == self.span.end
    }

    /// The edit makes a single quote of `text` a double one.
    pub open spec fn requotes(self, text: Seq<char>) -> bool {
        quote_at(text, self.span) && self.replacement == "\""@
    }
}

/// The edits are one that adds to `text`, or two that mend the quotes around a value.
pub open spec fn edits_fit(edits: Seq<PatchView>, text: Seq<char>) -> bool {
    ||| edits.len() == 1 && edits[0].inserts(text)
    ||| {
        &&& edits.len() == 2
        &&& edits[0].requotes(text)
        &&& edits[1].requotes(text) || edits[1].inserts(text)
        &&& edits[0].span.end <= edits[1].span.start
    }
}

impl ErrorView {
    /// Everything that the error points at lies in `text`.
    pub open spec fn fits(self, text: Seq<char>) -> bool {
        &&& forall|k: int|
            0 <= k < self.marks.len() ==> covers(text, (#[trigger] self.marks[k]).span)
        &&& self.edits is Some ==> edits_fit(self.edits->0, text)
    }
}

/// Everything that the errors point at lies in `text`.
#[verifier::opaque]
pub open spec fn all_fit(errors: Seq<ErrorView>, text: Seq<char>) -> bool {
    forall|k: int| 0 <= k < errors.len() ==> (#[trigger] errors[k]).fits(text)
}

/// The remark that points at the place of an error.
pub open spec fn primary(span: SpanView, label: Seq<char>) -> AnnotationView {
    AnnotationView { kind: Primary, span, label }
}

/// The remark that points at what was being read.
pub open spec fn context(span: SpanView) -> AnnotationView {
    AnnotationView { kind: Context, span, label: "while parsing"@ }
}

/// An error that says what is wrong at `span`.
#[verifier::opaque]
pub open spec fn plain_error(title: Seq<char>, span: SpanView, label: Seq<char>) -> ErrorView {
    ErrorView { title, marks: seq![primary(span, label)], info: None, help: None, edits: None }
}

/// An error that also says what should stand in the place of `span`.
#[verifier::opaque]
pub open spec fn expected_error(
    title: Seq<char>,
    expected: Seq<char>,
    span: SpanView,
    label: Seq<char>,
) -> ErrorView {
    ErrorView {
        title,
        marks: seq![primary(span, label)],
        info: None,
        help: Some("try applying the following change"@),
        edits: Some(seq![PatchView { span, replacement: expected }]),
    }
}

fn annotation(kind: AnnotationKind, span: &impl Spanned, label: &'static str) -> (r: Annotation)
    ensures
        r@ == (AnnotationView { kind, span: span.span_view(), label: label@ }),
{
    Annotation { kind, range: span.span().to_range(), label }
}

fn patch(span: &impl Spanned, replacement: &'static str) -> (r: Patch)
    ensures
        r@ == (PatchView { span: span.span_view(), replacement: replacement@ }),
{
    Patch { range: span.span().to_range(), replacement }
}

/// An error that says what is wrong at `annotation_span`.
pub fn new_parse_error(
    primary_title: &str,
    annotation_span: &impl Spanned,
    annotation_label: &'static str,
) -> (r: ParseError)
    ensures
        r@ == plain_error(primary_title@, annotation_span.span_view(), annotation_label@),
{
    let marks = vec![annotation(Primary, annotation_span, annotation_label)];
    proof {
        reveal(plain_error);
        assert(annotation_views(marks@) =~= seq![
            primary(annotation_span.span_view(), annotation_label@),
        ]);
    }
    ParseError { title: primary_title.to_owned(), marks, info: None, help: None, edits: None }
}

/// An error that also says what should stand in the place of `annotation_span`.
pub fn new_parse_error_expected(
    primary_title: &str,
    expected: &'static str,
    annotation_span: &impl Spanned,
    annotation_label: &'static str,
) -> (r: ParseError)
    ensures
        r@ == expected_error(
            primary_title@,
            expected@,
            annotation_span.span_view(),
            annotation_label@,
        ),
{
    let ghost span = annotation_span.span_view();
    let marks = vec![annotation(Primary, annotation_span, annotation_label)];
    let edits = vec![patch(annotation_span, expected)];
    proof {
        reveal(expected_error);
        assert(annotation_views(marks@) =~= seq![primary(span, annotation_label@)]);
        assert(patch_views(edits@) =~= seq![PatchView { span, replacement: expected@ }]);
    }
    ParseError {
        title: primary_title.to_owned(),
        marks,
        info: None,
        help: Some("try applying the following change"),
        edits: Some(edits),
    }
}

/// The error of a quoted value in the wrong quotes, whose marks stand at `opening` and
/// `closing`.
#[verifier::opaque]
pub open spec fn quotes_error(opening: SpanView, closing: SpanView) -> ErrorView {
    ErrorView {
        title: "quoted variables and functions must use double quotes (\")"@,
        marks: seq![primary(opening, "here"@), primary(closing, "and here"@)],
        info: None,
        help: Some("try applying the following change"@),
        edits: Some(
            seq![
                PatchView { span: opening, replacement: "\""@ },
                PatchView { span: closing, replacement: "\""@ },
            ],
        ),
    }
}

pub(crate) fn new_quotes_error(opening: &impl Spanned, closing: &impl Spanned) -> (r: ParseError)
    ensures
        r@ == quotes_error(opening.span_view(), closing.span_view()),
{
    let marks = vec![
        annotation(Primary, opening, "here"),
        annotation(Primary, closing, "and here"),
    ];
    let edits = vec![patch(opening, "\""), patch(closing, "\"")];
    proof {
        reveal(quotes_error);
        let goal = quotes_error(opening.span_view(), closing.span_view());
        assert(annotation_views(marks@) =~= goal.marks);
        assert(patch_views(edits@) =~= goal.edits->0);
    }
    ParseError {
        title: "quoted variables and functions must use double quotes (\")".to_owned(),
        marks,
        info: None,
        help: Some("try applying the following change"),
        edits: Some(edits),
    }
}

/// The error of an expansion inside quotes.
#[verifier::opaque]
pub open spec fn quoted_expansion_error(span: SpanView) -> ErrorView {
    ErrorView {
        title: "cannot expand inside quotes"@,
        marks: seq![primary(span, "here"@)],
        info: None,
        help: Some("the variable may contain quotes which will corrupt quoting"@),
        edits: None,
    }
}

pub(crate) fn new_quoted_expansion_error(span: &impl Spanned) -> (r: ParseError)
    ensures
        r@ == quoted_expansion_error(span.span_view()),
{
    let marks = vec![annotation(Primary, span, "here")];
    proof {
        reveal(quoted_expansion_error);
        assert(annotation_views(marks@) =~= seq![primary(span.span_view(), "here"@)]);
    }
    ParseError {
        title: "cannot expand inside quotes".to_owned(),
        marks,
        info: None,
        help: Some("the variable may contain quotes which will corrupt quoting"),
        edits: None,
    }
}

/// The error of a variable that may not be bound where it is.
#[verifier::opaque]
pub open spec fn unexpected_variable_error(
    name: Seq<char>,
    while_parsing: SpanView,
    span: SpanView,
    why: Seq<char>,
) -> ErrorView {
    ErrorView {
        title: "unexpected variable '"@ + name + "'"@,
        marks: seq![context(while_parsing), primary(span, "here"@)],
        info: Some(why),
        help: None,
        edits: None,
    }
}

pub(crate) fn new_unexpected_variable_error(
    name: &str,
    while_parsing: &impl Spanned,
    span: &impl Spanned,
    why: &'static str,
) -> (r: ParseError)
    ensures
        r@ == unexpected_variable_error(
            name@,
            while_parsing.span_view(),
            span.span_view(),
            why@,
        ),
{
    let mut title = "unexpected variable '".to_owned();
    title.append(name);
    title.append("'");
    let marks = vec![
        annotation(Context, while_parsing, "while parsing"),
        annotation(Primary, span, "here"),
    ];
    proof {
        reveal(unexpected_variable_error);
        assert(annotation_views(marks@) =~= seq![
            context(while_parsing.span_view()),
            primary(span.span_view(), "here"@),
        ]);
    }
    ParseError { title, marks, info: Some(why), help: None, edits: None }
}

/// The error of a pool without a depth. The line that is missing belongs at `insert`.
#[verifier::opaque]
pub open spec fn missing_depth_error(
    while_parsing: SpanView,
    span: SpanView,
    insert: SpanView,
) -> ErrorView {
    ErrorView {
        title: "expected 'depth =' line"@,
        marks: seq![context(while_parsing), primary(span, "here"@)],
        info: Some("pools require a 'depth' variable binding"@),
        help: Some("try the following change"@),
        edits: Some(seq![PatchView { span: insert, replacement: "\n    depth = <number>"@ }]),
    }
}

pub(crate) fn new_missing_depth_error(
    while_parsing: &impl Spanned,
    span: &impl Spanned,
    insert: &impl Spanned,
) -> (r: ParseError)
    ensures
        r@ == missing_depth_error(
            while_parsing.span_view(),
            span.span_view(),
            insert.span_view(),
        ),
{
    let marks = vec![
        annotation(Context, while_parsing, "while parsing"),
        annotation(Primary, span, "here"),
    ];
    let edits = vec![patch(insert, "\n    depth = <number>")];
    proof {
        reveal(missing_depth_error);
        let goal = missing_depth_error(
            while_parsing.span_view(),
            span.span_view(),
            insert.span_view(),
        );
        assert(annotation_views(marks@) =~= goal.marks);
        assert(patch_views(edits@) =~= goal.edits->0);
    }
    ParseError {
        title: "expected 'depth =' line".to_owned(),
        marks,
        info: Some("pools require a 'depth' variable binding"),
        help: Some("try the following change"),
        edits: Some(edits),
    }
}

/// The report that the renderer makes of the errors of a source text. It has one palette
/// for Windows and one for all other systems.
pub uninterp spec fn rendered_report(
    windows: bool,
    path: Seq<char>,
    code: Seq<char>,
    errors: Seq<ErrorView>,
) -> Seq<char>;

/// `annotate_snippets::Renderer::render`, on a report with one group for each error.
/// The contract claims that the outcome depends on nothing but the path, the text and
/// the errors, and on whether the program was built for Windows. What the report looks
/// like is left unsaid. The renderer panics on ranges that reach past the text, cut
/// through a character or run backwards, and can do so on edits that take text from
/// several lines, so that only edits of the sort that the library makes are admitted.
#[verifier::external_body]
fn render_report(path: &str, code: &str, errors: Vec<ParseError>) -> (out: String)
    requires
        all_fit(error_views(errors@), code@),
    ensures
        exists|windows: bool|
            out@ == rendered_report(windows, path@, code@, error_views(errors@)),
{
    Renderer::styled().decor_style(DecorStyle::Ascii).render(&errors.into_iter().map(|e|
        ERROR.primary_title(e.title).element(Snippet::source(code).path(path).annotations(
            e.marks.into_iter().map(|a| match a.kind { Primary => Main, Context => Aside }
                .span(a.range).label(a.label))
        )).elements(e.info.map(|text| INFO.message(text))).elements(
            e.help.map(|text| HELP.message(text))
        ).elements(e.edits.map(|edits| Snippet::source(code).path(path).patches(
            edits.into_iter().map(|p| Edit::new(p.range, p.replacement))
        )))
    ).collect::<Vec<_>>())
}

/// The report on the errors of `source`.
pub fn render(source: &Source, errors: Vec<ParseError>) -> (out: String)
    requires
        all_fit(error_views(errors@), source.code@),
    ensures
        exists|windows: bool|
            out@ == rendered_report(
                windows,
                source.path@,
                source.code@,
                error_views(errors@),
            ),
{
    render_report(source.path.as_str(), source.code.as_str(), errors)
}

} // verus!
