//! Statements of a mex file, and how they are written out.

use vstd::prelude::*;
use vstd::string::StringExecFns;

use crate::ast::{repeated, write_repeated, EvalString, EvalStringView, Varname, VarnameView};
use crate::code::{Span, SpanView, Spanned};
use crate::text::same_text;

verus! {

/// A line with a comment, and how many line breaks follow its text.
#[derive(Debug)]
pub struct Comment<'a> {
    pub text_span: Span,
    pub text: &'a str,
    pub post_newlines: u32,
}

pub struct CommentView {
    pub text_span: SpanView,
    pub text: Seq<char>,
    pub post_newlines: nat,
}

impl CommentView {
    pub open spec fn text(self) -> Seq<char> {
        self.text + repeated('\n', self.post_newlines)
    }
}

pub open spec fn comments_text(comments: Seq<CommentView>) -> Seq<char>
    decreases comments.len(),
{
    if comments.len() == 0 {
        Seq::empty()
    } else {
        comments_text(comments.drop_last()) + comments.last().text()
    }
}

impl<'a> Comment<'a> {
    pub open spec fn view(&self) -> CommentView {
        CommentView {
            text_span: self.text_span@,
            text: self.text@,
            post_newlines: self.post_newlines as nat,
        }
    }

    /// Writes the comment to `out`.
    pub fn fmt(&self, out: &mut String)
        ensures
            final(out)@ == old(out)@ + self@.text(),
    {
        let ghost before = out@;
        out.append(self.text);
        write_repeated('\n', self.post_newlines as usize, out);
        proof {
            assert(out@ =~= before + self@.text());
        }
    }
}

impl<'a> Spanned for Comment<'a> {
    open spec fn span_view(&self) -> SpanView {
        self.text_span@
    }

    fn span(&self) -> (s: Span) {
        self.text_span
    }
}

/// The empty lines and comments between statements.
#[derive(Debug)]
pub struct Filler<'a> {
    pub span: Span,
    pub start_newlines: u32,
    pub comments: Vec<Comment<'a>>,
}

pub struct FillerView {
    pub span: SpanView,
    pub start_newlines: nat,
    pub comments: Seq<CommentView>,
}

impl FillerView {
    pub open spec fn text(self) -> Seq<char> {
        repeated('\n', self.start_newlines) + comments_text(self.comments)
    }
}

pub open spec fn comment_views(comments: Seq<Comment>) -> Seq<CommentView> {
    comments.map_values(|c: Comment| c.view())
}

impl<'a> Filler<'a> {
    pub open spec fn view(&self) -> FillerView {
        FillerView {
            span: self.span@,
            start_newlines: self.start_newlines as nat,
            comments: comment_views(self.comments@),
        }
    }

    /// Whether there is neither an empty line nor a comment.
    #[must_use]
    pub fn is_empty(&self) -> (yes: bool)
        ensures
            yes == (self@.start_newlines == 0 && self@.comments.len() == 0),
    {
        self.start_newlines == 0 && self.comments.len() == 0
    }

    /// Writes the lines to `out`.
    pub fn fmt(&self, out: &mut String)
        ensures
            final(out)@ == old(out)@ + self@.text(),
    {
        let ghost first = out@;
        write_repeated('\n', self.start_newlines as usize, out);
        let ghost before = out@;
        let ghost views = comment_views(self.comments@);
        let mut i: usize = 0;
        proof {
            assert(views.take(0) =~= Seq::empty());
            assert(before + comments_text(views.take(0)) =~= before);
        }
        while i < self.comments.len()
            invariant
                i <= self.comments@.len(),
                views == comment_views(self.comments@),
                out@ == before + comments_text(views.take(i as int)),
            decreases self.comments@.len() - i,
        {
            self.comments[i].fmt(out);
            proof {
                assert(views.take(i + 1).drop_last() =~= views.take(i as int));
                assert(views.take(i + 1).last() == views[i as int]);
                assert(out@ =~= before + comments_text(views.take(i + 1)));
            }
            i += 1;
        }
        proof {
            assert(views.take(i as int) =~= views);
        }
        proof {
            assert(out@ =~= first + self@.text());
        }
    }
}

/// `name = value`
#[derive(Debug)]
pub struct LetStmt<'a> {
    pub var: Varname<'a>,
    pub value: EvalString<'a>,
}

pub struct LetView {
    pub var: VarnameView,
    pub value: EvalStringView,
}

impl LetView {
    /// Between the signs `@` and `!` and the value stands nothing, else an equals sign.
    pub open spec fn text(self) -> Seq<char> {
        self.var.text() + (if self.var.name == "@"@ || self.var.name == "!"@ {
            Seq::empty()
        } else {
            " = "@
        }) + self.value.text() + "\n"@
    }
}

impl<'a> LetStmt<'a> {
    pub open spec fn view(&self) -> LetView {
        LetView { var: self.var@, value: self.value@ }
    }

    /// Writes the statement to `out`.
    pub fn fmt(&self, out: &mut String)
        ensures
            final(out)@ == old(out)@ + self@.text(),
    {
        let ghost before = out@;
        self.var.fmt(out);
        if !same_text(self.var.as_str(), "@") && !same_text(self.var.as_str(), "!") {
            out.append(" = ");
        }
        self.value.fmt(out);
        out.append("\n");
        proof {
            assert(out@ =~= before + self@.text());
        }
    }
}

/// A `let` statement that belongs to the statement above it.
#[derive(Debug)]
pub struct Binding<'a> {
    pub indent_span: Span,
    pub let_stmt: LetStmt<'a>,
}

pub struct BindingView {
    pub indent_span: SpanView,
    pub let_stmt: LetView,
}

impl BindingView {
    pub open spec fn printable(self) -> bool {
        self.indent_span.forward()
    }

    pub open spec fn text(self) -> Seq<char> {
        repeated(' ', self.indent_span.len() as nat) + self.let_stmt.text()
    }
}

impl<'a> Binding<'a> {
    pub open spec fn view(&self) -> BindingView {
        BindingView { indent_span: self.indent_span@, let_stmt: self.let_stmt@ }
    }

    /// Writes the statement to `out`, behind as many spaces as it was indented by.
    pub fn fmt(&self, out: &mut String)
        requires
            self@.printable(),
        ensures
            final(out)@ == old(out)@ + self@.text(),
    {
        let ghost before = out@;
        write_repeated(' ', self.indent_span.len(), out);
        self.let_stmt.fmt(out);
        proof {
            assert(out@ =~= before + self@.text());
        }
    }
}

/// Bindings, each with the lines before it.
pub type BindingsView = Seq<(FillerView, BindingView)>;

pub open spec fn bindings_printable(bindings: BindingsView) -> bool {
    forall|i: int| 0 <= i < bindings.len() ==> (#[trigger] bindings[i]).1.printable()
}

pub open spec fn bindings_text(bindings: BindingsView) -> Seq<char>
    decreases bindings.len(),
{
    if bindings.len() == 0 {
        Seq::empty()
    } else {
        bindings_text(bindings.drop_last()) + bindings.last().0.text() + bindings.last().1.text()
    }
}

pub open spec fn binding_views(bindings: Seq<(Filler, Binding)>) -> BindingsView {
    bindings.map_values(|b: (Filler, Binding)| (b.0.view(), b.1.view()))
}

fn write_bindings<'a>(bindings: &Vec<(Filler<'a>, Binding<'a>)>, out: &mut String)
    requires
        bindings_printable(binding_views(bindings@)),
    ensures
        final(out)@ == old(out)@ + bindings_text(binding_views(bindings@)),
{
    let ghost before = out@;
    let ghost views = binding_views(bindings@);
    let mut i: usize = 0;
    proof {
        assert(views.take(0) =~= Seq::empty());
        assert(before + bindings_text(views.take(0)) =~= before);
    }
    while i < bindings.len()
        invariant
            i <= bindings@.len(),
            views == binding_views(bindings@),
            bindings_printable(views),
            out@ == before + bindings_text(views.take(i as int)),
        decreases bindings@.len() - i,
    {
        proof {
            assert(views[i as int].1.printable());
        }
        bindings[i].0.fmt(out);
        bindings[i].1.fmt(out);
        proof {
            assert(views.take(i + 1).drop_last() =~= views.take(i as int));
            assert(views.take(i + 1).last() == views[i as int]);
            assert(out@ =~= before + bindings_text(views.take(i + 1)));
        }
        i += 1;
    }
    proof {
        assert(views.take(i as int) =~= views);
    }
}

/// Paths, each with a space before it.
pub open spec fn paths_text(paths: Seq<EvalStringView>) -> Seq<char>
    decreases paths.len(),
{
    if paths.len() == 0 {
        Seq::empty()
    } else {
        paths_text(paths.drop_last()) + " "@ + paths.last().text()
    }
}

pub open spec fn path_views(paths: Seq<EvalString>) -> Seq<EvalStringView> {
    paths.map_values(|p: EvalString| p.view())
}

fn write_paths<'a>(paths: &Vec<EvalString<'a>>, out: &mut String)
    ensures
        final(out)@ == old(out)@ + paths_text(path_views(paths@)),
{
    let ghost before = out@;
    let ghost views = path_views(paths@);
    let mut i: usize = 0;
    proof {
        assert(views.take(0) =~= Seq::empty());
        assert(before + paths_text(views.take(0)) =~= before);
    }
    while i < paths.len()
        invariant
            i <= paths@.len(),
            views == path_views(paths@),
            out@ == before + paths_text(views.take(i as int)),
        decreases paths@.len() - i,
    {
        out.append(" ");
        paths[i].fmt(out);
        proof {
            assert(views.take(i + 1).drop_last() =~= views.take(i as int));
            assert(views.take(i + 1).last() == views[i as int]);
            assert(out@ =~= before + paths_text(views.take(i + 1)));
        }
        i += 1;
    }
    proof {
        assert(views.take(i as int) =~= views);
    }
}

/// `rule name` and its bindings.
#[derive(Debug)]
pub struct RuleStmt<'a> {
    pub rule_span: Span,
    pub name: Varname<'a>,
    pub bindings: Vec<(Filler<'a>, Binding<'a>)>,
}

pub struct RuleView {
    pub rule_span: SpanView,
    pub name: VarnameView,
    pub bindings: BindingsView,
}

impl RuleView {
    pub open spec fn printable(self) -> bool {
        bindings_printable(self.bindings)
    }

    pub open spec fn text(self) -> Seq<char> {
        "rule "@ + self.name.text() + "\n"@ + bindings_text(self.bindings)
    }
}

impl<'a> RuleStmt<'a> {
    pub open spec fn view(&self) -> RuleView {
        RuleView {
            rule_span: self.rule_span@,
            name: self.name@,
            bindings: binding_views(self.bindings@),
        }
    }

    /// Writes the statement to `out`.
    pub fn fmt(&self, out: &mut String)
        requires
            self@.printable(),
        ensures
            final(out)@ == old(out)@ + self@.text(),
    {
        let ghost before = out@;
        out.append("rule ");
        self.name.fmt(out);
        out.append("\n");
        write_bindings(&self.bindings, out);
        proof {
            assert(out@ =~= before + self@.text());
        }
    }
}

/// `build outs | implicit_outs: rule deps | implicit_deps || order_only_deps |@ validations`
/// and its bindings.
#[derive(Debug)]
pub struct BuildStmt<'a> {
    pub build_span: Span,
    pub outs: Vec<EvalString<'a>>,
    pub implicit_outs: Vec<EvalString<'a>>,
    pub rule: Varname<'a>,
    pub deps: Vec<EvalString<'a>>,
    pub implicit_deps: Vec<EvalString<'a>>,
    pub order_only_deps: Vec<EvalString<'a>>,
    pub validations: Vec<EvalString<'a>>,
    pub bindings: Vec<(Filler<'a>, Binding<'a>)>,
}

pub struct BuildView {
    pub build_span: SpanView,
    pub outs: Seq<EvalStringView>,
    pub implicit_outs: Seq<EvalStringView>,
    pub rule: VarnameView,
    pub deps: Seq<EvalStringView>,
    pub implicit_deps: Seq<EvalStringView>,
    pub order_only_deps: Seq<EvalStringView>,
    pub validations: Seq<EvalStringView>,
    pub bindings: BindingsView,
}

/// Paths behind the sign that announces them. The sign is left out where there are none.
pub open spec fn section_text(sign: Seq<char>, paths: Seq<EvalStringView>) -> Seq<char> {
    if paths.len() == 0 {
        Seq::empty()
    } else {
        sign + paths_text(paths)
    }
}

fn write_section<'a>(sign: &str, paths: &Vec<EvalString<'a>>, out: &mut String)
    ensures
        final(out)@ == old(out)@ + section_text(sign@, path_views(paths@)),
{
    let ghost before = out@;
    if paths.len() > 0 {
        out.append(sign);
    }
    write_paths(paths, out);
    proof {
        assert(out@ =~= before + section_text(sign@, path_views(paths@)));
    }
}

impl BuildView {
    pub open spec fn printable(self) -> bool {
        bindings_printable(self.bindings)
    }

    pub open spec fn text(self) -> Seq<char> {
        "build"@ + paths_text(self.outs) + section_text(" |"@, self.implicit_outs) + ": "@
            + self.rule.text() + paths_text(self.deps) + section_text(" |"@, self.implicit_deps)
            + section_text(" ||"@, self.order_only_deps) + section_text(" |@"@, self.validations)
            + "\n"@ + bindings_text(self.bindings)
    }
}

impl<'a> BuildStmt<'a> {
    pub open spec fn view(&self) -> BuildView {
        BuildView {
            build_span: self.build_span@,
            outs: path_views(self.outs@),
            implicit_outs: path_views(self.implicit_outs@),
            rule: self.rule@,
            deps: path_views(self.deps@),
            implicit_deps: path_views(self.implicit_deps@),
            order_only_deps: path_views(self.order_only_deps@),
            validations: path_views(self.validations@),
            bindings: binding_views(self.bindings@),
        }
    }

    /// Writes the statement to `out`.
    pub fn fmt(&self, out: &mut String)
        requires
            self@.printable(),
        ensures
            final(out)@ == old(out)@ + self@.text(),
    {
        let ghost before = out@;
        let ghost v = self@;
        out.append("build");
        write_paths(&self.outs, out);
        write_section(" |", &self.implicit_outs, out);
        out.append(": ");
        self.rule.fmt(out);
        let ghost head = "build"@ + paths_text(v.outs) + section_text(" |"@, v.implicit_outs)
            + ": "@ + v.rule.text();
        proof {
            assert(out@ =~= before + head);
        }
        write_paths(&self.deps, out);
        write_section(" |", &self.implicit_deps, out);
        write_section(" ||", &self.order_only_deps, out);
        let ghost middle = head + paths_text(v.deps) + section_text(" |"@, v.implicit_deps)
            + section_text(" ||"@, v.order_only_deps);
        proof {
            assert(out@ =~= before + middle);
        }
        write_section(" |@", &self.validations, out);
        out.append("\n");
        write_bindings(&self.bindings, out);
        proof {
            assert(out@ =~= before + (middle + section_text(" |@"@, v.validations) + "\n"@
                + bindings_text(v.bindings)));
        }
    }
}

/// `default outs`
#[derive(Debug)]
pub struct DefaultStmt<'a> {
    pub default_span: Span,
    pub outs: Vec<EvalString<'a>>,
}

pub struct DefaultView {
    pub default_span: SpanView,
    pub outs: Seq<EvalStringView>,
}

impl DefaultView {
    pub open spec fn text(self) -> Seq<char> {
        "default"@ + paths_text(self.outs) + "\n"@
    }
}

impl<'a> DefaultStmt<'a> {
    pub open spec fn view(&self) -> DefaultView {
        DefaultView { default_span: self.default_span@, outs: path_views(self.outs@) }
    }

    /// Writes the statement to `out`.
    pub fn fmt(&self, out: &mut String)
        ensures
            final(out)@ == old(out)@ + self@.text(),
    {
        let ghost before = out@;
        out.append("default");
        write_paths(&self.outs, out);
        out.append("\n");
        proof {
            assert(out@ =~= before + self@.text());
        }
    }
}

/// `pool name` and its bindings.
#[derive(Debug)]
pub struct PoolStmt<'a> {
    pub pool_span: Span,
    pub name: Varname<'a>,
    pub bindings: Vec<(Filler<'a>, Binding<'a>)>,
}

pub struct PoolView {
    pub pool_span: SpanView,
    pub name: VarnameView,
    pub bindings: BindingsView,
}

impl PoolView {
    pub open spec fn printable(self) -> bool {
        bindings_printable(self.bindings)
    }

    pub open spec fn text(self) -> Seq<char> {
        "pool "@ + self.name.text() + "\n"@ + bindings_text(self.bindings)
    }
}

impl<'a> PoolStmt<'a> {
    pub open spec fn view(&self) -> PoolView {
        PoolView {
            pool_span: self.pool_span@,
            name: self.name@,
            bindings: binding_views(self.bindings@),
        }
    }

    /// Writes the statement to `out`.
    pub fn fmt(&self, out: &mut String)
        requires
            self@.printable(),
        ensures
            final(out)@ == old(out)@ + self@.text(),
    {
        let ghost before = out@;
        out.append("pool ");
        self.name.fmt(out);
        out.append("\n");
        write_bindings(&self.bindings, out);
        proof {
            assert(out@ =~= before + self@.text());
        }
    }
}

/// `for var in values` and the statements of its body.
#[derive(Debug)]
pub struct ForStmt<'a> {
    pub for_span: Span,
    pub var: Varname<'a>,
    pub values: EvalString<'a>,
    pub items: Vec<ForBodyItem<'a>>,
}

/// A statement in the body of a `for`, with the lines before it.
#[derive(Debug)]
pub struct ForBodyItem<'a> {
    pub filler: Filler<'a>,
    pub indent_span: Span,
    pub item: Item<'a>,
}

#[derive(Debug)]
pub enum Item<'a> {
    Let(LetStmt<'a>),
    Rule(RuleStmt<'a>),
    Build(BuildStmt<'a>),
    Default(DefaultStmt<'a>),
    Pool(PoolStmt<'a>),
    For(ForStmt<'a>),
}

pub struct ForView {
    pub for_span: SpanView,
    pub var: VarnameView,
    pub values: EvalStringView,
    pub items: Seq<ForBodyItemView>,
}

pub struct ForBodyItemView {
    pub filler: FillerView,
    pub indent_span: SpanView,
    pub item: ItemView,
}

pub enum ItemView {
    Let(LetView),
    Rule(RuleView),
    Build(BuildView),
    Default(DefaultView),
    Pool(PoolView),
    For(ForView),
}

impl ForView {
    pub open spec fn printable(self) -> bool
        decreases self,
    {
        body_printable(self.items)
    }

    pub open spec fn text(self) -> Seq<char>
        decreases self,
    {
        "for "@ + self.var.text() + " in "@ + self.values.text() + "\n"@ + body_text(self.items)
    }
}

pub open spec fn body_printable(items: Seq<ForBodyItemView>) -> bool
    decreases items,
{
    items.len() > 0 ==> body_printable(items.drop_last()) && items.last().printable()
}

pub open spec fn body_text(items: Seq<ForBodyItemView>) -> Seq<char>
    decreases items,
{
    if items.len() == 0 {
        Seq::empty()
    } else {
        body_text(items.drop_last()) + items.last().text()
    }
}

impl ForBodyItemView {
    pub open spec fn printable(self) -> bool
        decreases self,
    {
        self.indent_span.forward() && self.item.printable()
    }

    pub open spec fn text(self) -> Seq<char>
        decreases self,
    {
        self.filler.text() + repeated(' ', self.indent_span.len() as nat) + self.item.text()
    }
}

impl ItemView {
    /// No indentation in the statement runs backwards.
    pub open spec fn printable(self) -> bool
        decreases self,
    {
        match self {
            ItemView::Let(_) => true,
            ItemView::Rule(stmt) => stmt.printable(),
            ItemView::Build(stmt) => stmt.printable(),
            ItemView::Default(_) => true,
            ItemView::Pool(stmt) => stmt.printable(),
            ItemView::For(stmt) => stmt.printable(),
        }
    }

    pub open spec fn text(self) -> Seq<char>
        decreases self,
    {
        match self {
            ItemView::Let(stmt) => stmt.text(),
            ItemView::Rule(stmt) => stmt.text(),
            ItemView::Build(stmt) => stmt.text(),
            ItemView::Default(stmt) => stmt.text(),
            ItemView::Pool(stmt) => stmt.text(),
            ItemView::For(stmt) => stmt.text(),
        }
    }
}

pub open spec fn body_views(items: Seq<ForBodyItem>) -> Seq<ForBodyItemView>
    decreases items,
{
    Seq::new(
        items.len(),
        |i: int|
            if 0 <= i < items.len() {
                items[i].view()
            } else {
                arbitrary()
            },
    )
}

proof fn lemma_body_printable(items: Seq<ForBodyItemView>, i: int)
    requires
        body_printable(items),
        0 <= i < items.len(),
    ensures
        items[i].printable(),
    decreases items.len(),
{
    if i < items.len() - 1 {
        lemma_body_printable(items.drop_last(), i);
    }
}

impl<'a> ForStmt<'a> {
    pub open spec fn view(&self) -> ForView
        decreases self,
    {
        ForView {
            for_span: self.for_span@,
            var: self.var@,
            values: self.values@,
            items: body_views(self.items@),
        }
    }

    /// Writes the statement to `out`.
    pub fn fmt(&self, out: &mut String)
        requires
            self@.printable(),
        ensures
            final(out)@ == old(out)@ + self@.text(),
        decreases self,
    {
        let ghost first = out@;
        out.append("for ");
        self.var.fmt(out);
        out.append(" in ");
        self.values.fmt(out);
        out.append("\n");
        let ghost before = out@;
        let ghost views = body_views(self.items@);
        let mut i: usize = 0;
        proof {
            assert(views.take(0) =~= Seq::empty());
            assert(before + body_text(views.take(0)) =~= before);
        }
        while i < self.items.len()
            invariant
                i <= self.items@.len(),
                views == body_views(self.items@),
                body_printable(views),
                out@ == before + body_text(views.take(i as int)),
            decreases self.items@.len() - i,
        {
            proof {
                lemma_body_printable(views, i as int);
            }
            self.items[i].fmt(out);
            proof {
                assert(views.take(i + 1).drop_last() =~= views.take(i as int));
                assert(views.take(i + 1).last() == views[i as int]);
                assert(out@ =~= before + body_text(views.take(i + 1)));
            }
            i += 1;
        }
        proof {
            assert(views.take(i as int) =~= views);
        }
        proof {
            assert(out@ =~= first + self@.text());
        }
    }
}

impl<'a> ForBodyItem<'a> {
    pub open spec fn view(&self) -> ForBodyItemView
        decreases self,
    {
        ForBodyItemView {
            filler: self.filler@,
            indent_span: self.indent_span@,
            item: self.item.view(),
        }
    }

    /// Writes the lines before the statement, its indentation and the statement to `out`.
    pub fn fmt(&self, out: &mut String)
        requires
            self@.printable(),
        ensures
            final(out)@ == old(out)@ + self@.text(),
        decreases self,
    {
        let ghost before = out@;
        self.filler.fmt(out);
        write_repeated(' ', self.indent_span.len(), out);
        self.item.fmt(out);
        proof {
            assert(out@ =~= before + self@.text());
        }
    }
}

impl<'a> Item<'a> {
    pub open spec fn view(&self) -> ItemView
        decreases self,
    {
        match self {
            Item::Let(stmt) => ItemView::Let(stmt@),
            Item::Rule(stmt) => ItemView::Rule(stmt@),
            Item::Build(stmt) => ItemView::Build(stmt@),
            Item::Default(stmt) => ItemView::Default(stmt@),
            Item::Pool(stmt) => ItemView::Pool(stmt@),
            Item::For(stmt) => ItemView::For(stmt.view()),
        }
    }

    /// Writes the statement to `out`.
    pub fn fmt(&self, out: &mut String)
        requires
            self@.printable(),
        ensures
            final(out)@ == old(out)@ + self@.text(),
        decreases self,
    {
        match self {
            Item::Let(stmt) => stmt.fmt(out),
            Item::Rule(stmt) => stmt.fmt(out),
            Item::Build(stmt) => stmt.fmt(out),
            Item::Default(stmt) => stmt.fmt(out),
            Item::Pool(stmt) => stmt.fmt(out),
            Item::For(stmt) => stmt.fmt(out),
        }
    }
}

/// A whole file: its statements, each with the lines after it.
#[derive(Debug)]
pub struct MexFile<'a> {
    pub opening_filler: Filler<'a>,
    pub items: Vec<(Item<'a>, Filler<'a>)>,
}

/// Statements, each with the lines after it.
pub type ItemsView = Seq<(ItemView, FillerView)>;

pub struct MexFileView {
    pub opening_filler: FillerView,
    pub items: ItemsView,
}

pub open spec fn items_text(items: ItemsView) -> Seq<char>
    decreases items.len(),
{
    if items.len() == 0 {
        Seq::empty()
    } else {
        items_text(items.drop_last()) + items.last().0.text() + items.last().1.text()
    }
}

pub open spec fn item_views(items: Seq<(Item, Filler)>) -> ItemsView {
    items.map_values(|x: (Item, Filler)| (x.0.view(), x.1.view()))
}

impl MexFileView {
    /// No indentation in the file runs backwards.
    pub open spec fn printable(self) -> bool {
        forall|i: int| 0 <= i < self.items.len() ==> (#[trigger] self.items[i]).0.printable()
    }

    pub open spec fn text(self) -> Seq<char> {
        self.opening_filler.text() + items_text(self.items)
    }
}

impl<'a> MexFile<'a> {
    pub open spec fn view(&self) -> MexFileView {
        MexFileView { opening_filler: self.opening_filler@, items: item_views(self.items@) }
    }

    /// Writes the file to `out`.
    pub fn fmt(&self, out: &mut String)
        requires
            self@.printable(),
        ensures
            final(out)@ == old(out)@ + self@.text(),
    {
        let ghost first = out@;
        self.opening_filler.fmt(out);
        let ghost before = out@;
        let ghost views = item_views(self.items@);
        let mut i: usize = 0;
        proof {
            assert(views.take(0) =~= Seq::empty());
            assert(before + items_text(views.take(0)) =~= before);
        }
        while i < self.items.len()
            invariant
                i <= self.items@.len(),
                views == item_views(self.items@),
                self@.printable(),
                views == self@.items,
                out@ == before + items_text(views.take(i as int)),
            decreases self.items@.len() - i,
        {
            proof {
                assert(views[i as int].0.printable());
            }
            self.items[i].0.fmt(out);
            self.items[i].1.fmt(out);
            proof {
                assert(views.take(i + 1).drop_last() =~= views.take(i as int));
                assert(views.take(i + 1).last() == views[i as int]);
                assert(out@ =~= before + items_text(views.take(i + 1)));
            }
            i += 1;
        }
        proof {
            assert(views.take(i as int) =~= views);
        }
        proof {
            assert(out@ =~= first + self@.text());
        }
    }
}

} // verus!
