//! What a mex file says, and how it is written out.

use vstd::prelude::*;
use vstd::string::StringExecFns;

use crate::code::{CodeIter, Span, SpanView, Spanned};
use crate::text::same_text;

verus! {

/// `n` times `ch`.
pub open spec fn repeated(ch: char, n: nat) -> Seq<char> {
    Seq::new(n, |i: int| ch)
}

pub(crate) fn write_repeated(ch: char, n: usize, out: &mut String)
    ensures
        final(out)@ == old(out)@ + repeated(ch, n as nat),
{
    let ghost before = out@;
    let mut i: usize = 0;
    proof {
        assert(before + repeated(ch, 0) =~= before);
    }
    while i < n
        invariant
            i <= n,
            out@ == before + repeated(ch, i as nat),
        decreases n - i,
    {
        out.push(ch);
        i += 1;
        proof {
            assert(out@ =~= before + repeated(ch, i as nat));
        }
    }
}

/// A name, or the sign that there is none.
#[derive(Debug)]
pub struct Varname<'a> {
    pub name: &'a str,
    pub span: Span,
}

pub struct VarnameView {
    pub name: Seq<char>,
    pub span: SpanView,
}

impl VarnameView {
    /// The name that stands for a name that is missing.
    pub open spec fn invalid() -> Seq<char> {
        "<invalid-name>"@
    }

    pub open spec fn valid(self) -> bool {
        self.name != VarnameView::invalid()
    }

    pub open spec fn text(self) -> Seq<char> {
        self.name
    }
}

impl<'a> Varname<'a> {
    pub open spec fn view(&self) -> VarnameView {
        VarnameView { name: self.name@, span: self.span@ }
    }

    #[must_use]
    pub fn as_str(&self) -> (r: &'a str)
        ensures
            r@ == self@.name,
    {
        self.name
    }

    /// The sign that a name is missing at the cursor.
    #[must_use]
    pub fn new_invalid_at(code: &CodeIter<'a>) -> (r: Self)
        requires
            code.wf(),
        ensures
            r@ == (VarnameView { name: VarnameView::invalid(), span: code@.here() }),
    {
        Varname { name: "<invalid-name>", span: code.pos().span() }
    }

    #[must_use]
    pub fn is_valid(&self) -> (yes: bool)
        ensures
            yes == self@.valid(),
    {
        !same_text(self.name, "<invalid-name>")
    }

    /// The name, unless it is missing.
    #[must_use]
    pub fn valid(self) -> (r: Option<Self>)
        ensures
            r == (if self@.valid() { Some(self) } else { None }),
    {
        if self.is_valid() {
            Some(self)
        } else {
            None
        }
    }

    /// Writes the name to `out`.
    pub fn fmt(&self, out: &mut String)
        ensures
            final(out)@ == old(out)@ + self@.text(),
    {
        out.append(self.name);
    }
}

impl<'a> Spanned for Varname<'a> {
    open spec fn span_view(&self) -> SpanView {
        self.span@
    }

    fn span(&self) -> (s: Span) {
        self.span
    }
}

#[derive(Debug)]
pub enum EvalStringPieceData<'a> {
    Literal(&'a str),
    /// `$name` or `${name}`
    Var(Varname<'a>),
    /// `$"name"`
    QuoteVar(Varname<'a>),
    /// `$(...)`
    Func(EvalString<'a>),
    /// `$"(...)"`
    QuoteFunc(EvalString<'a>),
}

/// A part of a text with variables.
#[derive(Debug)]
pub struct EvalStringPiece<'a> {
    pub span: Span,
    pub data: EvalStringPieceData<'a>,
}

/// A text with variables.
#[derive(Debug)]
pub struct EvalString<'a> {
    pub span: Span,
    pub pieces: Vec<EvalStringPiece<'a>>,
}

pub enum PieceDataView {
    Literal(Seq<char>),
    Var(VarnameView),
    QuoteVar(VarnameView),
    Func(EvalStringView),
    QuoteFunc(EvalStringView),
}

pub struct PieceView {
    pub span: SpanView,
    pub data: PieceDataView,
}

pub struct EvalStringView {
    pub span: SpanView,
    pub pieces: Seq<PieceView>,
}

impl PieceDataView {
    /// A dollar sign, a bar or a colon alone is escaped.
    pub open spec fn text(self) -> Seq<char>
        decreases self,
    {
        match self {
            PieceDataView::Literal(lit) => if lit == "$"@ || lit == "|"@ || lit == ":"@ {
                "$"@ + lit
            } else {
                lit
            },
            PieceDataView::Var(var) => "${"@ + var.text() + "}"@,
            PieceDataView::QuoteVar(var) => "$\""@ + var.text() + "\""@,
            PieceDataView::Func(func) => "$("@ + func.text() + ")"@,
            PieceDataView::QuoteFunc(func) => "$\"("@ + func.text() + ")\""@,
        }
    }
}

impl PieceView {
    pub open spec fn text(self) -> Seq<char>
        decreases self,
    {
        self.data.text()
    }
}

impl EvalStringView {
    pub open spec fn text(self) -> Seq<char>
        decreases self,
    {
        pieces_text(self.pieces)
    }
}

pub open spec fn pieces_text(pieces: Seq<PieceView>) -> Seq<char>
    decreases pieces,
{
    if pieces.len() == 0 {
        Seq::empty()
    } else {
        pieces_text(pieces.drop_last()) + pieces.last().text()
    }
}

pub open spec fn piece_views(pieces: Seq<EvalStringPiece>) -> Seq<PieceView>
    decreases pieces,
{
    Seq::new(
        pieces.len(),
        |i: int|
            if 0 <= i < pieces.len() {
                pieces[i].view()
            } else {
                arbitrary()
            },
    )
}

impl<'a> EvalStringPieceData<'a> {
    pub open spec fn view(&self) -> PieceDataView
        decreases self,
    {
        match self {
            EvalStringPieceData::Literal(lit) => PieceDataView::Literal(lit@),
            EvalStringPieceData::Var(var) => PieceDataView::Var(var@),
            EvalStringPieceData::QuoteVar(var) => PieceDataView::QuoteVar(var@),
            EvalStringPieceData::Func(func) => PieceDataView::Func(func.view()),
            EvalStringPieceData::QuoteFunc(func) => PieceDataView::QuoteFunc(func.view()),
        }
    }

    /// Writes the part to `out`.
    pub fn fmt(&self, out: &mut String)
        ensures
            final(out)@ == old(out)@ + self@.text(),
        decreases self,
    {
        let ghost before = out@;
        match self {
            EvalStringPieceData::Literal(lit) => {
                if same_text(lit, "$") || same_text(lit, "|") || same_text(lit, ":") {
                    out.append("$");
                }
                out.append(lit);
            },
            EvalStringPieceData::Var(var) => {
                out.append("${");
                var.fmt(out);
                out.append("}");
            },
            EvalStringPieceData::QuoteVar(var) => {
                out.append("$\"");
                var.fmt(out);
                out.append("\"");
            },
            EvalStringPieceData::Func(func) => {
                out.append("$(");
                func.fmt(out);
                out.append(")");
            },
            EvalStringPieceData::QuoteFunc(func) => {
                out.append("$\"(");
                func.fmt(out);
                out.append(")\"");
            },
        }
        proof {
            assert(out@ =~= before + self@.text());
        }
    }
}

impl<'a> EvalStringPiece<'a> {
    pub open spec fn view(&self) -> PieceView
        decreases self,
    {
        PieceView { span: self.span@, data: self.data.view() }
    }

    #[must_use]
    pub fn new(span: Span, data: EvalStringPieceData<'a>) -> (r: Self)
        ensures
            r == (EvalStringPiece { span, data }),
    {
        EvalStringPiece { span, data }
    }

    #[must_use]
    pub fn lit(span: Span, lit: &'a str) -> (r: Self)
        ensures
            r@ == (PieceView { span: span@, data: PieceDataView::Literal(lit@) }),
    {
        Self::new(span, EvalStringPieceData::Literal(lit))
    }

    #[must_use]
    pub fn var(span: Span, var: Varname<'a>) -> (r: Self)
        ensures
            r@ == (PieceView { span: span@, data: PieceDataView::Var(var@) }),
    {
        Self::new(span, EvalStringPieceData::Var(var))
    }

    #[must_use]
    pub fn func(span: Span, args: EvalString<'a>) -> (r: Self)
        ensures
            r@ == (PieceView { span: span@, data: PieceDataView::Func(args@) }),
    {
        Self::new(span, EvalStringPieceData::Func(args))
    }

    /// Writes the part to `out`.
    pub fn fmt(&self, out: &mut String)
        ensures
            final(out)@ == old(out)@ + self@.text(),
        decreases self,
    {
        self.data.fmt(out);
    }
}

impl<'a> Spanned for EvalStringPiece<'a> {
    open spec fn span_view(&self) -> SpanView {
        self.span@
    }

    fn span(&self) -> (s: Span) {
        self.span
    }
}

impl<'a> EvalString<'a> {
    pub open spec fn view(&self) -> EvalStringView
        decreases self,
    {
        EvalStringView { span: self.span@, pieces: piece_views(self.pieces@) }
    }

    /// Writes the text to `out`.
    pub fn fmt(&self, out: &mut String)
        ensures
            final(out)@ == old(out)@ + self@.text(),
        decreases self,
    {
        let ghost before = out@;
        let ghost views = self@.pieces;
        let mut i: usize = 0;
        proof {
            assert(views.take(0) =~= Seq::empty());
            assert(before + pieces_text(views.take(0)) =~= before);
        }
        while i < self.pieces.len()
            invariant
                i <= self.pieces@.len(),
                views == piece_views(self.pieces@),
                out@ == before + pieces_text(views.take(i as int)),
            decreases self.pieces@.len() - i,
        {
            self.pieces[i].fmt(out);
            proof {
                assert(views.take(i + 1).drop_last() =~= views.take(i as int));
                assert(views.take(i + 1).last() == views[i as int]);
                assert(out@ =~= before + pieces_text(views.take(i + 1)));
            }
            i += 1;
        }
        proof {
            assert(views.take(i as int) =~= views);
        }
    }
}

impl<'a> Spanned for EvalString<'a> {
    open spec fn span_view(&self) -> SpanView {
        self.span@
    }

    fn span(&self) -> (s: Span) {
        self.span
    }
}

} // verus!
