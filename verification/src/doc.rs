//! Documents and the combinators that build them.

use vstd::prelude::*;
use std::rc::Rc;
use crate::model::{
    align_at_model, align_model, align_offset, append_model, blanks, concat_model, grapheme_len,
    group_model, hang_model, has_line_break, indent_model, intersperse_model, line_model,
    nest_model, reflow_model, sized_model, softline_model, spaces_model, text_len, text_model,
    white_space, width_from_model, width_to_model, words, DocV,
};
use crate::render::SPACES;
use crate::text::char_string;
use vstd::std_specs::iter::IteratorSpec;
use vstd::string::StringExecFns;
use unicode_segmentation::UnicodeSegmentation;

verus! {

/// A function object that a column or nesting node expands with a position.
///
/// `call` has to be a function of its arguments: what it returns for one
/// position must always denote the same document.
pub trait ColumnFn<A>: Sized {
    /// What a column node makes of the column, and a nesting node of the
    /// indentation.
    fn call(&self, n: usize) -> RcDoc<A, Self>;

    /// Whether the function object puts nothing after a measured document,
    /// as the `call_width` that comes with the trait does. A function object
    /// says this of itself; unless it does, nothing is known of its
    /// `call_width`.
    open spec fn measures_nothing(&self) -> bool {
        false
    }

    /// What a document made by [`RcDoc::width`] puts after the measured
    /// document, whose width is `width` columns: nothing, unless the function
    /// object has a `call_width` of its own.
    fn call_width(&self, width: isize) -> (r: RcDoc<A, Self>)
        ensures
            self.measures_nothing() ==> *r.0 is Nil,
    {
        RcDoc(Rc::new(Doc::Nil))
    }
}

/// The function object of documents that hold no function of the caller. It
/// expands to the empty document.
pub struct NoFn;

impl<A> ColumnFn<A> for NoFn {
    open spec fn measures_nothing(&self) -> bool {
        true
    }

    fn call(&self, n: usize) -> RcDoc<A, NoFn>
        returns
            RcDoc(Rc::new(Doc::<A, NoFn>::Nil)),
    {
        RcDoc(Rc::new(Doc::Nil))
    }
}

/// A short text that is held in place: an `arrayvec::ArrayString` of 22
/// bytes.
#[verifier::external_body]
pub struct SmallText {
    inner: arrayvec::ArrayString<[u8; 22]>,
}

/// The text that a `SmallText` holds.
pub uninterp spec fn small_text(t: SmallText) -> Seq<char>;

/// `ArrayString::new`: an empty text.
#[verifier::external_body]
pub(crate) fn small_new() -> (t: SmallText)
    ensures
        small_text(t) == Seq::<char>::empty(),
{
    SmallText { inner: arrayvec::ArrayString::new() }
}

/// `ArrayString::try_push_str`: adds `s` at the end where the 22 bytes of
/// the text have room for it, and leaves the text as it is where they have
/// not. Hands back which of the two it was.
#[verifier::external_body]
pub(crate) fn small_try_push_str(t: &mut SmallText, s: &str) -> (pushed: bool)
    ensures
        pushed <==> text_len(small_text(*old(t))) + text_len(s@) <= 22,
        pushed ==> small_text(*final(t)) == small_text(*old(t)) + s@,
        !pushed ==> *final(t) == *old(t),
{
    t.inner.try_push_str(s).is_ok()
}

/// `ArrayString::as_str`: the text as a string slice.
#[verifier::external_body]
pub(crate) fn small_as_str(t: &SmallText) -> (s: &str)
    ensures
        s@ == small_text(*t),
{
    t.inner.as_str()
}

/// A text that is built up piece by piece: held in place while it is short,
/// on the heap once it has grown.
pub enum FmtText {
    Small(SmallText),
    Large(String),
}

impl FmtText {
    /// The text held.
    pub open spec fn view(&self) -> Seq<char> {
        match *self {
            FmtText::Small(t) => small_text(t),
            FmtText::Large(s) => s@,
        }
    }

    /// An empty text.
    pub fn new() -> (t: Self)
        ensures
            t@ == Seq::<char>::empty(),
            t is Small,
    {
        FmtText::Small(small_new())
    }

    /// Adds `s` at the end. The text moves to the heap when it no longer has
    /// room in place.
    pub fn write_str(&mut self, s: &str)
        ensures
            final(self)@ == old(self)@ + s@,
            *final(self) is Small <==> *old(self) is Small && text_len(old(self)@) + text_len(s@)
                <= 22,
    {
        let grown = match self {
            FmtText::Small(buf) => {
                if small_try_push_str(buf, s) {
                    None
                } else {
                    let mut new_str = String::new();
                    new_str.append(small_as_str(buf));
                    new_str.append(s);
                    proof {
                        assert(new_str@ =~= small_text(*buf) + s@);
                    }
                    Some(new_str)
                }
            },
            FmtText::Large(buf) => {
                buf.append(s);
                None
            },
        };
        if let Some(new_str) = grown {
            *self = FmtText::Large(new_str);
        }
    }
}

/// A shared handle to a document.
pub struct RcDoc<A, F>(pub Rc<Doc<A, F>>);

/// The function held by a column or nesting node.
pub enum DocFn<A, F> {
    /// A function object of the caller.
    User(Rc<F>),
    /// From the column to the node that reads the indentation.
    Align(RcDoc<A, F>),
    /// From the indentation to the document, nested up to the column.
    AlignAt(usize, RcDoc<A, F>),
    /// From the column at the start of the document to the document followed
    /// by the node that reads the column at its end.
    WidthFrom(RcDoc<A, F>, Rc<F>, Ghost<spec_fn(isize) -> DocV<A>>, Ghost<nat>),
    /// From the column at the end to what the function object makes of the
    /// distance from the start.
    WidthTo(usize, Rc<F>, Ghost<spec_fn(isize) -> DocV<A>>),
}

/// A document. Build one with the functions of [`RcDoc`].
///
/// A column or nesting node carries, beside its function, what the function
/// denotes and a bound on the size of what it returns.
pub enum Doc<A, F> {
    Nil,
    Append(RcDoc<A, F>, RcDoc<A, F>),
    Group(RcDoc<A, F>),
    FlatAlt(RcDoc<A, F>, RcDoc<A, F>),
    Nest(isize, RcDoc<A, F>),
    Hardline,
    RenderLen(usize, RcDoc<A, F>),
    Text(String),
    SmallText(SmallText),
    Annotated(A, RcDoc<A, F>),
    Union(RcDoc<A, F>, RcDoc<A, F>),
    Column(DocFn<A, F>, Ghost<spec_fn(usize) -> DocV<A>>, Ghost<nat>),
    Nesting(DocFn<A, F>, Ghost<spec_fn(usize) -> DocV<A>>, Ghost<nat>),
    Fail,
}

impl<A, F> Doc<A, F> {
    /// What the document denotes.
    pub open spec fn view(&self) -> DocV<A>
        decreases self,
    {
        match *self {
            Doc::Nil => DocV::Nil,
            Doc::Append(l, r) => DocV::Append(Box::new(l.0.view()), Box::new(r.0.view())),
            Doc::Group(d) => DocV::Group(Box::new(d.0.view())),
            Doc::FlatAlt(b, f) => DocV::FlatAlt(Box::new(b.0.view()), Box::new(f.0.view())),
            Doc::Nest(off, d) => DocV::Nest(off, Box::new(d.0.view())),
            Doc::Hardline => DocV::Hardline,
            Doc::RenderLen(n, d) => DocV::RenderLen(n, Box::new(d.0.view())),
            Doc::Text(s) => DocV::Text(s@),
            Doc::SmallText(t) => DocV::Text(small_text(t)),
            Doc::Annotated(a, d) => DocV::Annotated(a, Box::new(d.0.view())),
            Doc::Union(l, r) => DocV::Union(Box::new(l.0.view()), Box::new(r.0.view())),
            Doc::Column(_, m, b) => DocV::Column(m@, b@),
            Doc::Nesting(_, m, b) => DocV::Nesting(m@, b@),
            Doc::Fail => DocV::Fail,
        }
    }

    /// The number of nodes, where a column or nesting node counts for one more
    /// than its bound.
    pub open spec fn nodes(&self) -> nat
        decreases self,
    {
        match *self {
            Doc::Append(l, r) => 1 + l.0.nodes() + r.0.nodes(),
            Doc::Group(d) => 1 + d.0.nodes(),
            Doc::FlatAlt(b, f) => 1 + b.0.nodes() + f.0.nodes(),
            Doc::Nest(_, d) => 1 + d.0.nodes(),
            Doc::RenderLen(_, d) => 1 + d.0.nodes(),
            Doc::Annotated(_, d) => 1 + d.0.nodes(),
            Doc::Union(l, r) => 1 + l.0.nodes() + r.0.nodes(),
            Doc::Column(_, _, b) => 1 + b@,
            Doc::Nesting(_, _, b) => 1 + b@,
            _ => 1,
        }
    }

    /// The nodes of a document are as many as the size of what it denotes.
    pub proof fn lemma_nodes(&self)
        ensures
            self.nodes() == self.view().size(),
        decreases self,
    {
        match *self {
            Doc::Append(l, r) => {
                l.0.lemma_nodes();
                r.0.lemma_nodes();
            },
            Doc::Group(d) => d.0.lemma_nodes(),
            Doc::FlatAlt(b, f) => {
                b.0.lemma_nodes();
                f.0.lemma_nodes();
            },
            Doc::Nest(_, d) => d.0.lemma_nodes(),
            Doc::RenderLen(_, d) => d.0.lemma_nodes(),
            Doc::Annotated(_, d) => d.0.lemma_nodes(),
            Doc::Union(l, r) => {
                l.0.lemma_nodes();
                r.0.lemma_nodes();
            },
            _ => {},
        }
    }
}

impl<A, F: ColumnFn<A>> Doc<A, F> {
    /// The document can be rendered: a text holds no line break, a
    /// `RenderLen` wraps a text, and what the function of a column or nesting
    /// node returns denotes what the node says, stays within the node's bound
    /// and can be rendered in turn.
    pub open spec fn wf(&self) -> bool
        decreases self.nodes(),
    {
        match *self {
            Doc::Append(l, r) => l.0.wf() && r.0.wf(),
            Doc::Group(d) => d.0.wf(),
            Doc::FlatAlt(b, f) => b.0.wf() && f.0.wf(),
            Doc::Nest(_, d) => d.0.wf(),
            Doc::RenderLen(_, d) => d.0.view() is Text && d.0.wf(),
            Doc::Text(s) => !has_line_break(s@),
            Doc::SmallText(t) => !has_line_break(small_text(t)),
            Doc::Annotated(_, d) => d.0.wf(),
            Doc::Union(l, r) => l.0.wf() && r.0.wf(),
            Doc::Column(f, m, b) => match f {
                DocFn::User(g) => forall|n: usize, e: RcDoc<A, F>|
                    call_ensures(F::call, (&*g, n), e) ==> e.0.view() == (m@)(n) && e.0.nodes()
                        <= b@ && e.0.wf(),
                DocFn::Align(d) => m@ == align_model(d.0.view()) && b@ == d.0.nodes() + 2
                    && d.0.wf(),
                DocFn::AlignAt(_, _) => false,
                DocFn::WidthFrom(d, g, after, bound) => m@ == width_from_model(
                    d.0.view(),
                    after@,
                    bound@,
                ) && b@ == d.0.nodes() + bound@ + 2 && d.0.wf() && forall|w: isize, e: RcDoc<A, F>|
                    call_ensures(F::call_width, (&*g, w), e) ==> e.0.view() == (after@)(w)
                        && e.0.nodes() <= bound@ && e.0.wf(),
                DocFn::WidthTo(start, g, after) => m@ == width_to_model(start, after@)
                    && forall|w: isize, e: RcDoc<A, F>|
                    call_ensures(F::call_width, (&*g, w), e) ==> e.0.view() == (after@)(w)
                        && e.0.nodes() <= b@ && e.0.wf(),
            },
            Doc::Nesting(f, m, b) => match f {
                DocFn::User(g) => forall|n: usize, e: RcDoc<A, F>|
                    call_ensures(F::call, (&*g, n), e) ==> e.0.view() == (m@)(n) && e.0.nodes()
                        <= b@ && e.0.wf(),
                DocFn::Align(_) => false,
                DocFn::AlignAt(col, d) => m@ == align_at_model(col, d.0.view()) && b@
                    == d.0.nodes() + 1 && d.0.wf(),
                DocFn::WidthFrom(_, _, _, _) => false,
                DocFn::WidthTo(_, _, _) => false,
            },
            _ => true,
        }
    }
}

impl<A, F> RcDoc<A, F> {
    /// What the document denotes.
    pub open spec fn view(&self) -> DocV<A> {
        self.0.view()
    }
}

impl<A, F: ColumnFn<A>> RcDoc<A, F> {
    /// The document can be rendered.
    pub open spec fn wf(&self) -> bool {
        self.0.wf()
    }
}

/// `Rc::clone`: another handle to the same value.
#[verifier::external_body]
pub(crate) fn rc_clone<T>(r: &Rc<T>) -> (c: Rc<T>)
    ensures
        c == *r,
{
    Rc::clone(r)
}

/// The signed distance from `nest` to `col`, held within the range of `isize`.
pub fn offset_between(col: usize, nest: usize) -> (off: isize)
    ensures
        off == align_offset(col, nest),
{
    if col >= nest {
        let d = col - nest;
        if d > isize::MAX as usize {
            isize::MAX
        } else {
            d as isize
        }
    } else {
        let d = nest - col;
        if d > isize::MAX as usize {
            isize::MIN
        } else {
            -(d as isize)
        }
    }
}

impl<A, F: ColumnFn<A>> RcDoc<A, F> {
    /// A handle to `doc`.
    pub fn new(doc: Doc<A, F>) -> (r: Self)
        ensures
            *r.0 == doc,
    {
        RcDoc(Rc::new(doc))
    }

    /// Increase the indentation level of this document.
    pub fn nest(self, offset: isize) -> (r: Self)
        ensures
            r@ == nest_model(offset, self@),
            self.wf() ==> r.wf(),
            r.0.nodes() <= self.0.nodes() + 1,
    {
        if let Doc::Nil = &*self.0 {
            return self;
        }
        if offset == 0 {
            return self;
        }
        RcDoc::new(Doc::Nest(offset, self))
    }
}

/// `UnicodeSegmentation::graphemes` with extended clusters, counted.
#[verifier::external_body]
pub(crate) fn grapheme_count(s: &str) -> (n: usize)
    ensures
        n == grapheme_len(s@),
{
    s.graphemes(true).count()
}

/// `char::is_whitespace`: whether `c` has the Unicode property `White_Space`,
/// as a line feed and a carriage return have.
#[verifier::external_body]
pub(crate) fn is_whitespace(c: char) -> (b: bool)
    ensures
        b == white_space(c),
        c == '\n' || c == '\r' ==> b,
{
    c.is_whitespace()
}

/// Whether the text holds a line feed or a carriage return.
pub fn contains_line_break(text: &str) -> (b: bool)
    ensures
        b == has_line_break(text@),
{
    broadcast use vstd::string::group_string_axioms;

    let mut it = text.chars();
    let ghost mut seen: Seq<char> = Seq::empty();
    proof {
        assert(seen + it.remaining() =~= text@);
    }
    loop
        invariant
            seen + it.remaining() == text@,
            !has_line_break(seen),
            it.decrease() is Some,
        decreases it.decrease()->0,
    {
        match it.next() {
            Some(c) => {
                proof {
                    assert(seen.push(c) + it.remaining() =~= text@);
                }
                if c == '\n' || c == '\r' {
                    proof {
                        assert(text@[seen.len() as int] == c);
                    }
                    return true;
                }
                proof {
                    let grown = seen.push(c);
                    assert forall|i: int| 0 <= i < grown.len() implies !(grown[i] == '\n'
                        || grown[i] == '\r') by {
                        if i < seen.len() {
                            assert(grown[i] == seen[i]);
                        }
                    }
                    seen = grown;
                }
            },
            None => {
                proof {
                    assert(seen =~= text@);
                }
                return false;
            },
        }
    }
}

/// Whether the function object `f` can measure a document: each of the
/// documents that it makes of a width denotes what `m` says, stays within the
/// bound `b` and can be rendered.
pub open spec fn user_width_fits<A, F: ColumnFn<A>>(
    f: F,
    m: spec_fn(isize) -> DocV<A>,
    b: nat,
) -> bool {
    forall|w: isize, e: RcDoc<A, F>|
        call_ensures(F::call_width, (&f, w), e) ==> e.0.view() == m(w) && e.0.nodes() <= b
            && e.0.wf()
}

/// Whether `m` is what the function object `f` makes of a width, within some
/// bound.
pub open spec fn user_width_denotes<A, F: ColumnFn<A>>(
    f: F,
    m: spec_fn(isize) -> DocV<A>,
) -> bool {
    exists|b: nat| user_width_fits(f, m, b)
}

/// What a function object makes of a width.
pub open spec fn user_width_model<A, F: ColumnFn<A>>(f: F) -> spec_fn(isize) -> DocV<A> {
    choose|m: spec_fn(isize) -> DocV<A>| user_width_denotes(f, m)
}

/// A bound on the size of what a function object makes of a width.
pub open spec fn user_width_bound<A, F: ColumnFn<A>>(f: F) -> nat {
    choose|b: nat| user_width_fits(f, user_width_model(f), b)
}

/// Whether a column function object is one that a document can hold: each
/// of its results denotes what `m` says, stays within the bound `b` and can
/// be rendered.
pub open spec fn user_fits<A, F: ColumnFn<A>>(
    f: F,
    m: spec_fn(usize) -> DocV<A>,
    b: nat,
) -> bool {
    forall|n: usize, e: RcDoc<A, F>|
        call_ensures(F::call, (&f, n), e) ==> e.0.view() == m(n) && e.0.nodes() <= b && e.0.wf()
}

/// Whether `m` is what the column function object `f` denotes, within some
/// bound.
pub open spec fn user_denotes<A, F: ColumnFn<A>>(f: F, m: spec_fn(usize) -> DocV<A>) -> bool {
    exists|b: nat| user_fits(f, m, b)
}

/// What a column function object denotes.
pub open spec fn user_model<A, F: ColumnFn<A>>(f: F) -> spec_fn(usize) -> DocV<A> {
    choose|m: spec_fn(usize) -> DocV<A>| user_denotes(f, m)
}

/// A bound on the size of what a column function object returns.
pub open spec fn user_bound<A, F: ColumnFn<A>>(f: F) -> nat {
    choose|b: nat| user_fits(f, user_model(f), b)
}

impl<A, F: ColumnFn<A>> RcDoc<A, F> {
    /// An empty document.
    pub fn nil() -> (r: Self)
        ensures
            r@ == DocV::<A>::Nil,
            r.wf(),
    {
        RcDoc::new(Doc::Nil)
    }

    /// A single hardline.
    pub fn hardline() -> (r: Self)
        ensures
            r@ == DocV::<A>::Hardline,
            r.wf(),
    {
        RcDoc::new(Doc::Hardline)
    }

    /// Fails document rendering immediately.
    pub fn fail() -> (r: Self)
        ensures
            r@ == DocV::<A>::Fail,
            r.wf(),
    {
        RcDoc::new(Doc::Fail)
    }

    /// A single space.
    pub fn space() -> (r: Self)
        ensures
            r@ == DocV::<A>::Text(seq![' ']),
            r.wf(),
    {
        let s = " ";
        proof {
            reveal_strlit(" ");
            assert(s@ =~= seq![' ']);
        }
        RcDoc::new(Doc::Text(s.to_owned()))
    }

    /// A line acts like a `\n` but behaves like `space` if it is grouped on a
    /// single line.
    pub fn line() -> (r: Self)
        ensures
            r@ == line_model::<A>(),
            r.wf(),
    {
        Self::hardline().flat_alt(Self::space())
    }

    /// Acts like `line` but behaves like `nil` if grouped on a single line.
    pub fn line_() -> (r: Self)
        ensures
            r@ == crate::model::line__model::<A>(),
            r.wf(),
    {
        Self::hardline().flat_alt(Self::nil())
    }

    /// Acts like `space` if the document fits the page, otherwise like `line`.
    pub fn softline() -> (r: Self)
        ensures
            r@ == softline_model::<A>(),
            r.wf(),
    {
        Self::line().group()
    }

    /// Acts like `nil` if the document fits the page, otherwise like `line_`.
    pub fn softline_() -> (r: Self)
        ensures
            r@ == crate::model::softline__model::<A>(),
            r.wf(),
    {
        Self::line_().group()
    }

    /// The given text, which must not contain line breaks.
    pub fn text(data: &str) -> (r: Self)
        requires
            !has_line_break(data@),
        ensures
            r@ == text_model::<A>(data@),
            r.wf(),
    {
        if data.is_empty() {
            return Self::nil();
        }
        RcDoc::new(Doc::Text(data.to_owned())).with_utf8_len()
    }

    /// The text `data.to_string()`, which must not contain line breaks.
    pub fn as_string<U: std::fmt::Display>(data: U) -> (r: Self)
        requires
            forall|s: String| #[trigger]
                vstd::string::to_string_from_display_ensures::<U>(&data, s) ==> !has_line_break(
                    s@,
                ),
        ensures
            exists|s: String| #[trigger]
                vstd::string::to_string_from_display_ensures::<U>(&data, s) && r@
                    == sized_model::<A>(s@),
            r.wf(),
    {
        let s = data.to_string();
        Self::shown(s.as_str())
    }

    /// The text `data.to_string()`, or `None` where that text holds a line
    /// break.
    pub fn try_as_string<U: std::fmt::Display>(data: U) -> (r: Option<Self>)
        ensures
            exists|s: String| #[trigger]
                vstd::string::to_string_from_display_ensures::<U>(&data, s) && match r {
                    Some(d) => !has_line_break(s@) && d@ == sized_model::<A>(s@) && d.wf(),
                    None => has_line_break(s@),
                },
    {
        let s = data.to_string();
        if contains_line_break(s.as_str()) {
            None
        } else {
            Some(Self::shown(s.as_str()))
        }
    }

    /// What `as_string` makes of the string of its argument: the text with
    /// its display length, held in place where it is short. An empty text
    /// stays a text.
    pub fn shown(text: &str) -> (r: Self)
        requires
            !has_line_break(text@),
        ensures
            r@ == sized_model::<A>(text@),
            r.wf(),
    {
        let mut buf = FmtText::new();
        buf.write_str(text);
        proof {
            assert(buf@ =~= text@);
        }
        let doc = match buf {
            FmtText::Small(b) => Doc::SmallText(b),
            FmtText::Large(b) => Doc::Text(b),
        };
        RcDoc::new(doc).with_utf8_len()
    }

    /// Wraps a text that is not plain ASCII in a node that holds its display
    /// length, the number of its extended grapheme clusters.
    pub fn with_utf8_len(self) -> (r: Self)
        ensures
            r@ == (match self@ {
                DocV::Text(s) => sized_model::<A>(s),
                _ => self@,
            }),
            self.wf() ==> r.wf(),
    {
        let count = match &*self.0 {
            Doc::Text(s) => {
                if s.as_str().is_ascii() {
                    None
                } else {
                    Some(grapheme_count(s.as_str()))
                }
            },
            Doc::SmallText(t) => {
                let s = small_as_str(t);
                if s.is_ascii() {
                    None
                } else {
                    Some(grapheme_count(s))
                }
            },
            _ => None,
        };
        match count {
            Some(n) => RcDoc::new(Doc::RenderLen(n, self)),
            None => self,
        }
    }

    /// The text `true` or `false`.
    pub fn bool(b: bool) -> (r: Self)
        ensures
            r@ == DocV::<A>::Text(if b { "true"@ } else { "false"@ }),
            r.wf(),
    {
        proof {
            reveal_strlit("true");
            reveal_strlit("false");
        }
        if b {
            RcDoc::new(Doc::Text("true".to_owned()))
        } else {
            RcDoc::new(Doc::Text("false".to_owned()))
        }
    }

    /// Append the given document after this document.
    pub fn append(self, that: Self) -> (r: Self)
        ensures
            r@ == append_model(self@, that@),
            self.wf() && that.wf() ==> r.wf(),
            r.0.nodes() <= self.0.nodes() + that.0.nodes() + 1,
    {
        if let Doc::Nil = &*self.0 {
            return that;
        }
        if let Doc::Nil = &*that.0 {
            return self;
        }
        RcDoc::new(Doc::Append(self, that))
    }

    /// Acts as `self` when laid out on multiple lines and acts as `that` when
    /// laid out on a single line.
    pub fn flat_alt(self, that: Self) -> (r: Self)
        ensures
            r@ == DocV::FlatAlt(Box::new(self@), Box::new(that@)),
            self.wf() && that.wf() ==> r.wf(),
    {
        RcDoc::new(Doc::FlatAlt(self, that))
    }

    /// Mark this document as a group.
    ///
    /// Groups are laid out on a single line if possible. A text and the empty
    /// document have one layout only and are left as they are.
    pub fn group(self) -> (r: Self)
        ensures
            r@ == group_model(self@),
            self.wf() ==> r.wf(),
    {
        match &*self.0 {
            Doc::Text(_) => {
                return self;
            },
            Doc::SmallText(_) => {
                return self;
            },
            Doc::Nil => {
                return self;
            },
            _ => {},
        }
        RcDoc::new(Doc::Group(self))
    }

    /// Marks the document with the annotation `ann`.
    pub fn annotate(self, ann: A) -> (r: Self)
        ensures
            r@ == DocV::Annotated(ann, Box::new(self@)),
            self.wf() ==> r.wf(),
    {
        RcDoc::new(Doc::Annotated(ann, self))
    }

    /// Tries `self` first and uses `other` where `self` does not fit.
    pub fn union(self, other: Self) -> (r: Self)
        ensures
            r@ == DocV::Union(Box::new(self@), Box::new(other@)),
            self.wf() && other.wf() ==> r.wf(),
    {
        RcDoc::new(Doc::Union(self, other))
    }

    /// A document that depends on the column it starts at.
    pub fn column(f: F) -> (r: Self)
        ensures
            r@ == DocV::Column(user_model(f), user_bound(f)),
            (exists|m: spec_fn(usize) -> DocV<A>, b: nat| user_fits(f, m, b)) ==> r.wf(),
    {
        proof {
            if exists|m: spec_fn(usize) -> DocV<A>, b: nat| user_fits(f, m, b) {
                let (m, b) = choose|m: spec_fn(usize) -> DocV<A>, b: nat| user_fits(f, m, b);
                assert(user_denotes(f, m));
                assert(user_denotes(f, user_model(f)));
                assert(user_fits(f, user_model(f), user_bound(f)));
            }
        }
        let g = Rc::new(f);
        let r = RcDoc::new(Doc::Column(DocFn::User(g), Ghost(user_model(f)), Ghost(user_bound(f))));
        proof {
            if user_fits(f, user_model(f), user_bound(f)) {
                assert(r.0.wf());
            }
        }
        r
    }

    /// A document that depends on the indentation it is laid out at.
    pub fn nesting(f: F) -> (r: Self)
        ensures
            r@ == DocV::Nesting(user_model(f), user_bound(f)),
            (exists|m: spec_fn(usize) -> DocV<A>, b: nat| user_fits(f, m, b)) ==> r.wf(),
    {
        proof {
            if exists|m: spec_fn(usize) -> DocV<A>, b: nat| user_fits(f, m, b) {
                let (m, b) = choose|m: spec_fn(usize) -> DocV<A>, b: nat| user_fits(f, m, b);
                assert(user_denotes(f, m));
                assert(user_denotes(f, user_model(f)));
                assert(user_fits(f, user_model(f), user_bound(f)));
            }
        }
        let g = Rc::new(f);
        let r = RcDoc::new(Doc::Nesting(DocFn::User(g), Ghost(user_model(f)), Ghost(user_bound(f))));
        proof {
            if user_fits(f, user_model(f), user_bound(f)) {
                assert(r.0.wf());
            }
        }
        r
    }

    /// Lays out `self` and hands the number of columns that it took to `f`,
    /// whose document follows it.
    pub fn width(self, f: F) -> (r: Self)
        ensures
            r@ == DocV::Column(
                width_from_model(self@, user_width_model(f), user_width_bound(f)),
                self@.size() + user_width_bound(f) + 2,
            ),
            self.wf() && (exists|m: spec_fn(isize) -> DocV<A>, b: nat| user_width_fits(f, m, b))
                ==> r.wf(),
    {
        proof {
            self.0.lemma_nodes();
            if exists|m: spec_fn(isize) -> DocV<A>, b: nat| user_width_fits(f, m, b) {
                let (m, b) = choose|m: spec_fn(isize) -> DocV<A>, b: nat| user_width_fits(f, m, b);
                assert(user_width_denotes(f, m));
                assert(user_width_denotes(f, user_width_model(f)));
                assert(user_width_fits(f, user_width_model(f), user_width_bound(f)));
            }
        }
        let ghost after = user_width_model(f);
        let ghost bound = user_width_bound(f);
        let ghost m = width_from_model(self@, after, bound);
        let ghost b = self.0.nodes() + bound + 2;
        let g = Rc::new(f);
        let r = RcDoc::new(
            Doc::Column(DocFn::WidthFrom(self, g, Ghost(after), Ghost(bound)), Ghost(m), Ghost(b)),
        );
        proof {
            if self.wf() && user_width_fits(f, after, bound) {
                assert(r.0.wf());
            }
        }
        r
    }

    /// Lays out `self` with the nesting level set to the current column.
    pub fn align(self) -> (r: Self)
        ensures
            r@ == DocV::Column(align_model(self@), self@.size() + 2),
            self.wf() ==> r.wf(),
    {
        proof {
            self.0.lemma_nodes();
        }
        let ghost m = align_model(self@);
        let ghost b = self.0.nodes() + 2;
        RcDoc::new(Doc::Column(DocFn::Align(self), Ghost(m), Ghost(b)))
    }

    /// Lays out `self` with a nesting level set to the current column plus
    /// `adjust`.
    pub fn hang(self, adjust: isize) -> (r: Self)
        ensures
            r@ == hang_model(adjust, self@),
            self.wf() ==> r.wf(),
    {
        self.nest(adjust).align()
    }

    /// Indents `self` by `adjust` spaces from the current cursor position.
    pub fn indent(self, adjust: usize) -> (r: Self)
        requires
            adjust <= isize::MAX,
        ensures
            r@ == indent_model(adjust, self@),
            self.wf() ==> r.wf(),
    {
        proof {
            reveal_strlit(
                "                                                                                                    ",
            );
        }
        assert(SPACES@ =~= blanks(100));
        assert(SPACES.is_ascii());
        let mut doc = Self::nil();
        let mut remaining = adjust;
        while remaining != 0
            invariant
                SPACES@ == blanks(100),
                SPACES.is_ascii(),
                doc.wf(),
                spaces_model(doc@, remaining as nat) == spaces_model(
                    DocV::<A>::Nil,
                    adjust as nat,
                ),
            decreases remaining,
        {
            let i: usize = if remaining < 100 {
                remaining
            } else {
                100
            };
            let chunk = SPACES.substring_ascii(0, i);
            proof {
                assert(chunk@ =~= blanks(i as nat));
                assert(!has_line_break(chunk@));
            }
            remaining -= i;
            doc = doc.append(Self::text(chunk));
        }
        doc.append(self).hang(adjust as isize)
    }

    /// Reflows `text`, with a `softline` in place of each white space
    /// character.
    pub fn reflow(text: &str) -> (r: Self)
        ensures
            r@ == reflow_model::<A>(text@),
            r.wf(),
    {
        broadcast use vstd::string::group_string_axioms;

        let mut done: Vec<Self> = Vec::new();
        let mut word = String::new();
        let mut it = text.chars();
        let ghost mut seen: Seq<char> = Seq::empty();
        let ghost mut ws: Seq<Seq<char>> = Seq::empty();
        proof {
            assert(seen + it.remaining() =~= text@);
            assert(ws.push(word@) =~= words(seen));
        }
        loop
            invariant
                seen + it.remaining() == text@,
                ws.push(word@) == words(seen),
                ws.len() == done@.len(),
                forall|j: int| 0 <= j < done@.len() ==> (#[trigger] done@[j])@ == text_model::<A>(ws[j]),
                forall|j: int| 0 <= j < done@.len() ==> (#[trigger] done@[j]).wf(),
                !has_line_break(word@),
                it.decrease() is Some,
            decreases it.decrease()->0,
        {
            let ghost before = it.remaining();
            match it.next() {
                Some(c) => {
                    proof {
                        assert(seen.push(c) + it.remaining() =~= text@);
                        assert(seen.push(c).drop_last() =~= seen);
                    }
                    if is_whitespace(c) {
                        let d = Self::text(word.as_str());
                        done.push(d);
                        proof {
                            ws = ws.push(word@);
                        }
                        word = String::new();
                    } else {
                        let ghost w0 = word@;
                        word.append(char_string(c).as_str());
                        proof {
                            assert(word@ =~= w0.push(c));
                            assert(ws.push(w0).drop_last() =~= ws);
                            assert forall|i: int| 0 <= i < word@.len() implies !(word@[i] == '\n'
                                || word@[i] == '\r') by {
                                if i < w0.len() {
                                    assert(word@[i] == w0[i]);
                                }
                            }
                        }
                    }
                    proof {
                        seen = seen.push(c);
                    }
                },
                None => {
                    proof {
                        assert(seen =~= text@);
                    }
                    let d = Self::text(word.as_str());
                    done.push(d);
                    proof {
                        assert(Seq::new(done@.len(), |i: int| done@[i]@) =~= words(
                            text@,
                        ).map_values(|w: Seq<char>| text_model::<A>(w)));
                    }
                    return Self::intersperse(done, Self::softline());
                },
            }
        }
    }

    /// Puts `self` between `before` and `after`.
    pub fn enclose(self, before: Self, after: Self) -> (r: Self)
        ensures
            r@ == append_model(append_model(before@, self@), after@),
            self.wf() && before.wf() && after.wf() ==> r.wf(),
    {
        before.append(self).append(after)
    }

    /// A single document concatenating all the given documents.
    pub fn concat(docs: Vec<Self>) -> (r: Self)
        ensures
            r@ == concat_model(Seq::new(docs@.len(), |i: int| docs@[i]@)),
            (forall|i: int| 0 <= i < docs@.len() ==> docs@[i].wf()) ==> r.wf(),
    {
        let ghost views = Seq::new(docs@.len(), |i: int| docs@[i]@);
        let mut result = Self::nil();
        let mut i: usize = 0;
        proof {
            assert(views.take(0) =~= Seq::<DocV<A>>::empty());
        }
        while i < docs.len()
            invariant
                i <= docs@.len(),
                views == Seq::new(docs@.len(), |i: int| docs@[i]@),
                result@ == concat_model(views.take(i as int)),
                (forall|j: int| 0 <= j < docs@.len() ==> docs@[j].wf()) ==> result.wf(),
            decreases docs@.len() - i,
        {
            proof {
                assert(views.take(i as int + 1).drop_last() =~= views.take(i as int));
            }
            result = result.append(docs[i].clone());
            i += 1;
        }
        proof {
            assert(views.take(i as int) =~= views);
        }
        result
    }

    /// A single document interspersing the given separator between the given
    /// documents: from `[A, B, C]` and `S` it makes `[A, S, B, S, C]`.
    pub fn intersperse(docs: Vec<Self>, separator: Self) -> (r: Self)
        ensures
            r@ == intersperse_model(Seq::new(docs@.len(), |i: int| docs@[i]@), separator@),
            (forall|i: int| 0 <= i < docs@.len() ==> docs@[i].wf()) && separator.wf() ==> r.wf(),
    {
        let ghost views = Seq::new(docs@.len(), |i: int| docs@[i]@);
        if docs.len() == 0 {
            return Self::nil();
        }
        let mut result = docs[0].clone();
        let mut i: usize = 1;
        proof {
            assert(views.take(1)[0] == docs@[0]@);
        }
        while i < docs.len()
            invariant
                1 <= i <= docs@.len(),
                views == Seq::new(docs@.len(), |i: int| docs@[i]@),
                result@ == intersperse_model(views.take(i as int), separator@),
                (forall|j: int| 0 <= j < docs@.len() ==> docs@[j].wf()) && separator.wf()
                    ==> result.wf(),
            decreases docs@.len() - i,
        {
            proof {
                assert(views.take(i as int + 1).drop_last() =~= views.take(i as int));
            }
            result = result.append(separator.clone());
            result = result.append(docs[i].clone());
            i += 1;
        }
        proof {
            assert(views.take(i as int) =~= views);
        }
        result
    }

    /// Puts `self` between single quotes.
    pub fn single_quotes(self) -> (r: Self)
        ensures
            r@ == append_model(
                append_model(DocV::Text(seq!['\'']), self@),
                DocV::Text(seq!['\'']),
            ),
            self.wf() ==> r.wf(),
    {
        let q = "'";
        proof {
            reveal_strlit("'");
            assert(q@ =~= seq!['\'']);
        }
        self.enclose(RcDoc::new(Doc::Text(q.to_owned())), RcDoc::new(Doc::Text(q.to_owned())))
    }

    /// Puts `self` between double quotes.
    pub fn double_quotes(self) -> (r: Self)
        ensures
            r@ == append_model(append_model(DocV::Text(seq!['"']), self@), DocV::Text(seq!['"'])),
            self.wf() ==> r.wf(),
    {
        let q = "\"";
        proof {
            reveal_strlit("\"");
            assert(q@ =~= seq!['"']);
        }
        self.enclose(RcDoc::new(Doc::Text(q.to_owned())), RcDoc::new(Doc::Text(q.to_owned())))
    }

    /// Puts `self` between round brackets.
    pub fn parens(self) -> (r: Self)
        ensures
            r@ == append_model(append_model(DocV::Text(seq!['(']), self@), DocV::Text(seq![')'])),
            self.wf() ==> r.wf(),
    {
        let a = "(";
        let b = ")";
        proof {
            reveal_strlit("(");
            reveal_strlit(")");
            assert(a@ =~= seq!['(']);
            assert(b@ =~= seq![')']);
        }
        self.enclose(RcDoc::new(Doc::Text(a.to_owned())), RcDoc::new(Doc::Text(b.to_owned())))
    }

    /// Puts `self` between angle brackets.
    pub fn angles(self) -> (r: Self)
        ensures
            r@ == append_model(append_model(DocV::Text(seq!['<']), self@), DocV::Text(seq!['>'])),
            self.wf() ==> r.wf(),
    {
        let a = "<";
        let b = ">";
        proof {
            reveal_strlit("<");
            reveal_strlit(">");
            assert(a@ =~= seq!['<']);
            assert(b@ =~= seq!['>']);
        }
        self.enclose(RcDoc::new(Doc::Text(a.to_owned())), RcDoc::new(Doc::Text(b.to_owned())))
    }

    /// Puts `self` between curly brackets.
    pub fn braces(self) -> (r: Self)
        ensures
            r@ == append_model(append_model(DocV::Text(seq!['{']), self@), DocV::Text(seq!['}'])),
            self.wf() ==> r.wf(),
    {
        let a = "{";
        let b = "}";
        proof {
            reveal_strlit("{");
            reveal_strlit("}");
            assert(a@ =~= seq!['{']);
            assert(b@ =~= seq!['}']);
        }
        self.enclose(RcDoc::new(Doc::Text(a.to_owned())), RcDoc::new(Doc::Text(b.to_owned())))
    }

    /// Puts `self` between square brackets.
    pub fn brackets(self) -> (r: Self)
        ensures
            r@ == append_model(append_model(DocV::Text(seq!['[']), self@), DocV::Text(seq![']'])),
            self.wf() ==> r.wf(),
    {
        let a = "[";
        let b = "]";
        proof {
            reveal_strlit("[");
            reveal_strlit("]");
            assert(a@ =~= seq!['[']);
            assert(b@ =~= seq![']']);
        }
        self.enclose(RcDoc::new(Doc::Text(a.to_owned())), RcDoc::new(Doc::Text(b.to_owned())))
    }
}

impl<A, F: ColumnFn<A>> DocFn<A, F> {
    /// What the function of a column node returns at column `n`.
    pub(crate) fn expand_column(
        &self,
        n: usize,
        Ghost(m): Ghost<spec_fn(usize) -> DocV<A>>,
        Ghost(b): Ghost<nat>,
    ) -> (e: RcDoc<A, F>)
        requires
            Doc::Column(*self, Ghost(m), Ghost(b)).wf(),
        ensures
            e@ == m(n),
            e.0.nodes() <= b,
            e.wf(),
    {
        match self {
            DocFn::User(g) => g.call(n),
            DocFn::Align(d) => {
                proof {
                    d.0.lemma_nodes();
                }
                RcDoc::new(
                    Doc::Nesting(
                        DocFn::AlignAt(n, d.clone()),
                        Ghost(align_at_model(n, d@)),
                        Ghost(d.0.nodes() + 1),
                    ),
                )
            },
            DocFn::AlignAt(_, d) => d.clone(),
            DocFn::WidthFrom(d, g, after, bound) => {
                proof {
                    d.0.lemma_nodes();
                }
                let end = RcDoc::new(
                    Doc::Column(
                        DocFn::WidthTo(n, rc_clone(g), Ghost(after@)),
                        Ghost(width_to_model(n, after@)),
                        Ghost(bound@),
                    ),
                );
                d.clone().append(end)
            },
            DocFn::WidthTo(start, g, _) => g.call_width(offset_between(n, *start)),
        }
    }

    /// What the function of a nesting node returns at indentation `n`.
    pub(crate) fn expand_nesting(
        &self,
        n: usize,
        Ghost(m): Ghost<spec_fn(usize) -> DocV<A>>,
        Ghost(b): Ghost<nat>,
    ) -> (e: RcDoc<A, F>)
        requires
            Doc::Nesting(*self, Ghost(m), Ghost(b)).wf(),
        ensures
            e@ == m(n),
            e.0.nodes() <= b,
            e.wf(),
    {
        match self {
            DocFn::User(g) => g.call(n),
            DocFn::Align(d) => d.clone(),
            DocFn::AlignAt(col, d) => d.clone().nest(offset_between(*col, n)),
            DocFn::WidthFrom(d, _, _, _) => d.clone(),
            DocFn::WidthTo(_, g, _) => g.call(n),
        }
    }
}

impl<A, F> Clone for RcDoc<A, F> {
    fn clone(&self) -> (c: Self)
        ensures
            c == *self,
    {
        RcDoc(rc_clone(&self.0))
    }
}

} // verus!
