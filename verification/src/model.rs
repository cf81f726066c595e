//! The mathematical model of a document.

use vstd::prelude::*;

verus! {

/// The two ways a command is laid out: `Break` lets hard line breaks end the
/// line, `Flat` puts everything on one line.
#[derive(Clone, Copy, Debug, PartialEq, Eq, Structural)]
pub enum Mode {
    Break,
    Flat,
}

/// What a document denotes. Text is a sequence of characters, a column or
/// nesting node is a function from a position to a document, together with a
/// bound on the size of what the function returns.
pub enum DocV<A> {
    Nil,
    Append(Box<DocV<A>>, Box<DocV<A>>),
    Group(Box<DocV<A>>),
    FlatAlt(Box<DocV<A>>, Box<DocV<A>>),
    Nest(isize, Box<DocV<A>>),
    Hardline,
    RenderLen(usize, Box<DocV<A>>),
    Text(Seq<char>),
    Annotated(A, Box<DocV<A>>),
    Union(Box<DocV<A>>, Box<DocV<A>>),
    Column(spec_fn(usize) -> DocV<A>, nat),
    Nesting(spec_fn(usize) -> DocV<A>, nat),
    Fail,
}

impl<A> DocV<A> {
    /// The number of nodes, where a column or nesting node counts for one more
    /// than its bound.
    pub open spec fn size(self) -> nat
        decreases self,
    {
        match self {
            DocV::Append(l, r) => 1 + l.size() + r.size(),
            DocV::Group(d) => 1 + d.size(),
            DocV::FlatAlt(b, f) => 1 + b.size() + f.size(),
            DocV::Nest(_, d) => 1 + d.size(),
            DocV::RenderLen(_, d) => 1 + d.size(),
            DocV::Annotated(_, d) => 1 + d.size(),
            DocV::Union(l, r) => 1 + l.size() + r.size(),
            DocV::Column(_, b) => 1 + b,
            DocV::Nesting(_, b) => 1 + b,
            _ => 1,
        }
    }
}

/// The signed distance from `nest` to `col`, held within the range of `isize`.
pub open spec fn align_offset(col: usize, nest: usize) -> isize {
    if col - nest > isize::MAX {
        isize::MAX
    } else if col - nest < isize::MIN {
        isize::MIN
    } else {
        (col - nest) as isize
    }
}

/// `d` nested by `off`, as [`RcDoc::nest`] builds it.
pub open spec fn nest_model<A>(off: isize, d: DocV<A>) -> DocV<A> {
    if d is Nil || off == 0 {
        d
    } else {
        DocV::Nest(off, Box::new(d))
    }
}

/// What the nesting function of an aligned document denotes: the document
/// nested from the indentation up to column `col`.
pub open spec fn align_at_model<A>(col: usize, d: DocV<A>) -> spec_fn(usize) -> DocV<A> {
    |nest: usize| nest_model(align_offset(col, nest), d)
}

/// What the column function of an aligned document denotes.
pub open spec fn align_model<A>(d: DocV<A>) -> spec_fn(usize) -> DocV<A> {
    |col: usize| DocV::Nesting(align_at_model(col, d), d.size() + 1)
}

/// The number of extended grapheme clusters of `s`, as the Unicode text
/// segmentation rules count them.
pub uninterp spec fn grapheme_len(s: Seq<char>) -> usize;

/// Whether `s` holds a line feed or a carriage return.
pub open spec fn has_line_break(s: Seq<char>) -> bool {
    exists|i: int| 0 <= i < s.len() && (s[i] == '\n' || s[i] == '\r')
}

/// The text `s` as a document that knows its display length: the text
/// itself where it is plain ASCII, and else the text wrapped with the number
/// of its extended grapheme clusters.
pub open spec fn sized_model<A>(s: Seq<char>) -> DocV<A> {
    if vstd::utf8::is_ascii_chars(s) {
        DocV::Text(s)
    } else {
        DocV::RenderLen(grapheme_len(s), Box::new(DocV::Text(s)))
    }
}

/// The document of the text `s`: nothing for the empty text, and else the
/// text with its display length.
pub open spec fn text_model<A>(s: Seq<char>) -> DocV<A> {
    if s.len() == 0 {
        DocV::Nil
    } else {
        sized_model(s)
    }
}

/// `a` followed by `b`, where an empty side leaves the other.
pub open spec fn append_model<A>(a: DocV<A>, b: DocV<A>) -> DocV<A> {
    if a is Nil {
        b
    } else if b is Nil {
        a
    } else {
        DocV::Append(Box::new(a), Box::new(b))
    }
}

/// `d` as a group; a text and the empty document are left as they are.
pub open spec fn group_model<A>(d: DocV<A>) -> DocV<A> {
    if d is Text || d is Nil {
        d
    } else {
        DocV::Group(Box::new(d))
    }
}

/// A line break that is a space in flat mode.
pub open spec fn line_model<A>() -> DocV<A> {
    DocV::FlatAlt(Box::new(DocV::Hardline), Box::new(DocV::Text(seq![' '])))
}

/// A line break that is nothing in flat mode.
pub open spec fn line__model<A>() -> DocV<A> {
    DocV::FlatAlt(Box::new(DocV::Hardline), Box::new(DocV::Nil))
}

/// A space if what follows fits, a line break if not.
pub open spec fn softline_model<A>() -> DocV<A> {
    DocV::Group(Box::new(line_model()))
}

/// Nothing if what follows fits, a line break if not.
pub open spec fn softline__model<A>() -> DocV<A> {
    DocV::Group(Box::new(line__model()))
}

/// What the inner column function of a measured document denotes: what
/// `after` makes of the distance from column `start` to the column it is
/// reached at.
pub open spec fn width_to_model<A>(start: usize, after: spec_fn(isize) -> DocV<A>) -> spec_fn(
    usize,
) -> DocV<A> {
    |end: usize| after(align_offset(end, start))
}

/// What the column function of a measured document denotes: the document,
/// followed by the node that reads the column at its end.
pub open spec fn width_from_model<A>(
    d: DocV<A>,
    after: spec_fn(isize) -> DocV<A>,
    bound: nat,
) -> spec_fn(usize) -> DocV<A> {
    |start: usize| append_model(d, DocV::Column(width_to_model(start, after), bound))
}

/// Whether `c` has the Unicode property `White_Space`.
pub uninterp spec fn white_space(c: char) -> bool;

/// The parts of `s` between its white space characters; between two of these
/// that follow each other lies an empty part.
pub open spec fn words(s: Seq<char>) -> Seq<Seq<char>>
    decreases s.len(),
{
    if s.len() == 0 {
        seq![Seq::empty()]
    } else {
        let w = words(s.drop_last());
        if white_space(s.last()) {
            w.push(Seq::empty())
        } else {
            w.drop_last().push(w.last().push(s.last()))
        }
    }
}

/// The words of `s` with a `softline` between each two of them.
pub open spec fn reflow_model<A>(s: Seq<char>) -> DocV<A> {
    intersperse_model(words(s).map_values(|w: Seq<char>| text_model::<A>(w)), softline_model())
}

/// `remaining` spaces appended to `acc`, a hundred at a time.
pub open spec fn spaces_model<A>(acc: DocV<A>, remaining: nat) -> DocV<A>
    decreases remaining,
{
    if remaining == 0 {
        acc
    } else {
        let i = if remaining < 100 { remaining } else { 100 };
        spaces_model(append_model(acc, DocV::Text(blanks(i))), (remaining - i) as nat)
    }
}

/// `d` laid out with the nesting level set to the current column plus
/// `adjust`.
pub open spec fn hang_model<A>(adjust: isize, d: DocV<A>) -> DocV<A> {
    DocV::Column(align_model(nest_model(adjust, d)), nest_model(adjust, d).size() + 2)
}

/// `d` moved `adjust` columns to the right of the current column.
pub open spec fn indent_model<A>(adjust: usize, d: DocV<A>) -> DocV<A> {
    hang_model(adjust as isize, append_model(spaces_model(DocV::Nil, adjust as nat), d))
}

/// The documents of `docs` appended from left to right.
pub open spec fn concat_model<A>(docs: Seq<DocV<A>>) -> DocV<A>
    decreases docs.len(),
{
    if docs.len() == 0 {
        DocV::Nil
    } else {
        append_model(concat_model(docs.drop_last()), docs.last())
    }
}

/// The documents of `docs` appended from left to right with `sep` between
/// each two of them.
pub open spec fn intersperse_model<A>(docs: Seq<DocV<A>>, sep: DocV<A>) -> DocV<A>
    decreases docs.len(),
{
    if docs.len() == 0 {
        DocV::Nil
    } else if docs.len() == 1 {
        docs[0]
    } else {
        append_model(append_model(intersperse_model(docs.drop_last(), sep), sep), docs.last())
    }
}

/// The start or the end of an annotated part.
pub enum Mark<A> {
    Push(A),
    Pop,
}

/// What a render hands to a sink: the text, and the annotation marks, each
/// with the number of characters that were written before it.
pub struct Out<A> {
    pub text: Seq<char>,
    pub marks: Seq<(nat, Mark<A>)>,
}

/// `marks` moved `k` characters to the right.
pub open spec fn shift<A>(marks: Seq<(nat, Mark<A>)>, k: nat) -> Seq<(nat, Mark<A>)> {
    Seq::new(marks.len(), |i: int| ((marks[i].0 + k) as nat, marks[i].1))
}

impl<A> Out<A> {
    /// Nothing written.
    pub open spec fn empty() -> Self {
        Out { text: Seq::empty(), marks: Seq::empty() }
    }

    /// With the text `s` written.
    pub open spec fn write(self, s: Seq<char>) -> Self {
        Out { text: self.text + s, marks: self.marks }
    }

    /// With the start of a part annotated with `a`.
    pub open spec fn push(self, a: A) -> Self {
        Out { text: self.text, marks: self.marks.push((self.text.len(), Mark::Push(a))) }
    }

    /// With the end of the annotated part that was started last.
    pub open spec fn pop(self) -> Self {
        Out { text: self.text, marks: self.marks.push((self.text.len(), Mark::Pop)) }
    }

    /// Whether every mark stands at a place in the text.
    pub open spec fn marks_within(self) -> bool {
        forall|i: int| 0 <= i < self.marks.len() ==> (#[trigger] self.marks[i]).0 <= self.text.len()
    }

    /// Whether `self` begins with `part`: the text and the marks of `part`
    /// are those that `self` begins with, no mark of `part` stands beyond
    /// its text, and no later mark of `self` stands before the end of it.
    /// So `part` is `self` cut off at one moment of its writing.
    pub open spec fn starts_with(self, part: Out<A>) -> bool {
        &&& part.text.len() <= self.text.len()
        &&& part.text == self.text.take(part.text.len() as int)
        &&& part.marks.len() <= self.marks.len()
        &&& part.marks == self.marks.take(part.marks.len() as int)
        &&& part.marks_within()
        &&& forall|i: int|
            part.marks.len() <= i < self.marks.len() ==> (#[trigger] self.marks[i]).0
                >= part.text.len()
    }

    /// With all of `other` written after it.
    pub open spec fn concat(self, other: Out<A>) -> Self {
        Out {
            text: self.text + other.text,
            marks: self.marks + shift(other.marks, self.text.len()),
        }
    }
}

/// A pending command: the indentation, the mode and the document.
pub type Cmd<A> = (usize, Mode, DocV<A>);

/// `n` spaces.
pub open spec fn blanks(n: nat) -> Seq<char> {
    Seq::new(n, |i: int| ' ')
}

/// A line break followed by `ind` spaces.
pub open spec fn newline(ind: usize) -> Seq<char> {
    seq!['\n'] + blanks(ind as nat)
}

/// The number of bytes that `s` takes in UTF-8, which is what a text node
/// advances the column by.
pub open spec fn text_len(s: Seq<char>) -> usize {
    vstd::utf8::encode_utf8(s).len() as usize
}

/// `ind` moved by `off`, held within the range of `usize`.
pub open spec fn sat_indent(ind: usize, off: isize) -> usize {
    if ind + off < 0 {
        0
    } else if ind + off > usize::MAX {
        usize::MAX
    } else {
        (ind + off) as usize
    }
}

/// `pos` advanced by `n`, held within the range of `usize`.
pub open spec fn sat_add(pos: usize, n: nat) -> usize {
    if pos + n > usize::MAX {
        usize::MAX
    } else {
        (pos + n) as usize
    }
}

/// The sizes of the documents of `cmds`, added up.
pub open spec fn cmds_size<A>(cmds: Seq<Cmd<A>>) -> nat
    decreases cmds.len(),
{
    if cmds.len() == 0 {
        0
    } else {
        cmds_size(cmds.drop_last()) + cmds.last().2.size()
    }
}

/// The leftmost document of a tree of appends that is no append itself.
pub open spec fn spine_first<A>(d: DocV<A>) -> DocV<A>
    decreases d,
{
    match d {
        DocV::Append(l, _) => spine_first(*l),
        _ => d,
    }
}

/// The other leaves of a tree of appends, in the order in which they are
/// pushed: the last one pushed is laid out first.
pub open spec fn spine_rest<A>(d: DocV<A>, ind: usize, mode: Mode) -> Seq<Cmd<A>>
    decreases d,
{
    match d {
        DocV::Append(l, r) => spine_rest(*r, ind, mode).push((ind, mode, spine_first(*r)))
            + spine_rest(*l, ind, mode),
        _ => Seq::empty(),
    }
}

} // verus!
