//! Sinks: where the engine writes to.

use vstd::prelude::*;
use vstd::string::{StringExecFns, StringSliceAdditionalSpecFns};
use crate::model::{blanks, newline, text_len, Mark, Out};
use crate::text::nl_spaces;

verus! {

/// `m` with no more of its annotation than that there is one.
pub open spec fn erase_mark<A>(m: Mark<A>) -> Mark<int> {
    match m {
        Mark::Push(_) => Mark::Push(0),
        Mark::Pop => Mark::Pop,
    }
}

/// `out` as a sink records it that does not tell one annotation from
/// another.
pub open spec fn erase<A>(out: Out<A>) -> Out<int> {
    Out {
        text: out.text,
        marks: Seq::new(out.marks.len(), |i: int| (out.marks[i].0, erase_mark(out.marks[i].1))),
    }
}

/// `m` with the tag by which the sink `W` knows its annotation.
pub open spec fn tag_mark<'a, A, W: RenderAnnotated<'a, A>>(m: Mark<A>) -> Mark<int> {
    match m {
        Mark::Push(a) => Mark::Push(W::tag(a)),
        Mark::Pop => Mark::Pop,
    }
}

/// `out` as the sink `W` records it: the text, and the marks with the tag
/// of each annotation.
pub open spec fn tagged<'a, A, W: RenderAnnotated<'a, A>>(out: Out<A>) -> Out<int> {
    Out {
        text: out.text,
        marks: Seq::new(
            out.marks.len(),
            |i: int| (out.marks[i].0, tag_mark::<A, W>(out.marks[i].1)),
        ),
    }
}

/// The operations necessary to render a document.
///
/// `written` is the record of what a sink has taken: the text, and a mark
/// for each start and end of an annotated part, the start with the tag of
/// the annotation that the sink was handed. A call that fails leaves the
/// record as it stood, and its error is on record as `failed`.
pub trait Render {
    type Error;

    /// What the sink was handed so far.
    open spec fn written(&self) -> Out<int> {
        Out::empty()
    }

    /// Whether the sink takes whatever it is handed: every call on such a
    /// sink succeeds and leaves it such a sink. A sink says this of itself;
    /// unless it does, nothing is owed.
    open spec fn never_fails(&self) -> bool {
        false
    }

    /// The error of the call that failed last, where a call has failed.
    open spec fn failed(&self) -> Option<Self::Error> {
        None
    }

    /// Whether what the sink holds agrees with its record. A sink says what
    /// this means for it; every call keeps it.
    open spec fn consistent(&self) -> bool {
        true
    }

    /// Takes some of the characters of `s` from its start and says how many
    /// bytes they are.
    fn write_str(&mut self, s: &str) -> (r: Result<usize, Self::Error>)
        ensures
            r matches Ok(n) ==> n <= text_len(s@) && exists|k: int|
                0 <= k <= s@.len() && n == text_len(#[trigger] s@.take(k))
                    && final(self).written() == old(self).written().write(s@.take(k)),
            r is Ok ==> final(self).failed() == old(self).failed(),
            r matches Err(e) ==> final(self).failed() == Some(e) && final(self).written() == old(
                self,
            ).written(),
            old(self).never_fails() ==> r is Ok && final(self).never_fails(),
            old(self).consistent() ==> final(self).consistent(),
    ;

    /// Takes all of `s`.
    fn write_str_all(&mut self, s: &str) -> (r: Result<(), Self::Error>)
        ensures
            r is Ok ==> final(self).written() == old(self).written().write(s@),
            r is Ok ==> final(self).failed() == old(self).failed(),
            r matches Err(e) ==> final(self).failed() == Some(e) && final(self).written() == old(
                self,
            ).written(),
            old(self).never_fails() ==> r is Ok && final(self).never_fails(),
            old(self).consistent() ==> final(self).consistent(),
    ;

    /// The error of a document that cannot be rendered.
    fn fail_doc(&self) -> Self::Error;
}

/// The operations necessary to write an annotated document.
///
/// A sink knows an annotation by its `tag`, and its record holds the tag of
/// each annotation that it was handed, in the order in which they came. A
/// sink that gives two annotations two tags can so be shown to have been
/// handed the one and not the other.
pub trait RenderAnnotated<'a, A>: Render {
    /// The tag by which the sink's record knows `annotation`. Unless a sink
    /// says otherwise it is the same for all.
    open spec fn tag(annotation: A) -> int {
        0
    }

    /// Starts a part that carries `annotation`.
    fn push_annotation(&mut self, annotation: &'a A) -> (r: Result<(), Self::Error>)
        ensures
            r is Ok ==> final(self).written() == old(self).written().push(Self::tag(*annotation)),
            r is Ok ==> final(self).failed() == old(self).failed(),
            r matches Err(e) ==> final(self).failed() == Some(e) && final(self).written() == old(
                self,
            ).written(),
            old(self).never_fails() ==> r is Ok && final(self).never_fails(),
            old(self).consistent() ==> final(self).consistent(),
    ;

    /// Ends the annotated part that was started last.
    fn pop_annotation(&mut self) -> (r: Result<(), Self::Error>)
        ensures
            r is Ok ==> final(self).written() == old(self).written().pop(),
            r is Ok ==> final(self).failed() == old(self).failed(),
            r matches Err(e) ==> final(self).failed() == Some(e) && final(self).written() == old(
                self,
            ).written(),
            old(self).never_fails() ==> r is Ok && final(self).never_fails(),
            old(self).consistent() ==> final(self).consistent(),
    ;
}

/// A hundred spaces, from which indentation is written.
pub const SPACES: &'static str =
    "                                                                                                    ";

/// Writes `spaces` spaces to `out`, a hundred at a time at most. Where there
/// is nothing to write, `out` is not called.
pub fn write_spaces<W: Render>(spaces: usize, out: &mut W) -> (r: Result<(), W::Error>)
    ensures
        r is Ok ==> final(out).written() == old(out).written().write(blanks(spaces as nat)),
        r is Ok ==> final(out).failed() == old(out).failed(),
        r matches Err(e) ==> final(out).failed() == Some(e) && exists|k: nat|
            k < spaces && final(out).written() == old(out).written().write(#[trigger] blanks(k)),
        spaces == 0 ==> r is Ok,
        old(out).never_fails() ==> r is Ok && final(out).never_fails(),
        old(out).consistent() ==> final(out).consistent(),
{
    proof {
        reveal_strlit(
            "                                                                                                    ",
        );
    }
    assert(SPACES@.len() == 100);
    assert(SPACES@ =~= blanks(100));
    assert(SPACES.is_ascii());
    let mut inserted: usize = 0;
    proof {
        assert(old(out).written().text + blanks(0) =~= old(out).written().text);
    }
    while inserted < spaces
        invariant
            inserted <= spaces,
            SPACES@ == blanks(100),
            SPACES.is_ascii(),
            out.written() == old(out).written().write(blanks(inserted as nat)),
            out.failed() == old(out).failed(),
            old(out).never_fails() ==> out.never_fails(),
            old(out).consistent() ==> out.consistent(),
        decreases spaces - inserted,
    {
        let insert: usize = if spaces - inserted < 100 {
            spaces - inserted
        } else {
            100
        };
        let chunk = SPACES.substring_ascii(0, insert);
        proof {
            assert(chunk@ =~= blanks(insert as nat));
            vstd::utf8::is_ascii_chars_encode_utf8(chunk@);
        }
        let ghost before = out.written();
        let taken = match out.write_str(chunk) {
            Ok(n) => n,
            Err(e) => {
                assert(out.written() == old(out).written().write(blanks(inserted as nat)));
                return Err(e);
            },
        };
        proof {
            let k = choose|k: int|
                0 <= k <= chunk@.len() && taken == text_len(#[trigger] chunk@.take(k))
                    && out.written() == before.write(chunk@.take(k));
            assert(chunk@.take(k) =~= blanks(k as nat));
            vstd::utf8::is_ascii_chars_encode_utf8(blanks(k as nat));
            assert(k == taken);
            assert(before.text + blanks(taken as nat) =~= old(out).written().text + blanks(
                (inserted + taken) as nat,
            ));
        }
        inserted += taken;
        if taken == 0 {
            // A sink that took nothing is handed the whole chunk.
            match out.write_str_all(chunk) {
                Ok(()) => {},
                Err(e) => {
                    assert(out.written() == old(out).written().write(blanks(inserted as nat)));
                    return Err(e);
                },
            }
            proof {
                assert(out.written().text =~= old(out).written().text + blanks(
                    (inserted + insert) as nat,
                ));
            }
            inserted += insert;
        }
    }
    Ok(())
}

/// Writes a line break and `ind` spaces to `out`.
pub fn write_newline<W: Render>(ind: usize, out: &mut W) -> (r: Result<(), W::Error>)
    ensures
        r is Ok ==> final(out).written() == old(out).written().write(newline(ind)),
        r is Ok ==> final(out).failed() == old(out).failed(),
        r matches Err(e) ==> final(out).failed() == Some(e) && exists|k: int|
            0 <= k <= ind && final(out).written() == old(out).written().write(
                #[trigger] newline(ind).take(k),
            ),
        old(out).never_fails() ==> r is Ok && final(out).never_fails(),
        old(out).consistent() ==> final(out).consistent(),
{
    let nl = "\n";
    proof {
        reveal_strlit("\n");
        assert(nl@ =~= seq!['\n']);
    }
    match out.write_str_all(nl) {
        Ok(()) => {},
        Err(e) => {
            proof {
                let w = old(out).written().write(newline(ind).take(0));
                assert(w.text =~= old(out).written().text);
            }
            return Err(e);
        },
    }
    let ghost mid = out.written();
    let r = write_spaces(ind, out);
    proof {
        assert(mid.text + blanks(ind as nat) =~= old(out).written().text + newline(ind));
        if r is Err {
            let k = choose|k: nat|
                k < ind && out.written() == mid.write(#[trigger] blanks(k));
            assert(newline(ind).take(k as int + 1) =~= seq!['\n'] + blanks(k));
            assert(mid.text + blanks(k) =~= old(out).written().text + newline(ind).take(k as int + 1));
        }
    }
    r
}

/// One call that a [`BufferWrite`] has recorded.
pub enum Recorded<'a, A> {
    /// A text.
    Text(String),
    /// A line break followed by that many spaces.
    Newline(usize),
    /// The start of an annotated part.
    Push(&'a A),
    /// The end of the annotated part that was started last.
    Pop,
}

/// A sink that records what it is handed, so that it can be written to
/// another sink later or be dropped.
pub struct BufferWrite<'a, A> {
    pub ops: Vec<Recorded<'a, A>>,
}

/// `out` after one more recorded call.
pub open spec fn record<'a, A>(out: Out<A>, op: Recorded<'a, A>) -> Out<A> {
    match op {
        Recorded::Text(s) => out.write(s@),
        Recorded::Newline(ind) => out.write(newline(ind)),
        Recorded::Push(a) => out.push(*a),
        Recorded::Pop => out.pop(),
    }
}

/// What a sequence of recorded calls has written.
pub open spec fn ops_out<'a, A>(ops: Seq<Recorded<'a, A>>) -> Out<A>
    decreases ops.len(),
{
    if ops.len() == 0 {
        Out::empty()
    } else {
        record(ops_out(ops.drop_last()), ops.last())
    }
}

pub proof fn lemma_concat_record<'a, A>(a: Out<A>, b: Out<A>, op: Recorded<'a, A>)
    ensures
        a.concat(record(b, op)) == record(a.concat(b), op),
{
    let l = a.concat(record(b, op));
    let r = record(a.concat(b), op);
    assert(l.text =~= r.text);
    assert(l.marks =~= r.marks);
}

pub proof fn lemma_ops_out_add<'a, A>(a: Seq<Recorded<'a, A>>, b: Seq<Recorded<'a, A>>)
    ensures
        ops_out(a + b) == ops_out(a).concat(ops_out(b)),
    decreases b.len(),
{
    if b.len() == 0 {
        assert(a + b =~= a);
        let l = ops_out(a).concat(ops_out(b));
        assert(l.text =~= ops_out(a).text);
        assert(l.marks =~= ops_out(a).marks);
    } else {
        assert((a + b).drop_last() =~= a + b.drop_last());
        lemma_ops_out_add(a, b.drop_last());
        lemma_concat_record(ops_out(a), ops_out(b.drop_last()), b.last());
    }
}

/// Every mark of a record stands at a place in its text.
pub proof fn lemma_marks_within<'a, A>(ops: Seq<Recorded<'a, A>>)
    ensures
        ops_out(ops).marks_within(),
    decreases ops.len(),
{
    if ops.len() > 0 {
        lemma_marks_within(ops.drop_last());
    }
}

/// A record begins with what it was before a call was recorded.
pub proof fn lemma_starts_record<'a, A>(o: Out<A>, op: Recorded<'a, A>)
    requires
        o.marks_within(),
    ensures
        record(o, op).starts_with(o),
{
    let r = record(o, op);
    assert(r.text.take(o.text.len() as int) =~= o.text);
    assert(r.marks.take(o.marks.len() as int) =~= o.marks);
}

/// What a record begins with begins with what that began with.
pub proof fn lemma_starts_trans<A>(a: Out<A>, b: Out<A>, c: Out<A>)
    requires
        a.starts_with(b),
        b.starts_with(c),
    ensures
        a.starts_with(c),
{
    assert(a.text.take(c.text.len() as int) =~= b.text.take(c.text.len() as int));
    assert(a.marks.take(c.marks.len() as int) =~= b.marks.take(c.marks.len() as int));
    assert forall|i: int| c.marks.len() <= i < a.marks.len() implies (#[trigger] a.marks[i]).0
        >= c.text.len() by {
        if i < b.marks.len() {
            assert(a.marks[i] == b.marks[i]);
        }
    }
}

/// What the first `i` of the recorded calls wrote is what all of them wrote
/// begins with.
pub proof fn lemma_starts_take<'a, A>(ops: Seq<Recorded<'a, A>>, i: int)
    requires
        0 <= i <= ops.len(),
    ensures
        ops_out(ops).starts_with(ops_out(ops.take(i))),
    decreases ops.len(),
{
    if i == ops.len() {
        assert(ops.take(i) =~= ops);
        let o = ops_out(ops);
        lemma_marks_within(ops);
        assert(o.text.take(o.text.len() as int) =~= o.text);
        assert(o.marks.take(o.marks.len() as int) =~= o.marks);
    } else {
        assert(ops.drop_last().take(i) =~= ops.take(i));
        lemma_starts_take(ops.drop_last(), i);
        lemma_marks_within(ops.drop_last());
        lemma_starts_record(ops_out(ops.drop_last()), ops.last());
        lemma_starts_trans(ops_out(ops), ops_out(ops.drop_last()), ops_out(ops.take(i)));
    }
}

/// Where nothing was written, every recorded call is an empty text.
pub proof fn lemma_silent<'a, A>(ops: Seq<Recorded<'a, A>>, i: int)
    requires
        ops_out(ops) == Out::<A>::empty(),
        0 <= i < ops.len(),
    ensures
        ops[i] matches Recorded::Text(s) && s@.len() == 0,
    decreases ops.len(),
{
    let before = ops_out(ops.drop_last());
    match ops.last() {
        Recorded::Text(s) => {
            assert(before.text + s@ == Seq::<char>::empty());
            assert(before.text =~= Seq::<char>::empty());
            assert(s@ =~= Seq::<char>::empty());
            assert(before == Out::<A>::empty());
            if i < ops.len() - 1 {
                lemma_silent(ops.drop_last(), i);
            }
        },
        Recorded::Newline(ind) => {
            assert((before.text + newline(ind)).len() > 0);
        },
        Recorded::Push(a) => {
            assert(before.push(*a).marks.len() > 0);
        },
        Recorded::Pop => {
            assert(before.pop().marks.len() > 0);
        },
    }
}

proof fn lemma_tagged_record<'a, A, W: RenderAnnotated<'a, A>>(
    w: Out<int>,
    o: Out<A>,
    op: Recorded<'a, A>,
)
    ensures
        w.concat(tagged::<A, W>(record(o, op))) == (match op {
            Recorded::Text(s) => w.concat(tagged::<A, W>(o)).write(s@),
            Recorded::Newline(ind) => w.concat(tagged::<A, W>(o)).write(newline(ind)),
            Recorded::Push(a) => w.concat(tagged::<A, W>(o)).push(W::tag(*a)),
            Recorded::Pop => w.concat(tagged::<A, W>(o)).pop(),
        }),
{
    let l = w.concat(tagged::<A, W>(record(o, op)));
    let r = match op {
        Recorded::Text(s) => w.concat(tagged::<A, W>(o)).write(s@),
        Recorded::Newline(ind) => w.concat(tagged::<A, W>(o)).write(newline(ind)),
        Recorded::Push(a) => w.concat(tagged::<A, W>(o)).push(W::tag(*a)),
        Recorded::Pop => w.concat(tagged::<A, W>(o)).pop(),
    };
    assert(l.text =~= r.text);
    assert(l.marks =~= r.marks);
}

impl<'a, A> BufferWrite<'a, A> {
    /// Everything recorded so far.
    pub open spec fn view(&self) -> Out<A> {
        ops_out(self.ops@)
    }

    /// A sink that has recorded nothing.
    pub fn new() -> (b: Self)
        ensures
            b@ == Out::<A>::empty(),
    {
        BufferWrite { ops: Vec::new() }
    }

    /// Records the text `s`.
    pub fn write_text(&mut self, s: &str)
        ensures
            final(self)@ == old(self)@.write(s@),
    {
        let mut owned = String::new();
        owned.append(s);
        assert(owned@ =~= s@);
        self.ops.push(Recorded::Text(owned));
        assert(self.ops@.drop_last() =~= old(self).ops@);
    }

    /// Records a line break followed by `ind` spaces.
    pub fn write_line_break(&mut self, ind: usize)
        ensures
            final(self)@ == old(self)@.write(newline(ind)),
    {
        self.ops.push(Recorded::Newline(ind));
        assert(self.ops@.drop_last() =~= old(self).ops@);
    }

    /// Records the start of a part annotated with `a`.
    pub fn push_mark(&mut self, a: &'a A)
        ensures
            final(self)@ == old(self)@.push(*a),
    {
        self.ops.push(Recorded::Push(a));
        assert(self.ops@.drop_last() =~= old(self).ops@);
    }

    /// Records the end of the annotated part that was started last.
    pub fn pop_mark(&mut self)
        ensures
            final(self)@ == old(self)@.pop(),
    {
        self.ops.push(Recorded::Pop);
        assert(self.ops@.drop_last() =~= old(self).ops@);
    }

    /// Hands what was recorded to `out`, in the order in which it was
    /// recorded, and stops at the first error of `out`. An empty text is not
    /// handed on, so where nothing was written `out` is not called.
    pub fn render<W: RenderAnnotated<'a, A>>(&self, out: &mut W) -> (r: Result<(), W::Error>)
        ensures
            r is Ok ==> final(out).written() == old(out).written().concat(tagged::<A, W>(self@)),
            r is Ok ==> final(out).failed() == old(out).failed(),
            r matches Err(e) ==> final(out).failed() == Some(e) && exists|part: Out<A>| #[trigger]
                self@.starts_with(part) && final(out).written() == old(out).written().concat(
                    tagged::<A, W>(part),
                ),
            self@ == Out::<A>::empty() ==> r is Ok,
            old(out).never_fails() ==> r is Ok && final(out).never_fails(),
            old(out).consistent() ==> final(out).consistent(),
    {
        let mut i: usize = 0;
        proof {
            assert(self.ops@.take(0) =~= Seq::<Recorded<'a, A>>::empty());
            let w = old(out).written().concat(tagged::<A, W>(ops_out(self.ops@.take(0))));
            assert(w.text =~= old(out).written().text);
            assert(w.marks =~= old(out).written().marks);
        }
        while i < self.ops.len()
            invariant
                i <= self.ops@.len(),
                out.written() == old(out).written().concat(
                    tagged::<A, W>(ops_out(self.ops@.take(i as int))),
                ),
                out.failed() == old(out).failed(),
                old(out).never_fails() ==> out.never_fails(),
                old(out).consistent() ==> out.consistent(),
            decreases self.ops@.len() - i,
        {
            let ghost before = out.written();
            proof {
                if self@ == Out::<A>::empty() {
                    lemma_silent(self.ops@, i as int);
                }
                assert(self.ops@.take(i as int + 1).drop_last() =~= self.ops@.take(i as int));
                assert(self.ops@.take(i as int + 1).last() == self.ops@[i as int]);
                lemma_tagged_record::<A, W>(
                    old(out).written(),
                    ops_out(self.ops@.take(i as int)),
                    self.ops@[i as int],
                );
            }
            let r = match &self.ops[i] {
                Recorded::Text(s) => {
                    if s.as_str().is_empty() {
                        proof {
                            let w = out.written().write(s@);
                            assert(w.text =~= out.written().text);
                        }
                        Ok(())
                    } else {
                        out.write_str_all(s.as_str())
                    }
                },
                Recorded::Newline(ind) => write_newline(*ind, out),
                Recorded::Push(a) => out.push_annotation(*a),
                Recorded::Pop => out.pop_annotation(),
            };
            match r {
                Ok(()) => {},
                Err(e) => {
                    proof {
                        let done = ops_out(self.ops@.take(i as int));
                        lemma_starts_take(self.ops@, i as int);
                        lemma_starts_take(self.ops@, i as int + 1);
                        match self.ops@[i as int] {
                            Recorded::Newline(ind) => {
                                let k = choose|k: int|
                                    0 <= k <= ind && out.written() == before.write(
                                        #[trigger] newline(ind).take(k),
                                    );
                                let part = done.write(newline(ind).take(k));
                                let whole = done.write(newline(ind));
                                lemma_marks_within(self.ops@.take(i as int));
                                assert(whole.text.take(part.text.len() as int) =~= part.text);
                                assert(whole.marks.take(part.marks.len() as int) =~= part.marks);
                                assert(whole.starts_with(part));
                                lemma_starts_trans(self@, whole, part);
                                let w = old(out).written().concat(tagged::<A, W>(part));
                                assert(w.text =~= out.written().text);
                                assert(w.marks =~= out.written().marks);
                                assert(self@.starts_with(part) && out.written() == old(
                                    out,
                                ).written().concat(tagged::<A, W>(part)));
                            },
                            _ => {
                                assert(self@.starts_with(done) && out.written() == old(
                                    out,
                                ).written().concat(tagged::<A, W>(done)));
                            },
                        }
                    }
                    return Err(e);
                },
            }
            i += 1;
        }
        proof {
            assert(self.ops@.take(i as int) =~= self.ops@);
        }
        Ok(())
    }

    /// Appends the text that was recorded to `out`; the annotations leave
    /// nothing there.
    pub fn write_into(&self, out: &mut String)
        ensures
            final(out)@ == old(out)@ + self@.text,
    {
        let mut i: usize = 0;
        proof {
            assert(self.ops@.take(0) =~= Seq::<Recorded<'a, A>>::empty());
            assert(old(out)@ + ops_out(self.ops@.take(0)).text =~= old(out)@);
        }
        while i < self.ops.len()
            invariant
                i <= self.ops@.len(),
                out@ == old(out)@ + ops_out(self.ops@.take(i as int)).text,
            decreases self.ops@.len() - i,
        {
            proof {
                assert(self.ops@.take(i as int + 1).drop_last() =~= self.ops@.take(i as int));
                assert(self.ops@.take(i as int + 1).last() == self.ops@[i as int]);
            }
            match &self.ops[i] {
                Recorded::Text(s) => {
                    out.append(s.as_str());
                },
                Recorded::Newline(ind) => {
                    let nl = nl_spaces(*ind);
                    out.append(nl.as_str());
                },
                Recorded::Push(_) => {},
                Recorded::Pop => {},
            }
            proof {
                assert(out@ =~= old(out)@ + ops_out(self.ops@.take(i as int + 1)).text);
            }
            i += 1;
        }
        proof {
            assert(self.ops@.take(i as int) =~= self.ops@);
        }
    }

    /// Moves what `other` has recorded to the end of this sink.
    pub fn absorb(&mut self, other: BufferWrite<'a, A>)
        ensures
            final(self)@ == old(self)@.concat(other@),
    {
        let mut other = other;
        proof {
            lemma_ops_out_add(self.ops@, other.ops@);
        }
        self.ops.append(&mut other.ops);
    }
}

impl<'a, A> Render for BufferWrite<'a, A> {
    type Error = ();

    open spec fn written(&self) -> Out<int> {
        erase(self@)
    }

    open spec fn never_fails(&self) -> bool {
        true
    }

    fn write_str(&mut self, s: &str) -> (r: Result<usize, ()>)
        ensures
            r is Ok,
            final(self)@ == old(self)@.write(s@),
    {
        self.write_text(s);
        proof {
            assert(s@.take(s@.len() as int) =~= s@);
            assert(erase(self@).marks =~= old(self).written().write(s@).marks);
        }
        Ok(s.len())
    }

    fn write_str_all(&mut self, s: &str) -> (r: Result<(), ()>)
        ensures
            r is Ok,
            final(self)@ == old(self)@.write(s@),
    {
        self.write_text(s);
        proof {
            assert(erase(self@).marks =~= old(self).written().write(s@).marks);
        }
        Ok(())
    }

    fn fail_doc(&self) -> () {
    }
}

impl<'a, A> RenderAnnotated<'a, A> for BufferWrite<'a, A> {
    fn push_annotation(&mut self, annotation: &'a A) -> (r: Result<(), ()>)
        ensures
            r is Ok,
            final(self)@ == old(self)@.push(*annotation),
    {
        self.push_mark(annotation);
        proof {
            assert(erase(self@).marks =~= old(self).written().push(0).marks);
        }
        Ok(())
    }

    fn pop_annotation(&mut self) -> (r: Result<(), ()>)
        ensures
            r is Ok,
            final(self)@ == old(self)@.pop(),
    {
        self.pop_mark();
        proof {
            assert(erase(self@).marks =~= old(self).written().pop().marks);
        }
        Ok(())
    }
}

/// `std::fmt::Error`, the error of a formatter.
#[verifier::external_type_specification]
#[verifier::external_body]
pub struct ExFmtError(std::fmt::Error);

/// `std::io::Error`, the error of a byte writer.
#[verifier::external_type_specification]
#[verifier::external_body]
pub struct ExIoError(std::io::Error);

/// `std::fmt::Error`: the one value of that type.
#[verifier::external_body]
pub(crate) fn fmt_error() -> std::fmt::Error {
    std::fmt::Error
}

/// What `std::io::Error::new` makes of the kind `Other` and the message
/// `message`.
pub uninterp spec fn other_error(message: Seq<char>) -> std::io::Error;

/// `std::io::Error::new`: an error of kind `Other` that holds `message`.
#[verifier::external_body]
pub(crate) fn io_error_other(message: &str) -> (e: std::io::Error)
    ensures
        e == other_error(message@),
{
    std::io::Error::new(std::io::ErrorKind::Other, message)
}

/// What the error of a failed document says.
pub const FAILED: &'static str = "Document failed to render";

/// Writes to a string. What the string holds is the text of the sink's
/// record; the annotation marks leave nothing in it and are kept beside it.
pub struct FmtWrite<W> {
    pub upstream: W,
    pub marks: Ghost<Seq<(nat, Mark<int>)>>,
}

impl<W> FmtWrite<W> {
    /// A sink that writes to `upstream`.
    pub fn new(upstream: W) -> (w: FmtWrite<W>)
        ensures
            w.upstream == upstream,
            w.marks@ == Seq::<(nat, Mark<int>)>::empty(),
    {
        FmtWrite { upstream, marks: Ghost(Seq::empty()) }
    }
}

impl Render for FmtWrite<String> {
    type Error = std::fmt::Error;

    open spec fn written(&self) -> Out<int> {
        Out { text: self.upstream@, marks: self.marks@ }
    }

    open spec fn never_fails(&self) -> bool {
        true
    }

    fn write_str(&mut self, s: &str) -> (r: Result<usize, std::fmt::Error>)
        ensures
            r is Ok,
            final(self).written() == old(self).written().write(s@),
    {
        self.upstream.append(s);
        proof {
            assert(s@.take(s@.len() as int) =~= s@);
        }
        Ok(s.len())
    }

    fn write_str_all(&mut self, s: &str) -> (r: Result<(), std::fmt::Error>)
        ensures
            r is Ok,
    {
        self.upstream.append(s);
        Ok(())
    }

    fn fail_doc(&self) -> std::fmt::Error {
        fmt_error()
    }
}

impl<'a, A> RenderAnnotated<'a, A> for FmtWrite<String> {
    fn push_annotation(&mut self, annotation: &'a A) -> (r: Result<(), std::fmt::Error>)
        ensures
            r is Ok,
    {
        let ghost at = self.upstream@.len();
        self.marks = Ghost(self.marks@.push((at, Mark::Push(0))));
        Ok(())
    }

    fn pop_annotation(&mut self) -> Result<(), std::fmt::Error>
        returns
            Ok::<(), std::fmt::Error>(()),
    {
        let ghost at = self.upstream@.len();
        self.marks = Ghost(self.marks@.push((at, Mark::Pop)));
        Ok(())
    }
}

/// The encoding of a text in two parts is the encodings of the parts.
pub proof fn lemma_encode_add(a: Seq<char>, b: Seq<char>)
    ensures
        vstd::utf8::encode_utf8(a + b) == vstd::utf8::encode_utf8(a) + vstd::utf8::encode_utf8(b),
    decreases a.len(),
{
    if a.len() == 0 {
        assert(a + b =~= b);
        assert(vstd::utf8::encode_utf8(a) + vstd::utf8::encode_utf8(b) =~= vstd::utf8::encode_utf8(
            b,
        ));
    } else {
        assert((a + b).drop_first() =~= a.drop_first() + b);
        lemma_encode_add(a.drop_first(), b);
        assert(vstd::utf8::encode_utf8(a + b) =~= vstd::utf8::encode_utf8(a)
            + vstd::utf8::encode_utf8(b));
    }
}

/// Writes to a byte writer. The sink is consistent where the bytes that it
/// holds are the UTF-8 encoding of the text of its record, as they are when
/// it starts from no bytes.
pub struct IoWrite<W> {
    pub upstream: W,
    pub record: Ghost<Out<int>>,
}

impl<W> IoWrite<W> {
    /// A sink that writes to `upstream`.
    pub fn new(upstream: W) -> (w: IoWrite<W>)
        ensures
            w.upstream == upstream,
            w.record@ == Out::<int>::empty(),
    {
        IoWrite { upstream, record: Ghost(Out::empty()) }
    }
}

impl Render for IoWrite<Vec<u8>> {
    type Error = std::io::Error;

    open spec fn written(&self) -> Out<int> {
        self.record@
    }

    open spec fn never_fails(&self) -> bool {
        true
    }

    open spec fn consistent(&self) -> bool {
        self.upstream@ == vstd::utf8::encode_utf8(self.record@.text)
    }

    fn write_str(&mut self, s: &str) -> (r: Result<usize, std::io::Error>)
        ensures
            r is Ok,
            final(self).upstream@ == old(self).upstream@ + s.spec_bytes(),
    {
        proof {
            lemma_encode_add(self.record@.text, s@);
        }
        self.upstream.extend_from_slice(s.as_bytes());
        self.record = Ghost(self.record@.write(s@));
        proof {
            assert(s@.take(s@.len() as int) =~= s@);
            assert(s.spec_bytes() == vstd::utf8::encode_utf8(s@));
            if old(self).consistent() {
                assert(self.upstream@ =~= vstd::utf8::encode_utf8(old(self).record@.text + s@));
            }
        }
        Ok(s.len())
    }

    fn write_str_all(&mut self, s: &str) -> (r: Result<(), std::io::Error>)
        ensures
            r is Ok,
            final(self).upstream@ == old(self).upstream@ + s.spec_bytes(),
    {
        proof {
            lemma_encode_add(self.record@.text, s@);
        }
        self.upstream.extend_from_slice(s.as_bytes());
        self.record = Ghost(self.record@.write(s@));
        proof {
            assert(s.spec_bytes() == vstd::utf8::encode_utf8(s@));
            if old(self).consistent() {
                assert(self.upstream@ =~= vstd::utf8::encode_utf8(old(self).record@.text + s@));
            }
        }
        Ok(())
    }

    fn fail_doc(&self) -> (e: std::io::Error)
        ensures
            e == other_error(FAILED@),
    {
        io_error_other(FAILED)
    }
}

impl<'a, A> RenderAnnotated<'a, A> for IoWrite<Vec<u8>> {
    fn push_annotation(&mut self, annotation: &'a A) -> (r: Result<(), std::io::Error>)
        ensures
            r is Ok,
            final(self).upstream@ == old(self).upstream@,
    {
        self.record = Ghost(self.record@.push(0));
        Ok(())
    }

    fn pop_annotation(&mut self) -> Result<(), std::io::Error>
        returns
            Ok::<(), std::io::Error>(()),
    {
        self.record = Ghost(self.record@.pop());
        Ok(())
    }
}

} // verus!
