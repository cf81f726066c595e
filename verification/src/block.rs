//! Blocks: a body between prefixes and suffixes, of which as many as fit are
//! laid out on the first line.

use vstd::prelude::*;
use crate::doc::{ColumnFn, RcDoc};
use crate::model::{append_model, group_model, nest_model, DocV};

verus! {

/// A prefix and a suffix that stand around the body of a block, and whether
/// what follows the prefix is nested.
pub struct Affixes<A, F> {
    pub prefix: RcDoc<A, F>,
    pub suffix: RcDoc<A, F>,
    pub nest: bool,
}

/// What an [`Affixes`] denotes.
pub struct AffixV<A> {
    pub prefix: DocV<A>,
    pub suffix: DocV<A>,
    pub nest: bool,
}

impl<A, F: ColumnFn<A>> Affixes<A, F> {
    /// What the prefix and the suffix denote.
    pub open spec fn view(&self) -> AffixV<A> {
        AffixV { prefix: self.prefix@, suffix: self.suffix@, nest: self.nest }
    }

    /// Both documents can be rendered.
    pub open spec fn wf(&self) -> bool {
        self.prefix.wf() && self.suffix.wf()
    }

    /// A prefix and a suffix, without nesting.
    pub fn new(prefix: RcDoc<A, F>, suffix: RcDoc<A, F>) -> (r: Self)
        ensures
            r.prefix == prefix,
            r.suffix == suffix,
            !r.nest,
    {
        Affixes { prefix, suffix, nest: false }
    }

    /// The same prefix and suffix, with nesting.
    pub fn nest(self) -> (r: Self)
        ensures
            r.prefix == self.prefix,
            r.suffix == self.suffix,
            r.nest,
    {
        let mut this = self;
        this.nest = true;
        this
    }
}

impl<A, F> Clone for Affixes<A, F> {
    fn clone(&self) -> (c: Self)
        ensures
            c == *self,
    {
        Affixes { prefix: self.prefix.clone(), suffix: self.suffix.clone(), nest: self.nest }
    }
}

/// A document that cannot be laid out in break mode: a group that holds it
/// has to fit on its line.
pub open spec fn fail_on_multi_line<A>() -> DocV<A> {
    DocV::FlatAlt(Box::new(DocV::Fail), Box::new(DocV::Nil))
}

/// The prefixes of `aff[from..to]`, appended.
pub open spec fn cat_prefix<A>(aff: Seq<AffixV<A>>, from: int, to: int) -> DocV<A>
    decreases to - from,
{
    if to <= from {
        DocV::Nil
    } else {
        append_model(cat_prefix(aff, from, to - 1), aff[to - 1].prefix)
    }
}

/// The suffixes of `aff[from..to]`, appended.
pub open spec fn cat_suffix<A>(aff: Seq<AffixV<A>>, from: int, to: int) -> DocV<A>
    decreases to - from,
{
    if to <= from {
        DocV::Nil
    } else {
        append_model(cat_suffix(aff, from, to - 1), aff[to - 1].suffix)
    }
}

/// `inner` with the prefixes of `aff[from..to]` put before it, the last one
/// first: each prefix and what follows it make a group, nested by `nest`
/// where the affix says so.
pub open spec fn wrap<A>(
    aff: Seq<AffixV<A>>,
    from: int,
    to: int,
    inner: DocV<A>,
    nest: isize,
) -> DocV<A>
    decreases to - from,
{
    if to <= from {
        inner
    } else {
        let doc = append_model(aff[from].prefix, wrap(aff, from + 1, to, inner, nest));
        group_model(if aff[from].nest { nest_model(nest, doc) } else { doc })
    }
}

/// Whether the prefixes of `aff[..to]` are all empty.
pub open spec fn no_prefix<A>(aff: Seq<AffixV<A>>, to: int) -> bool {
    forall|i: int| 0 <= i < to ==> (#[trigger] aff[i]).prefix is Nil
}

/// The layout that keeps the first `split` prefixes on the first line, which
/// they have to fit on unless there is one only, and puts the others, the
/// body and the suffixes after them.
pub open spec fn alternative<A>(
    aff: Seq<AffixV<A>>,
    body: DocV<A>,
    nest: isize,
    split: int,
) -> DocV<A> {
    let last = split == 1;
    let head = group_model(
        append_model(
            cat_prefix(aff, 0, split),
            if last { DocV::Nil } else { fail_on_multi_line() },
        ),
    );
    let guard = if !last && no_prefix(aff, split) { fail_on_multi_line() } else { DocV::Nil };
    let inner = append_model(
        nest_model(nest, append_model(body, guard)),
        cat_suffix(aff, split, aff.len() as int),
    );
    let tail = group_model(
        append_model(wrap(aff, split, aff.len() as int, inner, nest), cat_suffix(aff, 0, split)),
    );
    append_model(head, tail)
}

/// The layouts for `split`, `split + 1` and so on up to all prefixes on the
/// first line, each one tried when those with more prefixes on the first
/// line do not fit.
pub open spec fn alternatives<A>(
    aff: Seq<AffixV<A>>,
    body: DocV<A>,
    nest: isize,
    split: int,
) -> DocV<A>
    decreases aff.len() - split,
{
    if split >= aff.len() {
        alternative(aff, body, nest, split)
    } else {
        DocV::Union(
            Box::new(alternatives(aff, body, nest, split + 1)),
            Box::new(alternative(aff, body, nest, split)),
        )
    }
}

/// What [`BlockDoc::format`] builds.
pub open spec fn block_model<A>(aff: Seq<AffixV<A>>, body: DocV<A>, nest: isize) -> DocV<A> {
    if aff.len() == 0 {
        body
    } else {
        alternatives(aff, body, nest, 1)
    }
}

/// A body with the prefixes and suffixes that stand around it, from the
/// outermost to the innermost.
pub struct BlockDoc<A, F> {
    pub affixes: Vec<Affixes<A, F>>,
    pub body: RcDoc<A, F>,
}

/// What a sequence of affixes denotes.
pub open spec fn affixes_view<A, F: ColumnFn<A>>(affixes: Seq<Affixes<A, F>>) -> Seq<AffixV<A>> {
    Seq::new(affixes.len(), |i: int| affixes[i]@)
}

/// Every document of `affixes` can be rendered.
pub open spec fn affixes_wf<A, F: ColumnFn<A>>(affixes: Seq<Affixes<A, F>>) -> bool {
    forall|i: int| 0 <= i < affixes.len() ==> (#[trigger] affixes[i]).wf()
}

impl<A, F: ColumnFn<A>> BlockDoc<A, F> {
    /// The prefixes of `affixes[from..to]`, appended.
    fn prefixes(&self, from: usize, to: usize) -> (r: RcDoc<A, F>)
        requires
            from <= to <= self.affixes@.len(),
        ensures
            r@ == cat_prefix(affixes_view(self.affixes@), from as int, to as int),
            affixes_wf(self.affixes@) ==> r.wf(),
    {
        let mut doc = RcDoc::nil();
        let mut i = from;
        while i < to
            invariant
                from <= i <= to <= self.affixes@.len(),
                doc@ == cat_prefix(affixes_view(self.affixes@), from as int, i as int),
                affixes_wf(self.affixes@) ==> doc.wf(),
            decreases to - i,
        {
            doc = doc.append(self.affixes[i].prefix.clone());
            i += 1;
        }
        doc
    }

    /// The suffixes of `affixes[from..to]`, appended.
    fn suffixes(&self, from: usize, to: usize) -> (r: RcDoc<A, F>)
        requires
            from <= to <= self.affixes@.len(),
        ensures
            r@ == cat_suffix(affixes_view(self.affixes@), from as int, to as int),
            affixes_wf(self.affixes@) ==> r.wf(),
    {
        let mut doc = RcDoc::nil();
        let mut i = from;
        while i < to
            invariant
                from <= i <= to <= self.affixes@.len(),
                doc@ == cat_suffix(affixes_view(self.affixes@), from as int, i as int),
                affixes_wf(self.affixes@) ==> doc.wf(),
            decreases to - i,
        {
            doc = doc.append(self.affixes[i].suffix.clone());
            i += 1;
        }
        doc
    }

    /// Whether the prefixes of `affixes[..to]` are all empty.
    fn without_prefix(&self, to: usize) -> (r: bool)
        requires
            to <= self.affixes@.len(),
        ensures
            r == no_prefix(affixes_view(self.affixes@), to as int),
    {
        let mut i: usize = 0;
        while i < to
            invariant
                i <= to <= self.affixes@.len(),
                no_prefix(affixes_view(self.affixes@), i as int),
            decreases to - i,
        {
            match &*self.affixes[i].prefix.0 {
                crate::doc::Doc::Nil => {},
                _ => {
                    assert(!(affixes_view(self.affixes@)[i as int].prefix is Nil));
                    return false;
                },
            }
            i += 1;
        }
        true
    }

    /// The layout that keeps the first `split` prefixes on the first line.
    fn alternative(&self, nest: isize, split: usize) -> (r: RcDoc<A, F>)
        requires
            1 <= split <= self.affixes@.len(),
        ensures
            r@ == alternative(affixes_view(self.affixes@), self.body@, nest, split as int),
            affixes_wf(self.affixes@) && self.body.wf() ==> r.wf(),
    {
        let len = self.affixes.len();
        let last = split == 1;
        let ghost aff = affixes_view(self.affixes@);
        let first_guard = if last {
            RcDoc::nil()
        } else {
            RcDoc::fail().flat_alt(RcDoc::nil())
        };
        let head = self.prefixes(0, split).append(first_guard).group();
        let guard = if !last && self.without_prefix(split) {
            RcDoc::fail().flat_alt(RcDoc::nil())
        } else {
            RcDoc::nil()
        };
        let inner = self.body.clone().append(guard).nest(nest).append(self.suffixes(split, len));
        let mut acc = inner;
        let mut i = len;
        while i > split
            invariant
                split <= i <= len,
                len == self.affixes@.len(),
                aff == affixes_view(self.affixes@),
                acc@ == wrap(aff, i as int, len as int, inner@, nest),
                affixes_wf(self.affixes@) && self.body.wf() ==> acc.wf(),
            decreases i,
        {
            i -= 1;
            let mut doc = self.affixes[i].prefix.clone().append(acc);
            if self.affixes[i].nest {
                doc = doc.nest(nest);
            }
            acc = doc.group();
        }
        let tail = acc.append(self.suffixes(0, split)).group();
        head.append(tail)
    }

    /// Formats the `prefix` and `suffix` documents around the body: the
    /// layout with all prefixes on the first line is tried first, then those
    /// with one prefix fewer on it, down to one.
    pub fn format(self, nest: isize) -> (r: RcDoc<A, F>)
        ensures
            r@ == block_model(affixes_view(self.affixes@), self.body@, nest),
            affixes_wf(self.affixes@) && self.body.wf() ==> r.wf(),
    {
        let len = self.affixes.len();
        if len == 0 {
            return self.body;
        }
        let mut split = len;
        let mut acc = self.alternative(nest, len);
        while split > 1
            invariant
                1 <= split <= len,
                len == self.affixes@.len(),
                acc@ == alternatives(affixes_view(self.affixes@), self.body@, nest, split as int),
                affixes_wf(self.affixes@) && self.body.wf() ==> acc.wf(),
            decreases split,
        {
            split -= 1;
            acc = acc.union(self.alternative(nest, split));
        }
        acc
    }
}

} // verus!
