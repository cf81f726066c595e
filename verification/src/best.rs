//! The layout engine.

use vstd::prelude::*;
use crate::doc::{small_as_str, ColumnFn, Doc, RcDoc};
use crate::layout::{
    fits_doc, fits_next, fitting, flat_start, flip, go, inner_text, layout, lemma_cmds_size_add,
    lemma_cmds_size_push, lemma_flip_size, lemma_spine_size, pop_levels, recompute, run, settle,
    Outcome, St,
};
use crate::model::{cmds_size, sat_indent, spine_first, spine_rest, Cmd, Mode, Out};
use crate::render::{
    fmt_error, io_error_other, other_error, tagged, BufferWrite, Render, RenderAnnotated,
    FAILED,
};

verus! {

/// A pending command of the engine: the indentation, the mode and the
/// document.
pub type ExCmd<'d, A, F> = (usize, Mode, &'d Doc<A, F>);

/// What a sequence of commands denotes.
pub open spec fn cmds_view<'d, A, F>(cmds: Seq<ExCmd<'d, A, F>>) -> Seq<Cmd<A>> {
    Seq::new(cmds.len(), |i: int| (cmds[i].0, cmds[i].1, cmds[i].2.view()))
}

/// Every document of `cmds` can be rendered.
pub open spec fn cmds_ok<'d, A, F: ColumnFn<A>>(cmds: Seq<ExCmd<'d, A, F>>) -> bool {
    forall|i: int| 0 <= i < cmds.len() ==> (#[trigger] cmds[i]).2.wf()
}

/// `typed_arena::Arena`, an arena that holds values of one type and frees
/// them together.
#[verifier::external_type_specification]
#[verifier::external_body]
#[verifier::reject_recursive_types(T)]
pub struct ExArena<T>(typed_arena::Arena<T>);

/// `typed_arena::Arena::alloc`: moves `value` into the arena and hands back a
/// reference to it that lives as long as the arena.
#[verifier::external_body]
pub(crate) fn arena_alloc<'d, T>(arena: &'d typed_arena::Arena<T>, value: T) -> (r: &'d T)
    ensures
        *r == value,
{
    arena.alloc(value)
}

/// `typed_arena::Arena::new`: an arena that holds nothing yet.
#[verifier::external_body]
pub(crate) fn arena_new<T>() -> typed_arena::Arena<T> {
    typed_arena::Arena::new()
}

/// Pushes the leaves of a tree of appends but the leftmost, which is handed
/// back: popping then yields them from left to right.
pub fn append_docs<'d, A, F: ColumnFn<A>>(
    doc: &'d Doc<A, F>,
    ind: usize,
    mode: Mode,
    stack: &mut Vec<ExCmd<'d, A, F>>,
) -> (first: &'d Doc<A, F>)
    requires
        doc.wf(),
    ensures
        first@ == spine_first(doc@),
        first.wf(),
        !(first is Append),
        cmds_view(final(stack)@) == cmds_view(old(stack)@) + spine_rest(doc@, ind, mode),
        final(stack)@.len() >= old(stack)@.len(),
        final(stack)@.take(old(stack)@.len() as int) == old(stack)@,
        cmds_ok(old(stack)@) ==> cmds_ok(final(stack)@),
    decreases doc.nodes(),
{
    let mut cur = doc;
    assert(cmds_view(stack@) + spine_rest(cur@, ind, mode) =~= cmds_view(old(stack)@) + spine_rest(
        doc@,
        ind,
        mode,
    ));
    loop
        invariant
            cur.wf(),
            cur.nodes() <= doc.nodes(),
            spine_first(cur@) == spine_first(doc@),
            cmds_view(stack@) + spine_rest(cur@, ind, mode) == cmds_view(old(stack)@) + spine_rest(
                doc@,
                ind,
                mode,
            ),
            stack@.len() >= old(stack)@.len(),
            stack@.take(old(stack)@.len() as int) == old(stack)@,
            cmds_ok(old(stack)@) ==> cmds_ok(stack@),
        decreases cur.nodes(),
    {
        match cur {
            Doc::Append(l, r) => {
                let ghost before = stack@;
                let d = append_docs(&*r.0, ind, mode, stack);
                let ghost mid = stack@;
                stack.push((ind, mode, d));
                proof {
                    assert(cmds_view(stack@) =~= cmds_view(mid).push((ind, mode, d@)));
                    assert(cmds_view(stack@) + spine_rest(l.0@, ind, mode) =~= cmds_view(before)
                        + spine_rest(cur@, ind, mode));
                    assert(stack@.take(old(stack)@.len() as int) =~= mid.take(
                        before.len() as int,
                    ).take(old(stack)@.len() as int));
                    assert forall|i: int| 0 <= i < stack@.len() && cmds_ok(mid) implies (
                    #[trigger] stack@[i]).2.wf() by {
                        if i < mid.len() {
                            assert(stack@[i] == mid[i]);
                        }
                    }
                }
                cur = &*l.0;
            },
            _ => {
                proof {
                    assert(cmds_view(stack@) + spine_rest(cur@, ind, mode) =~= cmds_view(stack@));
                }
                return cur;
            },
        }
    }
}

/// The state of one render.
#[verifier::reject_recursive_types(A)]
#[verifier::reject_recursive_types(F)]
pub struct Best<'d, A, F> {
    /// The current output column.
    pub pos: usize,
    /// The work still to do; the last command is next.
    pub bcmds: Vec<ExCmd<'d, A, F>>,
    /// The scratch stack of the fitting predicate.
    pub fcmds: Vec<ExCmd<'d, A, F>>,
    /// The heights of `bcmds` at which the open annotations were pushed.
    pub annotation_levels: Vec<usize>,
    /// The target line width.
    pub width: usize,
    /// Where the documents that column and nesting nodes expand to are kept.
    pub temp_arena: &'d typed_arena::Arena<RcDoc<A, F>>,
}

impl<'d, A, F: ColumnFn<A>> Best<'d, A, F> {
    /// Whether what is on `fcmds`, in `mode`, and after it the commands of
    /// `bcmds` below `bidx`, in `Break` mode, fit on the rest of the line.
    #[verifier::rlimit(100)]
    pub(crate) fn fits_rest(&mut self, mode: Mode, bidx: usize, pos: usize, ind: usize) -> (r: bool)
        requires
            cmds_ok(old(self).bcmds@),
            cmds_ok(old(self).fcmds@),
            bidx <= old(self).bcmds.len(),
        ensures
            r == fits_next(
                cmds_view(old(self).fcmds@),
                mode,
                cmds_view(old(self).bcmds@.take(bidx as int)),
                pos,
                ind,
                old(self).width,
            ),
            final(self).bcmds@ == old(self).bcmds@,
            final(self).annotation_levels@ == old(self).annotation_levels@,
            final(self).pos == old(self).pos,
            final(self).width == old(self).width,
            final(self).temp_arena == old(self).temp_arena,
    {
        let mut cmode = mode;
        let mut cidx = bidx;
        let mut cpos = pos;
        let mut cur: Option<&'d Doc<A, F>> = None;
        let ghost target = fits_next(
            cmds_view(self.fcmds@),
            cmode,
            cmds_view(self.bcmds@.take(cidx as int)),
            cpos,
            ind,
            self.width,
        );
        loop
            invariant
                target == fits_next(
                    cmds_view(old(self).fcmds@),
                    mode,
                    cmds_view(old(self).bcmds@.take(bidx as int)),
                    pos,
                    ind,
                    old(self).width,
                ),
                self.bcmds@ == old(self).bcmds@,
                self.annotation_levels@ == old(self).annotation_levels@,
                self.pos == old(self).pos,
                self.width == old(self).width,
                self.temp_arena == old(self).temp_arena,
                cmds_ok(self.bcmds@),
                cmds_ok(self.fcmds@),
                cidx <= self.bcmds.len(),
                cur matches Some(d) ==> d.wf(),
                target == (match cur {
                    Some(d) => fits_doc(
                        d@,
                        cmds_view(self.fcmds@),
                        cmode,
                        cmds_view(self.bcmds@.take(cidx as int)),
                        cpos,
                        ind,
                        self.width,
                    ),
                    None => fits_next(
                        cmds_view(self.fcmds@),
                        cmode,
                        cmds_view(self.bcmds@.take(cidx as int)),
                        cpos,
                        ind,
                        self.width,
                    ),
                }),
            decreases
                    (match cur {
                        Some(d) => d.nodes(),
                        None => 0,
                    }) + cmds_size(cmds_view(self.fcmds@)) + cmds_size(
                        cmds_view(self.bcmds@.take(cidx as int)),
                    ),
                    (if cur is None { 1nat } else { 0nat }),
        {
            let ghost fview = cmds_view(self.fcmds@);
            let ghost rview = cmds_view(self.bcmds@.take(cidx as int));
            let doc: &'d Doc<A, F> = match cur {
                Some(d) => d,
                None => match self.fcmds.pop() {
                    Some(cmd) => {
                        proof {
                            assert(cmds_view(self.fcmds@) =~= fview.drop_last());
                            assert(fview.last().2 == cmd.2@);
                            cmd.2.lemma_nodes();
                        }
                        cmd.2
                    },
                    None => {
                        if cidx == 0 {
                            assert(rview.len() == 0);
                            return true;
                        }
                        cidx -= 1;
                        cmode = Mode::Break;
                        let d = self.bcmds[cidx].2;
                        proof {
                            assert(cmds_view(self.bcmds@.take(cidx as int)) =~= rview.drop_last());
                            assert(rview.last().2 == d@);
                            assert(self.bcmds@[cidx as int].2.wf());
                            d.lemma_nodes();
                        }
                        d
                    },
                },
            };
            let ghost fview = cmds_view(self.fcmds@);
            let ghost rview = cmds_view(self.bcmds@.take(cidx as int));
            assert(target == fits_doc(doc@, fview, cmode, rview, cpos, ind, self.width));
            proof {
                doc.lemma_nodes();
            }
            match doc {
                Doc::Nil => {
                    cur = None;
                },
                Doc::Append(_, _) => {
                    let first = append_docs(doc, ind, cmode, &mut self.fcmds);
                    proof {
                        lemma_spine_size(doc@, ind, cmode);
                        lemma_cmds_size_add(fview, spine_rest(doc@, ind, cmode));
                        first.lemma_nodes();
                    }
                    cur = Some(first);
                },
                Doc::Hardline => {
                    return cmode == Mode::Break;
                },
                Doc::RenderLen(len, _) => {
                    if *len > self.width || cpos > self.width - *len {
                        return false;
                    }
                    cpos += *len;
                    cur = None;
                },
                Doc::Text(s) => {
                    let len = s.as_str().len();
                    if len > self.width || cpos > self.width - len {
                        return false;
                    }
                    cpos += len;
                    cur = None;
                },
                Doc::SmallText(t) => {
                    let len = small_as_str(t).len();
                    if len > self.width || cpos > self.width - len {
                        return false;
                    }
                    cpos += len;
                    cur = None;
                },
                Doc::FlatAlt(b, f) => {
                    proof {
                        b.0.lemma_nodes();
                        f.0.lemma_nodes();
                    }
                    cur = Some(
                        match cmode {
                            Mode::Break => &*b.0,
                            Mode::Flat => &*f.0,
                        },
                    );
                },
                Doc::Column(f, m, b) => {
                    let e = f.expand_column(cpos, Ghost(m@), Ghost(b@));
                    let r = arena_alloc(self.temp_arena, e);
                    proof {
                        r.0.lemma_nodes();
                    }
                    cur = Some(&*r.0);
                },
                Doc::Nesting(f, m, b) => {
                    let e = f.expand_nesting(ind, Ghost(m@), Ghost(b@));
                    let r = arena_alloc(self.temp_arena, e);
                    proof {
                        r.0.lemma_nodes();
                    }
                    cur = Some(&*r.0);
                },
                Doc::Nest(_, d) => {
                    proof {
                        d.0.lemma_nodes();
                    }
                    cur = Some(&*d.0);
                },
                Doc::Group(d) => {
                    proof {
                        d.0.lemma_nodes();
                    }
                    cur = Some(&*d.0);
                },
                Doc::Annotated(_, d) => {
                    proof {
                        d.0.lemma_nodes();
                    }
                    cur = Some(&*d.0);
                },
                Doc::Union(l, _) => {
                    proof {
                        l.0.lemma_nodes();
                    }
                    cur = Some(&*l.0);
                },
                Doc::Fail => {
                    return false;
                },
            }
        }
    }

    /// Whether the group's document `next`, laid out flat from column `pos`,
    /// and the pending commands after it fit on the rest of the line.
    pub fn fitting(&mut self, next: &'d Doc<A, F>, pos: usize, ind: usize) -> (r: bool)
        requires
            cmds_ok(old(self).bcmds@),
            next.wf(),
        ensures
            r == fitting(next@, cmds_view(old(self).bcmds@), pos, ind, old(self).width),
            final(self).bcmds@ == old(self).bcmds@,
            final(self).annotation_levels@ == old(self).annotation_levels@,
            final(self).pos == old(self).pos,
            final(self).width == old(self).width,
            final(self).temp_arena == old(self).temp_arena,
    {
        if pos > self.width {
            return false;
        }
        self.fcmds.clear();
        self.fcmds.push((ind, Mode::Flat, next));
        let bidx = self.bcmds.len();
        proof {
            assert(self.bcmds@.take(bidx as int) =~= self.bcmds@);
            assert(cmds_view(self.fcmds@).drop_last() =~= Seq::<Cmd<A>>::empty());
            assert(cmds_view(self.fcmds@).last().2 == next@);
        }
        self.fits_rest(Mode::Flat, bidx, pos, ind)
    }
}

/// `ind` moved by `off`, held within the range of `usize`.
pub fn indent_by(ind: usize, off: isize) -> (r: usize)
    ensures
        r == sat_indent(ind, off),
{
    if off >= 0 {
        ind.saturating_add(off as usize)
    } else {
        let mag: usize = if off == isize::MIN {
            (isize::MAX as usize) + 1
        } else {
            (-off) as usize
        };
        ind.saturating_sub(mag)
    }
}

/// The heights of the open annotations, as the model counts them.
pub open spec fn levels_view(levels: Seq<usize>) -> Seq<nat> {
    Seq::new(levels.len(), |i: int| levels[i] as nat)
}

impl<'d, A, F: ColumnFn<A>> Best<'d, A, F> {
    /// The state of the render that began when `base` annotations were open
    /// and that has written `out`.
    pub open spec fn st(&self, base: nat, out: Out<A>) -> St<A> {
        St {
            pos: self.pos,
            bcmds: cmds_view(self.bcmds@),
            levels: levels_view(self.annotation_levels@.skip(base as int)),
            out,
        }
    }

    /// What a step of the render that began at height `top` with `base` open
    /// annotations leaves as it was.
    pub open spec fn keeps(&self, before: &Self, top: nat, base: nat) -> bool {
        &&& self.width == before.width
        &&& self.temp_arena == before.temp_arena
        &&& cmds_ok(self.bcmds@)
        &&& self.bcmds@.len() >= top
        &&& self.bcmds@.take(top as int) == before.bcmds@.take(top as int)
        &&& self.annotation_levels@.len() >= base
        &&& self.annotation_levels@.take(base as int) == before.annotation_levels@.take(
            base as int,
        )
    }

    /// Closes the annotations of this render whose content is complete.
    pub(crate) fn settle(&mut self, base: usize, out: &mut BufferWrite<'d, A>, Ghost(top): Ghost<nat>)
        requires
            old(self).keeps(old(self), top, base as nat),
        ensures
            final(self).keeps(old(self), top, base as nat),
            final(self).bcmds@ == old(self).bcmds@,
            final(self).st(base as nat, final(out)@) == settle(
                old(self).st(base as nat, old(out)@),
            ),
    {
        let ghost h = self.bcmds@.len();
        loop
            invariant
                self.keeps(old(self), top, base as nat),
                self.bcmds@ == old(self).bcmds@,
                self.pos == old(self).pos,
                h == self.bcmds@.len(),
                pop_levels(levels_view(self.annotation_levels@.skip(base as int)), out@, h)
                    == pop_levels(
                    levels_view(old(self).annotation_levels@.skip(base as int)),
                    old(out)@,
                    h,
                ),
            decreases self.annotation_levels@.len(),
        {
            let n = self.annotation_levels.len();
            if n <= base || self.annotation_levels[n - 1] != self.bcmds.len() {
                return ;
            }
            let ghost lv = levels_view(self.annotation_levels@.skip(base as int));
            self.annotation_levels.pop();
            out.pop_mark();
            proof {
                assert(levels_view(self.annotation_levels@.skip(base as int)) =~= lv.drop_last());
                assert(self.annotation_levels@.take(base as int) =~= old(
                    self,
                ).annotation_levels@.take(base as int));
            }
        }
    }

    /// Decides anew, after a line break to indentation `ind`, how the flat
    /// commands at the end of `bcmds` are laid out.
    pub(crate) fn recompute(&mut self, top: usize, ind: usize, Ghost(base): Ghost<nat>)
        requires
            old(self).keeps(old(self), top as nat, base),
        ensures
            final(self).keeps(old(self), top as nat, base),
            final(self).annotation_levels@ == old(self).annotation_levels@,
            final(self).pos == old(self).pos,
            cmds_view(final(self).bcmds@) == recompute(
                cmds_view(old(self).bcmds@),
                top as nat,
                ind,
                old(self).width,
            ),
    {
        let len = self.bcmds.len();
        let ghost view0 = cmds_view(self.bcmds@);
        let mut k = len;
        proof {
            assert(view0.take(len as int) =~= view0);
        }
        while k > top && self.bcmds[k - 1].1 != Mode::Break
            invariant
                top <= k <= len,
                len == self.bcmds@.len(),
                self.bcmds@ == old(self).bcmds@,
                view0 == cmds_view(self.bcmds@),
                flat_start(view0.take(k as int), top as nat) == flat_start(view0, top as nat),
            decreases k,
        {
            proof {
                assert(view0.take(k as int).drop_last() =~= view0.take(k as int - 1));
            }
            k -= 1;
        }
        assert(k == flat_start(view0, top as nat));
        if k == len {
            return ;
        }
        self.fcmds.clear();
        let mut i = k;
        while i < len
            invariant
                k <= i <= len,
                len == self.bcmds@.len(),
                self.bcmds@ == old(self).bcmds@,
                self.annotation_levels@ == old(self).annotation_levels@,
                self.pos == old(self).pos,
                self.width == old(self).width,
                self.temp_arena == old(self).temp_arena,
                cmds_ok(self.bcmds@),
                self.fcmds@ == self.bcmds@.subrange(k as int, i as int),
            decreases len - i,
        {
            let c = self.bcmds[i];
            self.fcmds.push(c);
            i += 1;
            proof {
                assert(self.fcmds@ =~= self.bcmds@.subrange(k as int, i as int));
            }
        }
        proof {
            assert(self.fcmds@ =~= self.bcmds@.skip(k as int));
            assert(cmds_view(self.fcmds@) =~= view0.skip(k as int));
            assert(cmds_view(self.bcmds@.take(k as int)) =~= view0.take(k as int));
            assert forall|j: int| 0 <= j < self.fcmds@.len() implies (#[trigger] self.fcmds@[j]).2.wf() by {
                assert(self.fcmds@[j] == self.bcmds@[k + j]);
            }
        }
        let fits = ind <= self.width && self.fits_rest(Mode::Flat, k, ind, ind);
        if fits {
            return ;
        }
        let mut i = k;
        while i < len
            invariant
                top <= k <= i <= len,
                len == self.bcmds@.len(),
                len == old(self).bcmds@.len(),
                self.annotation_levels@ == old(self).annotation_levels@,
                self.pos == old(self).pos,
                self.width == old(self).width,
                self.temp_arena == old(self).temp_arena,
                forall|j: int|
                    0 <= j < len ==> #[trigger] self.bcmds@[j] == (if k <= j < i {
                        (old(self).bcmds@[j].0, Mode::Break, old(self).bcmds@[j].2)
                    } else {
                        old(self).bcmds@[j]
                    }),
            decreases len - i,
        {
            let c = self.bcmds[i];
            self.bcmds.set(i, (c.0, Mode::Break, c.2));
            i += 1;
        }
        proof {
            assert(cmds_view(self.bcmds@) =~= flip(view0, k as nat));
            assert(self.bcmds@.take(top as int) =~= old(self).bcmds@.take(top as int));
            assert forall|j: int| 0 <= j < len implies (#[trigger] self.bcmds@[j]).2.wf() by {
                assert(old(self).bcmds@[j].2.wf());
            }
        }
    }
}

impl<'d, A, F: ColumnFn<A>> Best<'d, A, F> {
    /// Lays out one command as far as the next command or the next leaf. Hands
    /// back the command to go on with, or `None` after a leaf, and whether
    /// every text so far stayed within the width.
    #[verifier::rlimit(100)]
    #[verifier::spinoff_prover]
    pub(crate) fn step(
        &mut self,
        cmd: ExCmd<'d, A, F>,
        top: usize,
        base: usize,
        fits: bool,
        out: &mut BufferWrite<'d, A>,
    ) -> (r: Result<(Option<ExCmd<'d, A, F>>, bool), ()>)
        requires
            old(self).keeps(old(self), top as nat, base as nat),
            cmd.2.wf(),
        ensures
            final(self).keeps(old(self), top as nat, base as nat),
            go(
                old(self).st(base as nat, old(out)@),
                (cmd.0, cmd.1, cmd.2@),
                top as nat,
                fits,
                old(self).width,
            ) == (match r {
                Ok((Some(c), f)) => go(
                    final(self).st(base as nat, final(out)@),
                    (c.0, c.1, c.2@),
                    top as nat,
                    f,
                    old(self).width,
                ),
                Ok((None, f)) => run(
                    final(self).st(base as nat, final(out)@),
                    top as nat,
                    f,
                    old(self).width,
                ),
                Err(_) => Outcome::Failed { out: final(out)@ },
            }),
            match r {
                Ok((Some(c), _)) => c.2.wf() && c.2.nodes() + cmds_size(
                    cmds_view(final(self).bcmds@),
                ) < cmd.2.nodes() + cmds_size(cmds_view(old(self).bcmds@)),
                Ok((None, _)) => cmds_size(cmds_view(final(self).bcmds@)) < cmd.2.nodes()
                    + cmds_size(cmds_view(old(self).bcmds@)),
                Err(_) => true,
            },
        decreases cmd.2.nodes() + cmds_size(cmds_view(old(self).bcmds@)), 0nat,
    {
        let (ind, mode, doc) = cmd;
        let ghost st0 = self.st(base as nat, out@);
        let ghost view0 = cmds_view(self.bcmds@);
        proof {
            doc.lemma_nodes();
        }
        match doc {
            Doc::Nil => {
                self.settle(base, out, Ghost(top as nat));
                Ok((None, fits))
            },
            Doc::Append(_, _) => {
                let first = append_docs(doc, ind, mode, &mut self.bcmds);
                proof {
                    lemma_spine_size(doc@, ind, mode);
                    lemma_cmds_size_add(view0, spine_rest(doc@, ind, mode));
                    first.lemma_nodes();
                    assert(self.bcmds@.take(top as int) =~= old(self).bcmds@.take(top as int));
                }
                Ok((Some((ind, mode, first)), fits))
            },
            Doc::FlatAlt(b, f) => {
                proof {
                    b.0.lemma_nodes();
                    f.0.lemma_nodes();
                }
                let next = match mode {
                    Mode::Break => &*b.0,
                    Mode::Flat => &*f.0,
                };
                Ok((Some((ind, mode, next)), fits))
            },
            Doc::Group(d) => {
                proof {
                    d.0.lemma_nodes();
                }
                let flat = match mode {
                    Mode::Flat => true,
                    Mode::Break => self.fitting(&*d.0, self.pos, ind),
                };
                let next_mode = if flat {
                    Mode::Flat
                } else {
                    Mode::Break
                };
                Ok((Some((ind, next_mode, &*d.0)), fits))
            },
            Doc::Nest(off, d) => {
                proof {
                    d.0.lemma_nodes();
                }
                Ok((Some((indent_by(ind, *off), mode, &*d.0)), fits))
            },
            Doc::Hardline => {
                out.write_line_break(ind);
                self.pos = ind;
                proof {
                    lemma_flip_size(view0, flat_start(view0, top as nat));
                }
                self.recompute(top, ind, Ghost(base as nat));
                self.settle(base, out, Ghost(top as nat));
                Ok((None, fits))
            },
            Doc::RenderLen(len, d) => {
                match &*d.0 {
                    Doc::Text(s) => {
                        out.write_text(s.as_str());
                    },
                    Doc::SmallText(t) => {
                        out.write_text(small_as_str(t));
                    },
                    _ => {},
                }
                self.pos = self.pos.saturating_add(*len);
                let fits = fits && self.pos <= self.width;
                proof {
                    assert(out@.text =~= st0.out.write(inner_text(d.0@)).text);
                }
                self.settle(base, out, Ghost(top as nat));
                Ok((None, fits))
            },
            Doc::Text(s) => {
                out.write_text(s.as_str());
                self.pos = self.pos.saturating_add(s.as_str().len());
                let fits = fits && self.pos <= self.width;
                self.settle(base, out, Ghost(top as nat));
                Ok((None, fits))
            },
            Doc::SmallText(t) => {
                let s = small_as_str(t);
                out.write_text(s);
                self.pos = self.pos.saturating_add(s.len());
                let fits = fits && self.pos <= self.width;
                self.settle(base, out, Ghost(top as nat));
                Ok((None, fits))
            },
            Doc::Annotated(ann, d) => {
                out.push_mark(ann);
                let height = self.bcmds.len();
                self.annotation_levels.push(height);
                proof {
                    d.0.lemma_nodes();
                    assert(levels_view(self.annotation_levels@.skip(base as int)) =~= st0.levels.push(
                        height as nat,
                    ));
                    assert(self.annotation_levels@.take(base as int) =~= old(
                        self,
                    ).annotation_levels@.take(base as int));
                }
                Ok((Some((ind, mode, &*d.0)), fits))
            },
            Doc::Union(l, r) => {
                let pos = self.pos;
                let levels = self.annotation_levels.len();
                let height = self.bcmds.len();
                self.bcmds.push((ind, mode, &*l.0));
                let mut buffer = BufferWrite::new();
                proof {
                    l.0.lemma_nodes();
                    r.0.lemma_nodes();
                    lemma_cmds_size_push(view0, (ind, mode, l.0@));
                    assert(cmds_view(self.bcmds@) =~= view0.push((ind, mode, l.0@)));
                    assert(levels_view(self.annotation_levels@.skip(levels as int)) =~= Seq::<
                        nat,
                    >::empty());
                }
                let ghost mid = *self;
                let arm = self.lay(height, &mut buffer);
                proof {
                    assert(self.bcmds@.take(top as int) =~= mid.bcmds@.take(height as int).take(
                        top as int,
                    ));
                    assert(mid.bcmds@.take(height as int) =~= old(self).bcmds@);
                    assert(self.annotation_levels@.take(base as int) =~= self.annotation_levels@.take(
                        levels as int,
                    ).take(base as int));
                    assert(mid.annotation_levels@.take(levels as int) =~= old(
                        self,
                    ).annotation_levels@);
                }
                match arm {
                    Ok(true) => {
                        self.annotation_levels.truncate(levels);
                        out.absorb(buffer);
                        proof {
                            assert(self.bcmds@ =~= self.bcmds@.take(height as int));
                            assert(self.bcmds@ =~= old(self).bcmds@);
                            assert(self.annotation_levels@ =~= old(self).annotation_levels@);
                        }
                        self.settle(base, out, Ghost(top as nat));
                        Ok((None, fits))
                    },
                    _ => {
                        self.pos = pos;
                        self.bcmds.truncate(height);
                        self.annotation_levels.truncate(levels);
                        proof {
                            assert(self.bcmds@ =~= old(self).bcmds@);
                            assert(self.annotation_levels@ =~= old(self).annotation_levels@);
                        }
                        Ok((Some((ind, mode, &*r.0)), fits))
                    },
                }
            },
            Doc::Column(f, m, b) => {
                let e = f.expand_column(self.pos, Ghost(m@), Ghost(b@));
                let r = arena_alloc(self.temp_arena, e);
                proof {
                    r.0.lemma_nodes();
                }
                Ok((Some((ind, mode, &*r.0)), fits))
            },
            Doc::Nesting(f, m, b) => {
                let e = f.expand_nesting(ind, Ghost(m@), Ghost(b@));
                let r = arena_alloc(self.temp_arena, e);
                proof {
                    r.0.lemma_nodes();
                }
                Ok((Some((ind, mode, &*r.0)), fits))
            },
            Doc::Fail => Err(()),
        }
    }

    /// Lays out the pending commands down to height `top` and records what
    /// they write in `out`, which starts empty. Hands back whether every text
    /// stayed within the width, or an error where a `Fail` node was reached.
    pub(crate) fn lay(&mut self, top: usize, out: &mut BufferWrite<'d, A>) -> (r: Result<bool, ()>)
        requires
            cmds_ok(old(self).bcmds@),
            top <= old(self).bcmds@.len(),
            old(out)@ == Out::<A>::empty(),
        ensures
            final(self).keeps(old(self), top as nat, old(self).annotation_levels@.len()),
            r is Ok ==> final(self).bcmds@.len() == top,
            run(
                old(self).st(old(self).annotation_levels@.len(), Out::empty()),
                top as nat,
                true,
                old(self).width,
            ) == (match r {
                Ok(fits) => Outcome::Done { out: final(out)@, pos: final(self).pos, fits },
                Err(_) => Outcome::Failed { out: final(out)@ },
            }),
        decreases cmds_size(cmds_view(old(self).bcmds@)), 1nat,
    {
        let base = self.annotation_levels.len();
        let ghost target = run(self.st(base as nat, out@), top as nat, true, self.width);
        let mut fits = true;
        let mut cur: Option<ExCmd<'d, A, F>> = None;
        proof {
            assert(self.annotation_levels@.take(base as int) =~= self.annotation_levels@);
        }
        loop
            invariant
                self.keeps(old(self), top as nat, base as nat),
                base == old(self).annotation_levels@.len(),
                cur matches Some(c) ==> c.2.wf(),
                target == run(
                    old(self).st(base as nat, Out::empty()),
                    top as nat,
                    true,
                    old(self).width,
                ),
                target == (match cur {
                    Some(c) => go(
                        self.st(base as nat, out@),
                        (c.0, c.1, c.2@),
                        top as nat,
                        fits,
                        self.width,
                    ),
                    None => run(self.st(base as nat, out@), top as nat, fits, self.width),
                }),
                (match cur {
                    Some(c) => c.2.nodes(),
                    None => 0,
                }) + cmds_size(cmds_view(self.bcmds@)) <= cmds_size(cmds_view(old(self).bcmds@)),
            decreases
                    (match cur {
                        Some(c) => c.2.nodes(),
                        None => 0,
                    }) + cmds_size(cmds_view(self.bcmds@)),
                    (if cur is None { 1nat } else { 0nat }),
        {
            let cmd = match cur {
                Some(c) => c,
                None => {
                    if self.bcmds.len() <= top {
                        return Ok(fits);
                    }
                    let ghost before = cmds_view(self.bcmds@);
                    let ghost all = self.bcmds@;
                    let c = self.bcmds.pop().unwrap();
                    proof {
                        assert(cmds_view(self.bcmds@) =~= before.drop_last());
                        assert(before.last() == (c.0, c.1, c.2@));
                        assert(all[all.len() - 1].2.wf());
                        c.2.lemma_nodes();
                        assert(self.bcmds@.take(top as int) =~= all.take(top as int));
                    }
                    c
                },
            };
            match self.step(cmd, top, base, fits, out) {
                Ok((next, f)) => {
                    cur = next;
                    fits = f;
                },
                Err(_) => {
                    return Err(());
                },
            }
        }
    }

    /// Lays out the pending commands down to height `top` and records what
    /// they write at the end of `out`. Hands back whether every text stayed
    /// within the width, or an error where a `Fail` node was reached; what
    /// was written up to there is then in `out`. The annotations that were
    /// open before the call are the ones that are open after it.
    pub fn best(&mut self, top: usize, out: &mut BufferWrite<'d, A>) -> (r: Result<bool, ()>)
        requires
            cmds_ok(old(self).bcmds@),
            top <= old(self).bcmds@.len(),
        ensures
            final(self).keeps(old(self), top as nat, old(self).annotation_levels@.len()),
            final(self).annotation_levels@ == old(self).annotation_levels@,
            r is Ok ==> final(self).bcmds@.len() == top,
            match run(
                old(self).st(old(self).annotation_levels@.len(), Out::empty()),
                top as nat,
                true,
                old(self).width,
            ) {
                Outcome::Done { out: written, pos, fits } => r == Ok::<bool, ()>(fits) && pos
                    == final(self).pos && final(out)@ == old(out)@.concat(written),
                Outcome::Failed { out: written } => r is Err && final(out)@ == old(out)@.concat(
                    written,
                ),
            },
    {
        let mut buffer = BufferWrite::new();
        let base = self.annotation_levels.len();
        let r = self.lay(top, &mut buffer);
        self.annotation_levels.truncate(base);
        proof {
            assert(self.annotation_levels@ =~= old(self).annotation_levels@);
        }
        out.absorb(buffer);
        r
    }
}

/// Lays out `doc` at `width` and hands back what it writes, with `true`; or,
/// where a `Fail` node is reached outside every union, what was written up
/// to there, with `false`.
pub fn lay_out<'d, A, F: ColumnFn<A>>(
    doc: &'d Doc<A, F>,
    width: usize,
    temp_arena: &'d typed_arena::Arena<RcDoc<A, F>>,
) -> (r: (BufferWrite<'d, A>, bool))
    requires
        doc.wf(),
    ensures
        match layout(doc@, width) {
            Outcome::Done { out, .. } => r.1 && r.0@ == out,
            Outcome::Failed { out } => !r.1 && r.0@ == out,
        },
{
    let mut bcmds: Vec<ExCmd<'d, A, F>> = Vec::new();
    bcmds.push((0, Mode::Break, doc));
    let mut engine = Best {
        pos: 0,
        bcmds,
        fcmds: Vec::new(),
        annotation_levels: Vec::new(),
        width,
        temp_arena,
    };
    let mut buffer = BufferWrite::new();
    proof {
        assert(cmds_view(engine.bcmds@) =~= seq![(0usize, Mode::Break, doc@)]);
        assert(levels_view(engine.annotation_levels@.skip(0)) =~= Seq::<nat>::empty());
    }
    let done = engine.lay(0, &mut buffer);
    (buffer, done.is_ok())
}

/// What a render leaves when a call on its sink failed with `error`: the
/// error is on the sink's record, and the sink has taken what the render
/// writes up to some moment, text and marks alike, and nothing after it.
pub open spec fn sink_failed<'a, A, W: RenderAnnotated<'a, A>>(
    before: W,
    after: W,
    written: Out<A>,
    error: W::Error,
) -> bool {
    &&& after.failed() == Some(error)
    &&& exists|part: Out<A>| #[trigger]
        written.starts_with(part) && after.written() == before.written().concat(
            tagged::<A, W>(part),
        )
}

/// Renders `doc` at `width` into `out`.
///
/// What `doc` writes is handed to `out` in order. The first error of `out`
/// ends the render and is handed back. Where the document reaches a `Fail`
/// node outside every union, what was written up to there is handed to
/// `out`, and the error is the one that `out` has for a failed document.
///
/// A document that writes nothing makes no call of `out`, and so succeeds
/// whatever `out` is; on a sink that never fails, a render fails only with
/// its document. After a call of `out` that failed no call follows: `out`
/// has then taken a first part of what the document writes, and the error
/// that comes back is the one on its record.
pub fn best<'d, A, F: ColumnFn<A>, W>(doc: &'d Doc<A, F>, width: usize, out: &mut W) -> (r: Result<
    (),
    W::Error,
>) where W: for <'b>RenderAnnotated<'b, A>
    requires
        doc.wf(),
    ensures
        match layout(doc@, width) {
            Outcome::Done { out: o, .. } => {
                &&& r is Ok ==> final(out).written() == old(out).written().concat(tagged::<A, W>(o))
                &&& r matches Err(e) ==> sink_failed::<A, W>(*old(out), *final(out), o, e)
                &&& o == Out::<A>::empty() || old(out).never_fails() ==> r is Ok
            },
            Outcome::Failed { out: o } => {
                &&& r matches Err(e) && (sink_failed::<A, W>(*old(out), *final(out), o, e) || {
                    &&& final(out).failed() == old(out).failed()
                    &&& final(out).written() == old(out).written().concat(tagged::<A, W>(o))
                    &&& call_ensures(W::fail_doc, (&*final(out),), e)
                })
                &&& old(out).never_fails() ==> final(out).written() == old(
                    out,
                ).written().concat(tagged::<A, W>(o))
                &&& old(out).never_fails() ==> (r matches Err(e) && call_ensures(
                    W::fail_doc,
                    (&*final(out),),
                    e,
                ))
            },
        },
        r is Ok ==> final(out).failed() == old(out).failed(),
        old(out).never_fails() ==> final(out).never_fails(),
        old(out).consistent() ==> final(out).consistent(),
{
    let arena = arena_new();
    let (buffer, done) = lay_out(doc, width, &arena);
    match buffer.render(out) {
        Ok(()) => {},
        Err(e) => {
            return Err(e);
        },
    }
    if done {
        Ok(())
    } else {
        Err(out.fail_doc())
    }
}

/// A document with the width to render it at.
pub struct PrettyFmt<'d, A, F> {
    pub doc: &'d Doc<A, F>,
    pub width: usize,
}

impl<'d, A, F: ColumnFn<A>> PrettyFmt<'d, A, F> {
    /// The rendered text.
    pub fn to_string(&self) -> (s: String)
        requires
            self.doc.wf(),
            layout(self.doc@, self.width) is Done,
        ensures
            s@ == layout(self.doc@, self.width)->Done_out.text,
    {
        let mut s = String::new();
        let _ = self.doc.render_fmt(self.width, &mut s);
        proof {
            assert(Seq::<char>::empty() + layout(self.doc@, self.width)->Done_out.text =~= layout(
                self.doc@,
                self.width,
            )->Done_out.text);
        }
        s
    }
}

impl<A, F: ColumnFn<A>> Doc<A, F> {
    /// Writes a rendered document to a sink.
    pub fn render_raw<W>(&self, width: usize, out: &mut W) -> (r: Result<(), W::Error>) where
        W: for <'b>RenderAnnotated<'b, A>,

        requires
            self.wf(),
        ensures
            match layout(self@, width) {
                Outcome::Done { out: o, .. } => {
                    &&& r is Ok ==> final(out).written() == old(out).written().concat(tagged::<A, W>(o))
                    &&& r matches Err(e) ==> sink_failed::<A, W>(*old(out), *final(out), o, e)
                    &&& o == Out::<A>::empty() || old(out).never_fails() ==> r is Ok
                },
                Outcome::Failed { out: o } => {
                    &&& r matches Err(e) && (sink_failed::<A, W>(*old(out), *final(out), o, e) || {
                        &&& final(out).failed() == old(out).failed()
                        &&& final(out).written() == old(out).written().concat(tagged::<A, W>(o))
                        &&& call_ensures(W::fail_doc, (&*final(out),), e)
                    })
                    &&& old(out).never_fails() ==> final(out).written() == old(
                        out,
                    ).written().concat(tagged::<A, W>(o))
                    &&& old(out).never_fails() ==> (r matches Err(e) && call_ensures(
                        W::fail_doc,
                        (&*final(out),),
                        e,
                    ))
                },
            },
            r is Ok ==> final(out).failed() == old(out).failed(),
            old(out).never_fails() ==> final(out).never_fails(),
            old(out).consistent() ==> final(out).consistent(),
    {
        best(self, width, out)
    }

    /// Appends the rendered document to a string.
    ///
    /// Fails where the document reaches a `Fail` node outside every union;
    /// what was written up to there is then in `out`.
    pub fn render_fmt(&self, width: usize, out: &mut String) -> (r: Result<(), std::fmt::Error>)
        requires
            self.wf(),
        ensures
            match layout(self@, width) {
                Outcome::Done { out: o, .. } => r is Ok && final(out)@ == old(out)@ + o.text,
                Outcome::Failed { out: o } => r is Err && final(out)@ == old(out)@ + o.text,
            },
    {
        let arena = arena_new();
        let (buffer, done) = lay_out(self, width, &arena);
        buffer.write_into(out);
        if done {
            Ok(())
        } else {
            Err(fmt_error())
        }
    }

    /// Appends the rendered document, as UTF-8, to a byte vector.
    ///
    /// Fails where the document reaches a `Fail` node outside every union,
    /// with the error of kind `Other` that holds [`FAILED`]; what was written
    /// up to there is then in `out`.
    pub fn render(&self, width: usize, out: &mut Vec<u8>) -> (r: Result<(), std::io::Error>)
        requires
            self.wf(),
        ensures
            match layout(self@, width) {
                Outcome::Done { out: o, .. } => r is Ok && final(out)@ == old(out)@
                    + vstd::utf8::encode_utf8(o.text),
                Outcome::Failed { out: o } => r == Err::<(), std::io::Error>(
                    other_error(FAILED@),
                ) && final(out)@ == old(out)@ + vstd::utf8::encode_utf8(o.text),
            },
    {
        let mut s = String::new();
        let done = self.render_fmt(width, &mut s);
        proof {
            match layout(self@, width) {
                Outcome::Done { out: o, .. } => {
                    assert(s@ =~= o.text);
                },
                Outcome::Failed { out: o } => {
                    assert(s@ =~= o.text);
                },
            }
        }
        out.extend_from_slice(s.as_str().as_bytes());
        match done {
            Ok(()) => Ok(()),
            Err(_) => Err(io_error_other(FAILED)),
        }
    }

    /// The document with the width to render it at.
    pub fn pretty<'d>(&'d self, width: usize) -> (p: PrettyFmt<'d, A, F>)
        ensures
            p.doc == self,
            p.width == width,
    {
        PrettyFmt { doc: self, width }
    }
}

impl<A, F: ColumnFn<A>> RcDoc<A, F> {
    /// Writes a rendered document to a sink.
    pub fn render_raw<W>(&self, width: usize, out: &mut W) -> (r: Result<(), W::Error>) where
        W: for <'b>RenderAnnotated<'b, A>,

        requires
            self.wf(),
        ensures
            match layout(self@, width) {
                Outcome::Done { out: o, .. } => {
                    &&& r is Ok ==> final(out).written() == old(out).written().concat(tagged::<A, W>(o))
                    &&& r matches Err(e) ==> sink_failed::<A, W>(*old(out), *final(out), o, e)
                    &&& o == Out::<A>::empty() || old(out).never_fails() ==> r is Ok
                },
                Outcome::Failed { out: o } => {
                    &&& r matches Err(e) && (sink_failed::<A, W>(*old(out), *final(out), o, e) || {
                        &&& final(out).failed() == old(out).failed()
                        &&& final(out).written() == old(out).written().concat(tagged::<A, W>(o))
                        &&& call_ensures(W::fail_doc, (&*final(out),), e)
                    })
                    &&& old(out).never_fails() ==> final(out).written() == old(
                        out,
                    ).written().concat(tagged::<A, W>(o))
                    &&& old(out).never_fails() ==> (r matches Err(e) && call_ensures(
                        W::fail_doc,
                        (&*final(out),),
                        e,
                    ))
                },
            },
            r is Ok ==> final(out).failed() == old(out).failed(),
            old(out).never_fails() ==> final(out).never_fails(),
            old(out).consistent() ==> final(out).consistent(),
    {
        best(&*self.0, width, out)
    }

    /// Appends the rendered document to a string.
    pub fn render_fmt(&self, width: usize, out: &mut String) -> (r: Result<(), std::fmt::Error>)
        requires
            self.wf(),
        ensures
            match layout(self@, width) {
                Outcome::Done { out: o, .. } => r is Ok && final(out)@ == old(out)@ + o.text,
                Outcome::Failed { out: o } => r is Err && final(out)@ == old(out)@ + o.text,
            },
    {
        self.0.render_fmt(width, out)
    }

    /// Appends the rendered document, as UTF-8, to a byte vector.
    ///
    /// Fails where the document reaches a `Fail` node outside every union,
    /// with the error of kind `Other` that holds [`FAILED`]; what was written
    /// up to there is then in `out`.
    pub fn render(&self, width: usize, out: &mut Vec<u8>) -> (r: Result<(), std::io::Error>)
        requires
            self.wf(),
        ensures
            match layout(self@, width) {
                Outcome::Done { out: o, .. } => r is Ok && final(out)@ == old(out)@
                    + vstd::utf8::encode_utf8(o.text),
                Outcome::Failed { out: o } => r == Err::<(), std::io::Error>(
                    other_error(FAILED@),
                ) && final(out)@ == old(out)@ + vstd::utf8::encode_utf8(o.text),
            },
    {
        self.0.render(width, out)
    }

    /// The document with the width to render it at.
    pub fn pretty<'d>(&'d self, width: usize) -> (p: PrettyFmt<'d, A, F>)
        ensures
            p.doc == &*self.0,
            p.width == width,
    {
        PrettyFmt { doc: &*self.0, width }
    }
}

} // verus!
