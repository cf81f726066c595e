//! What the layout engine computes, as functions on the model.

use vstd::prelude::*;
use crate::model::{
    cmds_size, newline, sat_add, sat_indent, spine_first, spine_rest, text_len, Cmd, DocV,
    Mode, Out,
};

verus! {

pub proof fn lemma_cmds_size_push<A>(cmds: Seq<Cmd<A>>, c: Cmd<A>)
    ensures
        cmds_size(cmds.push(c)) == cmds_size(cmds) + c.2.size(),
{
    assert(cmds.push(c).drop_last() =~= cmds);
}

pub proof fn lemma_cmds_size_add<A>(a: Seq<Cmd<A>>, b: Seq<Cmd<A>>)
    ensures
        cmds_size(a + b) == cmds_size(a) + cmds_size(b),
    decreases b.len(),
{
    if b.len() == 0 {
        assert(a + b =~= a);
    } else {
        assert((a + b).drop_last() =~= a + b.drop_last());
        lemma_cmds_size_add(a, b.drop_last());
    }
}

pub proof fn lemma_spine_size<A>(d: DocV<A>, ind: usize, mode: Mode)
    ensures
        spine_first(d).size() + cmds_size(spine_rest(d, ind, mode)) <= d.size(),
        d is Append ==> spine_first(d).size() + cmds_size(spine_rest(d, ind, mode)) < d.size(),
        !(spine_first(d) is Append),
    decreases d,
{
    match d {
        DocV::Append(l, r) => {
            lemma_spine_size(*l, ind, mode);
            lemma_spine_size(*r, ind, mode);
            let a = spine_rest(*r, ind, mode).push((ind, mode, spine_first(*r)));
            lemma_cmds_size_push(spine_rest(*r, ind, mode), (ind, mode, spine_first(*r)));
            lemma_cmds_size_add(a, spine_rest(*l, ind, mode));
        },
        _ => {},
    }
}

/// Whether what is pending fits on the rest of the line: `doc` and then
/// `fcmds` in `mode`, and after them `rest` in `Break` mode, each from its last
/// element down, starting at column `pos`.
pub open spec fn fits_doc<A>(
    doc: DocV<A>,
    fcmds: Seq<Cmd<A>>,
    mode: Mode,
    rest: Seq<Cmd<A>>,
    pos: usize,
    ind: usize,
    width: usize,
) -> bool
    decreases doc.size() + cmds_size(fcmds) + cmds_size(rest), 0nat,
{
    match doc {
        DocV::Nil => fits_next(fcmds, mode, rest, pos, ind, width),
        DocV::Append(_, _) => {
            let pushed = spine_rest(doc, ind, mode);
            proof {
                lemma_spine_size(doc, ind, mode);
                lemma_cmds_size_add(fcmds, pushed);
            }
            fits_doc(spine_first(doc), fcmds + pushed, mode, rest, pos, ind, width)
        },
        DocV::Hardline => mode == Mode::Break,
        DocV::RenderLen(n, _) => {
            if pos + n > width {
                false
            } else {
                fits_next(fcmds, mode, rest, (pos + n) as usize, ind, width)
            }
        },
        DocV::Text(s) => {
            if pos + text_len(s) > width {
                false
            } else {
                fits_next(fcmds, mode, rest, (pos + text_len(s)) as usize, ind, width)
            }
        },
        DocV::FlatAlt(b, f) => fits_doc(
            if mode == Mode::Break { *b } else { *f },
            fcmds,
            mode,
            rest,
            pos,
            ind,
            width,
        ),
        DocV::Column(f, bound) => {
            if f(pos).size() <= bound {
                fits_doc(f(pos), fcmds, mode, rest, pos, ind, width)
            } else {
                false
            }
        },
        DocV::Nesting(f, bound) => {
            if f(ind).size() <= bound {
                fits_doc(f(ind), fcmds, mode, rest, pos, ind, width)
            } else {
                false
            }
        },
        DocV::Nest(_, d) => fits_doc(*d, fcmds, mode, rest, pos, ind, width),
        DocV::Group(d) => fits_doc(*d, fcmds, mode, rest, pos, ind, width),
        DocV::Annotated(_, d) => fits_doc(*d, fcmds, mode, rest, pos, ind, width),
        DocV::Union(l, _) => fits_doc(*l, fcmds, mode, rest, pos, ind, width),
        DocV::Fail => false,
    }
}

/// As [`fits_doc`], with the next document still to be taken from `fcmds`
/// or, when that is empty, from `rest`.
pub open spec fn fits_next<A>(
    fcmds: Seq<Cmd<A>>,
    mode: Mode,
    rest: Seq<Cmd<A>>,
    pos: usize,
    ind: usize,
    width: usize,
) -> bool
    decreases cmds_size(fcmds) + cmds_size(rest), 1nat,
{
    if fcmds.len() > 0 {
        fits_doc(fcmds.last().2, fcmds.drop_last(), mode, rest, pos, ind, width)
    } else if rest.len() > 0 {
        fits_doc(rest.last().2, fcmds, Mode::Break, rest.drop_last(), pos, ind, width)
    } else {
        true
    }
}

/// Whether the group's document `next`, laid out flat from column `pos`, and
/// what is pending on `bcmds` after it reach the end of the line within
/// `width`: the room that is left must never be less than nothing, not at
/// the start either.
pub open spec fn fitting<A>(
    next: DocV<A>,
    bcmds: Seq<Cmd<A>>,
    pos: usize,
    ind: usize,
    width: usize,
) -> bool {
    pos <= width && fits_doc(next, Seq::empty(), Mode::Flat, bcmds, pos, ind, width)
}

/// The state of a render: the column, the pending commands (the last one is
/// next), the heights at which the annotations that are still open were
/// pushed, and what was written so far.
pub struct St<A> {
    pub pos: usize,
    pub bcmds: Seq<Cmd<A>>,
    pub levels: Seq<nat>,
    pub out: Out<A>,
}

/// How a render ends: with what it wrote, the column it stopped at and
/// whether every text stayed within the width; or at a `Fail` node, with what
/// it wrote up to there.
pub enum Outcome<A> {
    Done { out: Out<A>, pos: usize, fits: bool },
    Failed { out: Out<A> },
}

/// Closes the annotations that were opened at `height`.
pub open spec fn pop_levels<A>(levels: Seq<nat>, out: Out<A>, height: nat) -> (Seq<nat>, Out<A>)
    decreases levels.len(),
{
    if levels.len() > 0 && levels.last() == height {
        pop_levels(levels.drop_last(), out.pop(), height)
    } else {
        (levels, out)
    }
}

/// The state once a command is done: the annotations whose content is
/// complete are closed.
pub open spec fn settle<A>(st: St<A>) -> St<A> {
    let p = pop_levels(st.levels, st.out, st.bcmds.len());
    St { levels: p.0, out: p.1, ..st }
}

/// Where the flat commands at the end of `bcmds` begin, looking no lower than
/// `top`.
pub open spec fn flat_start<A>(bcmds: Seq<Cmd<A>>, top: nat) -> nat
    decreases bcmds.len(),
{
    if bcmds.len() <= top || bcmds.last().1 == Mode::Break {
        bcmds.len()
    } else {
        flat_start(bcmds.drop_last(), top)
    }
}

/// `bcmds` with every command from `k` on in `Break` mode.
pub open spec fn flip<A>(bcmds: Seq<Cmd<A>>, k: nat) -> Seq<Cmd<A>> {
    Seq::new(
        bcmds.len(),
        |i: int| if i >= k { (bcmds[i].0, Mode::Break, bcmds[i].2) } else { bcmds[i] },
    )
}

/// The pending commands after a line break to indentation `ind`: the flat
/// commands at the end are kept flat if they still fit on the new line, and
/// are all put in `Break` mode if they do not.
pub open spec fn recompute<A>(bcmds: Seq<Cmd<A>>, top: nat, ind: usize, width: usize) -> Seq<
    Cmd<A>,
> {
    let k = flat_start(bcmds, top);
    if k < bcmds.len() && !(ind <= width && fits_next(
        bcmds.skip(k as int),
        Mode::Flat,
        bcmds.take(k as int),
        ind,
        ind,
        width,
    )) {
        flip(bcmds, k)
    } else {
        bcmds
    }
}

pub proof fn lemma_flip_size<A>(bcmds: Seq<Cmd<A>>, k: nat)
    ensures
        cmds_size(flip(bcmds, k)) == cmds_size(bcmds),
    decreases bcmds.len(),
{
    if bcmds.len() > 0 {
        assert(flip(bcmds, k).drop_last() =~= flip(bcmds.drop_last(), k));
        lemma_flip_size(bcmds.drop_last(), k);
    }
}

pub proof fn lemma_recompute_size<A>(bcmds: Seq<Cmd<A>>, top: nat, ind: usize, width: usize)
    ensures
        cmds_size(recompute(bcmds, top, ind, width)) == cmds_size(bcmds),
        recompute(bcmds, top, ind, width).len() == bcmds.len(),
{
    lemma_flip_size(bcmds, flat_start(bcmds, top));
}

/// The text that a `RenderLen` node writes.
pub open spec fn inner_text<A>(d: DocV<A>) -> Seq<char> {
    match d {
        DocV::Text(s) => s,
        _ => Seq::empty(),
    }
}

/// Lays out the pending commands down to height `top`.
pub open spec fn run<A>(st: St<A>, top: nat, fits: bool, width: usize) -> Outcome<A>
    decreases cmds_size(st.bcmds), 1nat,
{
    if st.bcmds.len() <= top {
        Outcome::Done { out: st.out, pos: st.pos, fits }
    } else {
        go(St { bcmds: st.bcmds.drop_last(), ..st }, st.bcmds.last(), top, fits, width)
    }
}

/// Lays out `cmd` and then the pending commands down to height `top`.
pub open spec fn go<A>(st: St<A>, cmd: Cmd<A>, top: nat, fits: bool, width: usize) -> Outcome<A>
    decreases cmd.2.size() + cmds_size(st.bcmds), 0nat,
{
    let (ind, mode, doc) = cmd;
    match doc {
        DocV::Nil => run(settle(st), top, fits, width),
        DocV::Append(_, _) => {
            let pushed = spine_rest(doc, ind, mode);
            proof {
                lemma_spine_size(doc, ind, mode);
                lemma_cmds_size_add(st.bcmds, pushed);
            }
            go(
                St { bcmds: st.bcmds + pushed, ..st },
                (ind, mode, spine_first(doc)),
                top,
                fits,
                width,
            )
        },
        DocV::FlatAlt(b, f) => go(
            st,
            (ind, mode, if mode == Mode::Break { *b } else { *f }),
            top,
            fits,
            width,
        ),
        DocV::Group(d) => {
            let flat = mode == Mode::Flat || fitting(*d, st.bcmds, st.pos, ind, width);
            go(st, (ind, if flat { Mode::Flat } else { Mode::Break }, *d), top, fits, width)
        },
        DocV::Nest(off, d) => go(st, (sat_indent(ind, off), mode, *d), top, fits, width),
        DocV::Hardline => {
            proof {
                lemma_recompute_size(st.bcmds, top, ind, width);
            }
            run(
                settle(
                    St {
                        pos: ind,
                        bcmds: recompute(st.bcmds, top, ind, width),
                        out: st.out.write(newline(ind)),
                        ..st
                    },
                ),
                top,
                fits,
                width,
            )
        },
        DocV::RenderLen(n, t) => {
            let pos = sat_add(st.pos, n as nat);
            run(
                settle(St { pos, out: st.out.write(inner_text(*t)), ..st }),
                top,
                fits && pos <= width,
                width,
            )
        },
        DocV::Text(s) => {
            let pos = sat_add(st.pos, text_len(s) as nat);
            run(settle(St { pos, out: st.out.write(s), ..st }), top, fits && pos <= width, width)
        },
        DocV::Annotated(a, d) => go(
            St { levels: st.levels.push(st.bcmds.len()), out: st.out.push(a), ..st },
            (ind, mode, *d),
            top,
            fits,
            width,
        ),
        DocV::Union(l, r) => {
            proof {
                lemma_cmds_size_push(st.bcmds, (ind, mode, *l));
            }
            let arm = run(
                St {
                    pos: st.pos,
                    bcmds: st.bcmds.push((ind, mode, *l)),
                    levels: Seq::empty(),
                    out: Out::empty(),
                },
                st.bcmds.len(),
                true,
                width,
            );
            match arm {
                Outcome::Done { out, pos, fits: true } => run(
                    settle(St { pos, out: st.out.concat(out), ..st }),
                    top,
                    fits,
                    width,
                ),
                _ => go(st, (ind, mode, *r), top, fits, width),
            }
        },
        DocV::Column(f, bound) => {
            if f(st.pos).size() <= bound {
                go(st, (ind, mode, f(st.pos)), top, fits, width)
            } else {
                Outcome::Failed { out: st.out }
            }
        },
        DocV::Nesting(f, bound) => {
            if f(ind).size() <= bound {
                go(st, (ind, mode, f(ind)), top, fits, width)
            } else {
                Outcome::Failed { out: st.out }
            }
        },
        DocV::Fail => Outcome::Failed { out: st.out },
    }
}

/// What rendering `doc` at `width` writes, and whether it stayed within the
/// width; `Failed`, with what was written before, where a `Fail` node is
/// reached outside every union.
pub open spec fn layout<A>(doc: DocV<A>, width: usize) -> Outcome<A> {
    run(
        St {
            pos: 0,
            bcmds: seq![(0usize, Mode::Break, doc)],
            levels: Seq::empty(),
            out: Out::empty(),
        },
        0,
        true,
        width,
    )
}

} // verus!
