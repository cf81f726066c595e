//! Laws of the combinators and of the layout.

use vstd::prelude::*;
use crate::layout::{
    fits_doc, fits_next, fitting, flat_start, go, layout, lemma_cmds_size_add,
    lemma_cmds_size_push, lemma_recompute_size, lemma_spine_size, pop_levels, recompute, run,
    settle, Outcome, St,
};
use crate::render::{tag_mark, tagged, RenderAnnotated};
use crate::model::{
    append_model, cmds_size, nest_model, newline, sat_add, sat_indent, shift, spine_first,
    spine_rest, text_model, Cmd, DocV, Mark, Mode, Out,
};

verus! {

/// The empty document is the identity of `append`, on either side.
pub proof fn law_nil_identity<A>(d: DocV<A>)
    ensures
        append_model(DocV::Nil, d) == d,
        append_model(d, DocV::Nil) == d,
{
}

/// However appends are nested, the same leaves are pushed in the same order.
pub proof fn lemma_spine_assoc<A>(a: DocV<A>, b: DocV<A>, c: DocV<A>, ind: usize, mode: Mode)
    ensures
        spine_first(DocV::Append(Box::new(DocV::Append(Box::new(a), Box::new(b))), Box::new(c)))
            == spine_first(
            DocV::Append(Box::new(a), Box::new(DocV::Append(Box::new(b), Box::new(c)))),
        ),
        spine_rest(
            DocV::Append(Box::new(DocV::Append(Box::new(a), Box::new(b))), Box::new(c)),
            ind,
            mode,
        ) == spine_rest(
            DocV::Append(Box::new(a), Box::new(DocV::Append(Box::new(b), Box::new(c)))),
            ind,
            mode,
        ),
{
    reveal_with_fuel(spine_first, 3);
    reveal_with_fuel(spine_rest, 3);
    let l = spine_rest(
        DocV::Append(Box::new(DocV::Append(Box::new(a), Box::new(b))), Box::new(c)),
        ind,
        mode,
    );
    let r = spine_rest(
        DocV::Append(Box::new(a), Box::new(DocV::Append(Box::new(b), Box::new(c)))),
        ind,
        mode,
    );
    assert(l =~= r);
}

/// Appends that are nested to the left and appends that are nested to the
/// right are laid out alike, whatever the state they are reached in, and they
/// count alike where a group looks ahead.
pub proof fn law_append_assoc_step<A>(
    a: DocV<A>,
    b: DocV<A>,
    c: DocV<A>,
    st: St<A>,
    ind: usize,
    mode: Mode,
    top: nat,
    fits: bool,
    width: usize,
)
    ensures
        go(
            st,
            (
                ind,
                mode,
                DocV::Append(Box::new(DocV::Append(Box::new(a), Box::new(b))), Box::new(c)),
            ),
            top,
            fits,
            width,
        ) == go(
            st,
            (
                ind,
                mode,
                DocV::Append(Box::new(a), Box::new(DocV::Append(Box::new(b), Box::new(c)))),
            ),
            top,
            fits,
            width,
        ),
        fits_doc(
            DocV::Append(Box::new(DocV::Append(Box::new(a), Box::new(b))), Box::new(c)),
            Seq::empty(),
            mode,
            st.bcmds,
            st.pos,
            ind,
            width,
        ) == fits_doc(
            DocV::Append(Box::new(a), Box::new(DocV::Append(Box::new(b), Box::new(c)))),
            Seq::empty(),
            mode,
            st.bcmds,
            st.pos,
            ind,
            width,
        ),
{
    lemma_spine_assoc(a, b, c, ind, mode);
}

/// `append` is associative at every width: the two ways to append three
/// documents render identically.
pub proof fn law_append_assoc<A>(a: DocV<A>, b: DocV<A>, c: DocV<A>, width: usize)
    ensures
        layout(append_model(append_model(a, b), c), width) == layout(
            append_model(a, append_model(b, c)),
            width,
        ),
{
    if !(a is Nil) && !(b is Nil) && !(c is Nil) {
        let st = St::<A> {
            pos: 0,
            bcmds: Seq::empty(),
            levels: Seq::empty(),
            out: Out::empty(),
        };
        let x = DocV::Append(Box::new(DocV::Append(Box::new(a), Box::new(b))), Box::new(c));
        let y = DocV::Append(Box::new(a), Box::new(DocV::Append(Box::new(b), Box::new(c))));
        law_append_assoc_step(a, b, c, st, 0, Mode::Break, 0, true, width);
        assert(seq![(0usize, Mode::Break, x)].drop_last() =~= st.bcmds);
        assert(seq![(0usize, Mode::Break, y)].drop_last() =~= st.bcmds);
    }
}

/// The state in which a render starts, before its document is pushed.
pub open spec fn start<A>() -> St<A> {
    St { pos: 0, bcmds: Seq::empty(), levels: Seq::empty(), out: Out::empty() }
}

/// Rendering a document is laying it out as the one command of an empty
/// state.
pub proof fn lemma_layout_go<A>(d: DocV<A>, width: usize)
    ensures
        layout(d, width) == go(start(), (0usize, Mode::Break, d), 0, true, width),
{
    assert(seq![(0usize, Mode::Break, d)].drop_last() =~= Seq::<(usize, Mode, DocV<A>)>::empty());
}

/// What rendering a document made by `text` writes: the text itself.
pub proof fn lemma_text_layout<A>(s: Seq<char>, width: usize)
    ensures
        layout(text_model::<A>(s), width) is Done,
        layout(text_model::<A>(s), width)->Done_out == Out::<A>::empty().write(s),
{
    lemma_layout_go(text_model::<A>(s), width);
    reveal_with_fuel(run, 2);
    reveal_with_fuel(go, 2);
    let o = layout(text_model::<A>(s), width)->Done_out;
    assert(o.text =~= Out::<A>::empty().write(s).text);
}

/// Two texts appended are written as the one text that joins them: both
/// renders end, at every width, and write the two texts one after the other
/// and nothing else.
pub proof fn law_text_concat<A>(s1: Seq<char>, s2: Seq<char>, width: usize)
    ensures
        layout(append_model(text_model::<A>(s1), text_model::<A>(s2)), width) is Done,
        layout(text_model::<A>(s1 + s2), width) is Done,
        layout(append_model(text_model::<A>(s1), text_model::<A>(s2)), width)->Done_out == layout(
            text_model::<A>(s1 + s2),
            width,
        )->Done_out,
        layout(text_model::<A>(s1 + s2), width)->Done_out == Out::<A>::empty().write(s1 + s2),
{
    lemma_text_layout::<A>(s1 + s2, width);
    if s1.len() == 0 {
        assert(s1 + s2 =~= s2);
    } else if s2.len() == 0 {
        assert(s1 + s2 =~= s1);
    } else {
        let t1 = text_model::<A>(s1);
        let t2 = text_model::<A>(s2);
        let d = DocV::Append(Box::new(t1), Box::new(t2));
        lemma_layout_go(d, width);
        reveal_with_fuel(spine_first, 2);
        reveal_with_fuel(spine_rest, 2);
        assert(spine_first(d) == t1);
        assert(spine_rest(d, 0, Mode::Break) =~= seq![(0usize, Mode::Break, t2)]);
        let st0 = start::<A>();
        let st1 = St { bcmds: st0.bcmds + spine_rest(d, 0, Mode::Break), ..st0 };
        assert(st1.bcmds =~= seq![(0usize, Mode::Break, t2)]);
        assert(layout(d, width) == go(st1, (0usize, Mode::Break, t1), 0, true, width));
        // the first text
        let pos1 = match t1 {
            DocV::Text(s) => sat_add(0, crate::model::text_len(s) as nat),
            DocV::RenderLen(n, _) => sat_add(0, n as nat),
            _ => 0,
        };
        let st2 = St { pos: pos1, out: st0.out.write(s1), ..st1 };
        assert(settle(st2) == st2);
        assert(go(st1, (0usize, Mode::Break, t1), 0, true, width) == run(
            st2,
            0,
            pos1 <= width,
            width,
        ));
        assert(st2.bcmds.drop_last() =~= Seq::<(usize, Mode, DocV<A>)>::empty());
        let st3 = St { bcmds: Seq::empty(), ..st2 };
        assert(run(st2, 0, pos1 <= width, width) == go(
            st3,
            (0usize, Mode::Break, t2),
            0,
            pos1 <= width,
            width,
        ));
        reveal_with_fuel(run, 2);
        let o = layout(d, width)->Done_out;
        assert(o.text =~= Out::<A>::empty().write(s1 + s2).text);
    }
}

/// Nesting by nothing leaves a document as it is.
pub proof fn law_nest_zero<A>(d: DocV<A>)
    ensures
        nest_model(0, d) == d,
{
}

/// Nesting by `b` and then by `a` is nesting by their sum, where the first
/// step cannot be cut off at the left margin and regained by the second: `a`
/// is not negative, or `b` is not positive.
pub proof fn law_nest_nest<A>(a: isize, b: isize, d: DocV<A>, width: usize)
    requires
        a >= 0 || b <= 0,
        isize::MIN <= a + b <= isize::MAX,
    ensures
        layout(nest_model(a, nest_model(b, d)), width) == layout(
            nest_model((a + b) as isize, d),
            width,
        ),
{
    let l = nest_model(a, nest_model(b, d));
    let r = nest_model((a + b) as isize, d);
    lemma_layout_go(l, width);
    lemma_layout_go(r, width);
    lemma_layout_go(d, width);
    reveal_with_fuel(go, 3);
    assert(sat_indent(sat_indent(0, a), b) == sat_indent(0, (a + b) as isize));
}

/// A union renders as its first document where that one fits, which is to
/// say where it renders within the width and without failing, and as its
/// second document where it does not.
pub proof fn law_union_preference<A>(l: DocV<A>, r: DocV<A>, width: usize)
    ensures
        layout(DocV::Union(Box::new(l), Box::new(r)), width) == (match layout(l, width) {
            Outcome::Done { out, pos, fits: true } => layout(l, width),
            _ => layout(r, width),
        }),
{
    let u = DocV::Union(Box::new(l), Box::new(r));
    lemma_layout_go(u, width);
    lemma_layout_go(r, width);
    let st = start::<A>();
    assert(st.bcmds.push((0usize, Mode::Break, l)) =~= seq![(0usize, Mode::Break, l)]);
    match layout(l, width) {
        Outcome::Done { out, pos, fits: true } => {
            let after = St { pos, out: st.out.concat(out), ..st };
            assert(after.out.text =~= out.text);
            assert(after.out.marks =~= out.marks);
            assert(after.out == out);
            assert(settle(after) == after);
            assert(run(after, 0, true, width) == layout(l, width));
            let arm = run(
                St {
                    pos: st.pos,
                    bcmds: st.bcmds.push((0usize, Mode::Break, l)),
                    levels: Seq::empty(),
                    out: Out::empty(),
                },
                st.bcmds.len(),
                true,
                width,
            );
            assert(arm == layout(l, width));
            assert(go(st, (0usize, Mode::Break, u), 0, true, width) == run(
                settle(after),
                0,
                true,
                width,
            ));
        },
        _ => {
            let arm = run(
                St {
                    pos: st.pos,
                    bcmds: st.bcmds.push((0usize, Mode::Break, l)),
                    levels: Seq::empty(),
                    out: Out::empty(),
                },
                st.bcmds.len(),
                true,
                width,
            );
            assert(arm == layout(l, width));
            assert(go(st, (0usize, Mode::Break, u), 0, true, width) == go(
                st,
                (0usize, Mode::Break, r),
                0,
                true,
                width,
            ));
        },
    }
}

/// The trial of the first document of a union where the render stands: the
/// document is laid out alone, from the column that the render has reached
/// and with the pending commands beneath it, which the lookahead of its
/// groups sees.
pub open spec fn union_trial<A>(st: St<A>, ind: usize, mode: Mode, l: DocV<A>, width: usize) -> Outcome<
    A,
> {
    run(
        St {
            pos: st.pos,
            bcmds: st.bcmds.push((ind, mode, l)),
            levels: Seq::empty(),
            out: Out::empty(),
        },
        st.bcmds.len(),
        true,
        width,
    )
}

/// Wherever a union stands in a render, and whatever is pending beneath it:
/// where the trial of its first document stays within the width and reaches
/// no `Fail`, the render takes what the trial wrote, stands at the column
/// where the trial ended and goes on with what was pending. Where it does
/// not, nothing of the first document is taken: the column, the pending
/// commands and the open annotations are as they were, and the render goes
/// on as if the second document stood in the place of the union.
pub proof fn law_union_in_place<A>(
    st: St<A>,
    ind: usize,
    mode: Mode,
    l: DocV<A>,
    r: DocV<A>,
    top: nat,
    fits: bool,
    width: usize,
)
    ensures
        go(st, (ind, mode, DocV::Union(Box::new(l), Box::new(r))), top, fits, width) == (
        match union_trial(st, ind, mode, l, width) {
            Outcome::Done { out, pos, fits: true } => run(
                settle(St { pos, out: st.out.concat(out), ..st }),
                top,
                fits,
                width,
            ),
            _ => go(st, (ind, mode, r), top, fits, width),
        }),
{
}

/// A `FlatAlt` is laid out as its second document in flat mode and as its
/// first in break mode, and counts as such where a group looks ahead.
pub proof fn law_flat_alt_selection<A>(
    b: DocV<A>,
    f: DocV<A>,
    st: St<A>,
    ind: usize,
    top: nat,
    fits: bool,
    width: usize,
)
    ensures
        go(st, (ind, Mode::Flat, DocV::FlatAlt(Box::new(b), Box::new(f))), top, fits, width) == go(
            st,
            (ind, Mode::Flat, f),
            top,
            fits,
            width,
        ),
        go(st, (ind, Mode::Break, DocV::FlatAlt(Box::new(b), Box::new(f))), top, fits, width)
            == go(st, (ind, Mode::Break, b), top, fits, width),
        fits_doc(
            DocV::FlatAlt(Box::new(b), Box::new(f)),
            Seq::empty(),
            Mode::Flat,
            st.bcmds,
            st.pos,
            ind,
            width,
        ) == fits_doc(f, Seq::empty(), Mode::Flat, st.bcmds, st.pos, ind, width),
{
}

/// A group in break mode lays its document out flat where that fits, and in
/// break mode where it does not; so a `FlatAlt` right below it shows its
/// second document in the first case and its first in the other.
pub proof fn law_group_flat_alt<A>(
    b: DocV<A>,
    f: DocV<A>,
    st: St<A>,
    ind: usize,
    top: nat,
    fits: bool,
    width: usize,
)
    ensures
        go(
            st,
            (ind, Mode::Break, DocV::Group(Box::new(DocV::FlatAlt(Box::new(b), Box::new(f))))),
            top,
            fits,
            width,
        ) == (if fitting(DocV::FlatAlt(Box::new(b), Box::new(f)), st.bcmds, st.pos, ind, width) {
            go(st, (ind, Mode::Flat, f), top, fits, width)
        } else {
            go(st, (ind, Mode::Break, b), top, fits, width)
        }),
{
    reveal_with_fuel(go, 2);
}

/// A text of display length `n` advances the column by `n`, whatever the
/// number of its bytes.
pub proof fn law_render_len<A>(
    n: usize,
    s: Seq<char>,
    st: St<A>,
    ind: usize,
    mode: Mode,
    top: nat,
    fits: bool,
    width: usize,
)
    ensures
        go(st, (ind, mode, DocV::RenderLen(n, Box::new(DocV::Text(s)))), top, fits, width) == run(
            settle(St { pos: sat_add(st.pos, n as nat), out: st.out.write(s), ..st }),
            top,
            fits && sat_add(st.pos, n as nat) <= width,
            width,
        ),
        layout(DocV::<A>::RenderLen(n, Box::new(DocV::Text(s))), width) == (Outcome::Done {
            out: Out::<A>::empty().write(s),
            pos: n,
            fits: n <= width,
        }),
{
    lemma_layout_go(DocV::<A>::RenderLen(n, Box::new(DocV::Text(s))), width);
    reveal_with_fuel(run, 2);
}

/// What fits within a width fits within every larger width.
pub proof fn lemma_fits_doc_wider<A>(
    doc: DocV<A>,
    fcmds: Seq<Cmd<A>>,
    mode: Mode,
    rest: Seq<Cmd<A>>,
    pos: usize,
    ind: usize,
    width: usize,
    wider: usize,
)
    requires
        width <= wider,
        fits_doc(doc, fcmds, mode, rest, pos, ind, width),
    ensures
        fits_doc(doc, fcmds, mode, rest, pos, ind, wider),
    decreases doc.size() + cmds_size(fcmds) + cmds_size(rest), 0nat,
{
    match doc {
        DocV::Nil => {
            lemma_fits_next_wider(fcmds, mode, rest, pos, ind, width, wider);
        },
        DocV::Append(_, _) => {
            let pushed = spine_rest(doc, ind, mode);
            lemma_spine_size(doc, ind, mode);
            lemma_cmds_size_add(fcmds, pushed);
            lemma_fits_doc_wider(
                spine_first(doc),
                fcmds + pushed,
                mode,
                rest,
                pos,
                ind,
                width,
                wider,
            );
        },
        DocV::Hardline => {},
        DocV::RenderLen(n, _) => {
            lemma_fits_next_wider(fcmds, mode, rest, (pos + n) as usize, ind, width, wider);
        },
        DocV::Text(s) => {
            lemma_fits_next_wider(
                fcmds,
                mode,
                rest,
                (pos + crate::model::text_len(s)) as usize,
                ind,
                width,
                wider,
            );
        },
        DocV::FlatAlt(b, f) => {
            lemma_fits_doc_wider(
                if mode == Mode::Break { *b } else { *f },
                fcmds,
                mode,
                rest,
                pos,
                ind,
                width,
                wider,
            );
        },
        DocV::Column(f, bound) => {
            lemma_fits_doc_wider(f(pos), fcmds, mode, rest, pos, ind, width, wider);
        },
        DocV::Nesting(f, bound) => {
            lemma_fits_doc_wider(f(ind), fcmds, mode, rest, pos, ind, width, wider);
        },
        DocV::Nest(_, d) => {
            lemma_fits_doc_wider(*d, fcmds, mode, rest, pos, ind, width, wider);
        },
        DocV::Group(d) => {
            lemma_fits_doc_wider(*d, fcmds, mode, rest, pos, ind, width, wider);
        },
        DocV::Annotated(_, d) => {
            lemma_fits_doc_wider(*d, fcmds, mode, rest, pos, ind, width, wider);
        },
        DocV::Union(l, _) => {
            lemma_fits_doc_wider(*l, fcmds, mode, rest, pos, ind, width, wider);
        },
        DocV::Fail => {},
    }
}

/// As [`lemma_fits_doc_wider`], with the next document still to be taken.
pub proof fn lemma_fits_next_wider<A>(
    fcmds: Seq<Cmd<A>>,
    mode: Mode,
    rest: Seq<Cmd<A>>,
    pos: usize,
    ind: usize,
    width: usize,
    wider: usize,
)
    requires
        width <= wider,
        fits_next(fcmds, mode, rest, pos, ind, width),
    ensures
        fits_next(fcmds, mode, rest, pos, ind, wider),
    decreases cmds_size(fcmds) + cmds_size(rest), 1nat,
{
    if fcmds.len() > 0 {
        lemma_fits_doc_wider(
            fcmds.last().2,
            fcmds.drop_last(),
            mode,
            rest,
            pos,
            ind,
            width,
            wider,
        );
    } else if rest.len() > 0 {
        lemma_fits_doc_wider(
            rest.last().2,
            fcmds,
            Mode::Break,
            rest.drop_last(),
            pos,
            ind,
            width,
            wider,
        );
    }
}

/// From a column beyond the width nothing fits, not even a document that
/// writes nothing.
pub proof fn law_no_room_beyond_the_width<A>(
    d: DocV<A>,
    bcmds: Seq<Cmd<A>>,
    pos: usize,
    ind: usize,
    width: usize,
)
    requires
        pos > width,
    ensures
        !fitting(d, bcmds, pos, ind, width),
{
}

/// A group that is laid out flat at a width is laid out flat, from the same
/// state, at every larger width.
pub proof fn law_group_stays_flat<A>(
    d: DocV<A>,
    bcmds: Seq<Cmd<A>>,
    pos: usize,
    ind: usize,
    width: usize,
    wider: usize,
)
    requires
        width <= wider,
        fitting(d, bcmds, pos, ind, width),
    ensures
        fitting(d, bcmds, pos, ind, wider),
{
    lemma_fits_doc_wider(d, Seq::empty(), Mode::Flat, bcmds, pos, ind, width, wider);
}

/// How many annotated parts are open after `marks`.
pub open spec fn depth<A>(marks: Seq<(nat, Mark<A>)>) -> int
    decreases marks.len(),
{
    if marks.len() == 0 {
        0
    } else {
        depth(marks.drop_last()) + (match marks.last().1 {
            Mark::Push(_) => 1int,
            Mark::Pop => -1int,
        })
    }
}

/// No end comes before its start: after each mark, no fewer parts were
/// started than were ended.
pub open spec fn nested<A>(marks: Seq<(nat, Mark<A>)>) -> bool {
    forall|k: int| 0 <= k <= marks.len() ==> depth(#[trigger] marks.take(k)) >= 0
}

/// Every annotated part that starts also ends, and the parts nest.
pub open spec fn balanced<A>(marks: Seq<(nat, Mark<A>)>) -> bool {
    depth(marks) == 0 && nested(marks)
}

proof fn lemma_nested_push<A>(marks: Seq<(nat, Mark<A>)>, m: (nat, Mark<A>))
    requires
        nested(marks),
        depth(marks.push(m)) >= 0,
    ensures
        nested(marks.push(m)),
{
    assert forall|k: int| 0 <= k <= marks.push(m).len() implies depth(
        #[trigger] marks.push(m).take(k),
    ) >= 0 by {
        if k <= marks.len() {
            assert(marks.push(m).take(k) =~= marks.take(k));
        } else {
            assert(marks.push(m).take(k) =~= marks.push(m));
        }
    }
}

proof fn lemma_depth_concat<A>(a: Seq<(nat, Mark<A>)>, b: Seq<(nat, Mark<A>)>, k: nat)
    ensures
        depth(a + shift(b, k)) == depth(a) + depth(b),
    decreases b.len(),
{
    if b.len() == 0 {
        assert(a + shift(b, k) =~= a);
    } else {
        assert((a + shift(b, k)).drop_last() =~= a + shift(b.drop_last(), k));
        lemma_depth_concat(a, b.drop_last(), k);
    }
}

proof fn lemma_nested_concat<A>(a: Seq<(nat, Mark<A>)>, b: Seq<(nat, Mark<A>)>, k: nat)
    requires
        nested(a),
        nested(b),
        depth(a) >= 0,
    ensures
        nested(a + shift(b, k)),
{
    let c = a + shift(b, k);
    assert forall|j: int| 0 <= j <= c.len() implies depth(#[trigger] c.take(j)) >= 0 by {
        if j <= a.len() {
            assert(c.take(j) =~= a.take(j));
        } else {
            assert(c.take(j) =~= a + shift(b.take(j - a.len()), k));
            lemma_depth_concat(a, b.take(j - a.len()), k);
            assert(a.take(a.len() as int) =~= a);
        }
    }
}

/// The heights in `levels` rise, and lie between `top` and `height`.
pub open spec fn levels_within(levels: Seq<nat>, top: nat, height: nat) -> bool {
    &&& forall|i: int| 0 <= i < levels.len() ==> top <= #[trigger] levels[i] <= height
    &&& forall|i: int, j: int| 0 <= i <= j < levels.len() ==> levels[i] <= levels[j]
}

/// As many annotated parts are open as there are heights on record, and the
/// marks so far nest.
pub open spec fn marks_match<A>(st: St<A>) -> bool {
    depth(st.out.marks) == st.levels.len() && nested(st.out.marks)
}

proof fn lemma_pop_levels<A>(levels: Seq<nat>, out: Out<A>, top: nat, height: nat)
    requires
        levels_within(levels, top, height),
        depth(out.marks) == levels.len(),
        nested(out.marks),
    ensures
        levels_within(pop_levels(levels, out, height).0, top, height),
        forall|i: int|
            0 <= i < pop_levels(levels, out, height).0.len() ==> #[trigger] pop_levels(
                levels,
                out,
                height,
            ).0[i] < height,
        depth(pop_levels(levels, out, height).1.marks) == pop_levels(levels, out, height).0.len(),
        nested(pop_levels(levels, out, height).1.marks),
        pop_levels(levels, out, height).1.text == out.text,
    decreases levels.len(),
{
    if levels.len() > 0 && levels.last() == height {
        assert(out.pop().marks.drop_last() =~= out.marks);
        lemma_nested_push(out.marks, (out.text.len(), Mark::Pop));
        lemma_pop_levels(levels.drop_last(), out.pop(), top, height);
    } else {
        assert forall|i: int| 0 <= i < levels.len() implies #[trigger] levels[i] < height by {
            assert(levels[i] <= levels[levels.len() - 1]);
        }
    }
}

/// What a render hands to its sink is balanced: every start of an annotated
/// part has its end, and the parts nest.
pub proof fn law_annotation_balance<A>(d: DocV<A>, width: usize)
    ensures
        layout(d, width) matches Outcome::Done { out, .. } ==> balanced(out.marks),
{
    let st = St::<A> {
        pos: 0,
        bcmds: seq![(0usize, Mode::Break, d)],
        levels: Seq::empty(),
        out: Out::empty(),
    };
    lemma_run_balanced(st, 0, true, width);
}

/// A render that starts with as many open parts as heights on record, all of
/// them below the pending commands, ends with none of them open.
pub proof fn lemma_run_balanced<A>(st: St<A>, top: nat, fits: bool, width: usize)
    requires
        marks_match(st),
        levels_within(st.levels, top, st.bcmds.len()),
        forall|i: int| 0 <= i < st.levels.len() ==> #[trigger] st.levels[i] < st.bcmds.len(),
    ensures
        run(st, top, fits, width) matches Outcome::Done { out, .. } ==> balanced(out.marks),
    decreases cmds_size(st.bcmds), 1nat,
{
    if st.bcmds.len() <= top {
        if st.levels.len() > 0 {
            assert(st.levels[0] < st.bcmds.len());
        }
    } else {
        lemma_go_balanced(
            St { bcmds: st.bcmds.drop_last(), ..st },
            st.bcmds.last(),
            top,
            fits,
            width,
        );
    }
}

proof fn lemma_settled<A>(st: St<A>, top: nat, fits: bool, width: usize)
    requires
        marks_match(st),
        levels_within(st.levels, top, st.bcmds.len()),
    ensures
        marks_match(settle(st)),
        levels_within(settle(st).levels, top, st.bcmds.len()),
        forall|i: int|
            0 <= i < settle(st).levels.len() ==> #[trigger] settle(st).levels[i] < st.bcmds.len(),
        settle(st).bcmds == st.bcmds,
        settle(st).out.text == st.out.text,
{
    lemma_pop_levels(st.levels, st.out, top, st.bcmds.len());
}

/// As [`lemma_run_balanced`], from a command that was taken off the pending
/// ones.
pub proof fn lemma_go_balanced<A>(st: St<A>, cmd: Cmd<A>, top: nat, fits: bool, width: usize)
    requires
        marks_match(st),
        levels_within(st.levels, top, st.bcmds.len()),
        top <= st.bcmds.len(),
    ensures
        go(st, cmd, top, fits, width) matches Outcome::Done { out, .. } ==> balanced(out.marks),
    decreases cmd.2.size() + cmds_size(st.bcmds), 0nat,
{
    let (ind, mode, doc) = cmd;
    match doc {
        DocV::Nil => {
            lemma_settled(st, top, fits, width);
            lemma_run_balanced(settle(st), top, fits, width);
        },
        DocV::Append(_, _) => {
            let pushed = spine_rest(doc, ind, mode);
            lemma_spine_size(doc, ind, mode);
            lemma_cmds_size_add(st.bcmds, pushed);
            lemma_go_balanced(
                St { bcmds: st.bcmds + pushed, ..st },
                (ind, mode, spine_first(doc)),
                top,
                fits,
                width,
            );
        },
        DocV::FlatAlt(b, f) => {
            lemma_go_balanced(
                st,
                (ind, mode, if mode == Mode::Break { *b } else { *f }),
                top,
                fits,
                width,
            );
        },
        DocV::Group(d) => {
            let flat = mode == Mode::Flat || fitting(*d, st.bcmds, st.pos, ind, width);
            lemma_go_balanced(
                st,
                (ind, if flat { Mode::Flat } else { Mode::Break }, *d),
                top,
                fits,
                width,
            );
        },
        DocV::Nest(off, d) => {
            lemma_go_balanced(st, (sat_indent(ind, off), mode, *d), top, fits, width);
        },
        DocV::Hardline => {
            lemma_recompute_size(st.bcmds, top, ind, width);
            let next = St {
                pos: ind,
                bcmds: recompute(st.bcmds, top, ind, width),
                out: st.out.write(newline(ind)),
                ..st
            };
            lemma_settled(next, top, fits, width);
            lemma_run_balanced(settle(next), top, fits, width);
        },
        DocV::RenderLen(n, t) => {
            let pos = sat_add(st.pos, n as nat);
            let next = St { pos, out: st.out.write(crate::layout::inner_text(*t)), ..st };
            lemma_settled(next, top, fits, width);
            lemma_run_balanced(settle(next), top, fits && pos <= width, width);
        },
        DocV::Text(s) => {
            let pos = sat_add(st.pos, crate::model::text_len(s) as nat);
            let next = St { pos, out: st.out.write(s), ..st };
            lemma_settled(next, top, fits, width);
            lemma_run_balanced(settle(next), top, fits && pos <= width, width);
        },
        DocV::Annotated(a, d) => {
            let next = St {
                levels: st.levels.push(st.bcmds.len()),
                out: st.out.push(a),
                ..st
            };
            assert(next.out.marks.drop_last() =~= st.out.marks);
            lemma_nested_push(st.out.marks, (st.out.text.len(), Mark::Push(a)));
            lemma_go_balanced(next, (ind, mode, *d), top, fits, width);
        },
        DocV::Union(l, r) => {
            lemma_cmds_size_push(st.bcmds, (ind, mode, *l));
            let inner = St {
                pos: st.pos,
                bcmds: st.bcmds.push((ind, mode, *l)),
                levels: Seq::empty(),
                out: Out::empty(),
            };
            lemma_run_balanced(inner, st.bcmds.len(), true, width);
            match run(inner, st.bcmds.len(), true, width) {
                Outcome::Done { out, pos, fits: true } => {
                    let next = St { pos, out: st.out.concat(out), ..st };
                    lemma_depth_concat(st.out.marks, out.marks, st.out.text.len());
                    lemma_nested_concat(st.out.marks, out.marks, st.out.text.len());
                    lemma_settled(next, top, fits, width);
                    lemma_run_balanced(settle(next), top, fits, width);
                },
                _ => {
                    lemma_go_balanced(st, (ind, mode, *r), top, fits, width);
                },
            }
        },
        DocV::Column(f, bound) => {
            if f(st.pos).size() <= bound {
                lemma_go_balanced(st, (ind, mode, f(st.pos)), top, fits, width);
            }
        },
        DocV::Nesting(f, bound) => {
            if f(ind).size() <= bound {
                lemma_go_balanced(st, (ind, mode, f(ind)), top, fits, width);
            }
        },
        DocV::Fail => {},
    }
}

/// Whether a hard line break is reached in `d` whatever is chosen: one that
/// stands under appends, groups, nests and annotations, or one in each of
/// the two documents of a union.
pub open spec fn has_hardline<A>(d: DocV<A>) -> bool
    decreases d,
{
    match d {
        DocV::Hardline => true,
        DocV::Append(l, r) => has_hardline(*l) || has_hardline(*r),
        DocV::Group(d) => has_hardline(*d),
        DocV::Nest(_, d) => has_hardline(*d),
        DocV::Annotated(_, d) => has_hardline(*d),
        DocV::Union(l, r) => has_hardline(*l) && has_hardline(*r),
        _ => false,
    }
}

/// Whether `text` holds a line feed.
pub open spec fn has_newline(text: Seq<char>) -> bool {
    exists|i: int| 0 <= i < text.len() && text[i] == '\n'
}

/// Whether a command of `bcmds` at height `top` or above holds a hard line
/// break that is reached whatever is chosen.
pub open spec fn pending_hardline<A>(bcmds: Seq<Cmd<A>>, top: nat) -> bool {
    exists|i: int| top <= i < bcmds.len() && has_hardline(#[trigger] bcmds[i].2)
}

proof fn lemma_newline_stays(a: Seq<char>, b: Seq<char>)
    requires
        has_newline(a) || has_newline(b),
    ensures
        has_newline(a + b),
{
    if has_newline(a) {
        let i = choose|i: int| 0 <= i < a.len() && a[i] == '\n';
        assert((a + b)[i] == '\n');
    } else {
        let i = choose|i: int| 0 <= i < b.len() && b[i] == '\n';
        assert((a + b)[a.len() + i] == '\n');
    }
}

proof fn lemma_pop_text<A>(levels: Seq<nat>, out: Out<A>, height: nat)
    ensures
        pop_levels(levels, out, height).1.text == out.text,
    decreases levels.len(),
{
    if levels.len() > 0 && levels.last() == height {
        lemma_pop_text(levels.drop_last(), out.pop(), height);
    }
}

proof fn lemma_spine_hardline<A>(d: DocV<A>, ind: usize, mode: Mode)
    requires
        has_hardline(d),
    ensures
        has_hardline(spine_first(d)) || pending_hardline(spine_rest(d, ind, mode), 0),
    decreases d,
{
    match d {
        DocV::Append(l, r) => {
            let left = spine_rest(*l, ind, mode);
            let right = spine_rest(*r, ind, mode).push((ind, mode, spine_first(*r)));
            if has_hardline(*l) {
                lemma_spine_hardline(*l, ind, mode);
                if !has_hardline(spine_first(*l)) {
                    let i = choose|i: int| 0 <= i < left.len() && has_hardline(#[trigger] left[i].2);
                    assert((right + left)[right.len() + i] == left[i]);
                    assert(has_hardline(spine_rest(d, ind, mode)[right.len() + i].2));
                }
            } else {
                lemma_spine_hardline(*r, ind, mode);
                if has_hardline(spine_first(*r)) {
                    assert((right + left)[right.len() - 1] == (ind, mode, spine_first(*r)));
                    assert(has_hardline(spine_rest(d, ind, mode)[right.len() - 1].2));
                } else {
                    let rest = spine_rest(*r, ind, mode);
                    let i = choose|i: int| 0 <= i < rest.len() && has_hardline(#[trigger] rest[i].2);
                    assert((right + left)[i] == rest[i]);
                    assert(has_hardline(spine_rest(d, ind, mode)[i].2));
                }
            }
        },
        _ => {},
    }
}

/// A line break that was written stays written.
pub proof fn lemma_run_keeps_newline<A>(st: St<A>, top: nat, fits: bool, width: usize)
    requires
        has_newline(st.out.text),
    ensures
        run(st, top, fits, width) matches Outcome::Done { out, .. } ==> has_newline(out.text),
    decreases cmds_size(st.bcmds), 1nat,
{
    if st.bcmds.len() > top {
        lemma_go_keeps_newline(
            St { bcmds: st.bcmds.drop_last(), ..st },
            st.bcmds.last(),
            top,
            fits,
            width,
        );
    }
}

/// As [`lemma_run_keeps_newline`], from a command that was taken off the
/// pending ones.
pub proof fn lemma_go_keeps_newline<A>(st: St<A>, cmd: Cmd<A>, top: nat, fits: bool, width: usize)
    requires
        has_newline(st.out.text),
    ensures
        go(st, cmd, top, fits, width) matches Outcome::Done { out, .. } ==> has_newline(out.text),
    decreases cmd.2.size() + cmds_size(st.bcmds), 0nat,
{
    let (ind, mode, doc) = cmd;
    match doc {
        DocV::Nil => {
            lemma_pop_text(st.levels, st.out, st.bcmds.len());
            lemma_run_keeps_newline(settle(st), top, fits, width);
        },
        DocV::Append(_, _) => {
            let pushed = spine_rest(doc, ind, mode);
            lemma_spine_size(doc, ind, mode);
            lemma_cmds_size_add(st.bcmds, pushed);
            lemma_go_keeps_newline(
                St { bcmds: st.bcmds + pushed, ..st },
                (ind, mode, spine_first(doc)),
                top,
                fits,
                width,
            );
        },
        DocV::FlatAlt(b, f) => {
            lemma_go_keeps_newline(
                st,
                (ind, mode, if mode == Mode::Break { *b } else { *f }),
                top,
                fits,
                width,
            );
        },
        DocV::Group(d) => {
            let flat = mode == Mode::Flat || fitting(*d, st.bcmds, st.pos, ind, width);
            lemma_go_keeps_newline(
                st,
                (ind, if flat { Mode::Flat } else { Mode::Break }, *d),
                top,
                fits,
                width,
            );
        },
        DocV::Nest(off, d) => {
            lemma_go_keeps_newline(st, (sat_indent(ind, off), mode, *d), top, fits, width);
        },
        DocV::Hardline => {
            lemma_recompute_size(st.bcmds, top, ind, width);
            let next = St {
                pos: ind,
                bcmds: recompute(st.bcmds, top, ind, width),
                out: st.out.write(newline(ind)),
                ..st
            };
            lemma_newline_stays(st.out.text, newline(ind));
            lemma_pop_text(next.levels, next.out, next.bcmds.len());
            lemma_run_keeps_newline(settle(next), top, fits, width);
        },
        DocV::RenderLen(n, t) => {
            let pos = sat_add(st.pos, n as nat);
            let next = St { pos, out: st.out.write(crate::layout::inner_text(*t)), ..st };
            lemma_newline_stays(st.out.text, crate::layout::inner_text(*t));
            lemma_pop_text(next.levels, next.out, next.bcmds.len());
            lemma_run_keeps_newline(settle(next), top, fits && pos <= width, width);
        },
        DocV::Text(s) => {
            let pos = sat_add(st.pos, crate::model::text_len(s) as nat);
            let next = St { pos, out: st.out.write(s), ..st };
            lemma_newline_stays(st.out.text, s);
            lemma_pop_text(next.levels, next.out, next.bcmds.len());
            lemma_run_keeps_newline(settle(next), top, fits && pos <= width, width);
        },
        DocV::Annotated(a, d) => {
            let next = St {
                levels: st.levels.push(st.bcmds.len()),
                out: st.out.push(a),
                ..st
            };
            lemma_go_keeps_newline(next, (ind, mode, *d), top, fits, width);
        },
        DocV::Union(l, r) => {
            lemma_cmds_size_push(st.bcmds, (ind, mode, *l));
            let inner = St {
                pos: st.pos,
                bcmds: st.bcmds.push((ind, mode, *l)),
                levels: Seq::empty(),
                out: Out::empty(),
            };
            match run(inner, st.bcmds.len(), true, width) {
                Outcome::Done { out, pos, fits: true } => {
                    let next = St { pos, out: st.out.concat(out), ..st };
                    lemma_newline_stays(st.out.text, out.text);
                    lemma_pop_text(next.levels, next.out, next.bcmds.len());
                    lemma_run_keeps_newline(settle(next), top, fits, width);
                },
                _ => {
                    lemma_go_keeps_newline(st, (ind, mode, *r), top, fits, width);
                },
            }
        },
        DocV::Column(f, bound) => {
            if f(st.pos).size() <= bound {
                lemma_go_keeps_newline(st, (ind, mode, f(st.pos)), top, fits, width);
            }
        },
        DocV::Nesting(f, bound) => {
            if f(ind).size() <= bound {
                lemma_go_keeps_newline(st, (ind, mode, f(ind)), top, fits, width);
            }
        },
        DocV::Fail => {},
    }
}

/// A render with a pending hard line break that is reached whatever is
/// chosen writes a line break.
pub proof fn lemma_run_hardline<A>(st: St<A>, top: nat, fits: bool, width: usize)
    requires
        pending_hardline(st.bcmds, top),
    ensures
        run(st, top, fits, width) matches Outcome::Done { out, .. } ==> has_newline(out.text),
    decreases cmds_size(st.bcmds), 1nat,
{
    let i = choose|i: int| top <= i < st.bcmds.len() && has_hardline(#[trigger] st.bcmds[i].2);
    let rest = St { bcmds: st.bcmds.drop_last(), ..st };
    if i < st.bcmds.len() - 1 {
        assert(rest.bcmds[i] == st.bcmds[i]);
    }
    lemma_go_hardline(rest, st.bcmds.last(), top, fits, width);
}

/// As [`lemma_run_hardline`], from a command that was taken off the pending
/// ones.
pub proof fn lemma_go_hardline<A>(st: St<A>, cmd: Cmd<A>, top: nat, fits: bool, width: usize)
    requires
        has_hardline(cmd.2) || pending_hardline(st.bcmds, top),
        top <= st.bcmds.len(),
    ensures
        go(st, cmd, top, fits, width) matches Outcome::Done { out, .. } ==> has_newline(out.text),
    decreases cmd.2.size() + cmds_size(st.bcmds), 0nat,
{
    let (ind, mode, doc) = cmd;
    match doc {
        DocV::Nil => {
            lemma_run_hardline(settle(st), top, fits, width);
        },
        DocV::Append(_, _) => {
            let pushed = spine_rest(doc, ind, mode);
            lemma_spine_size(doc, ind, mode);
            lemma_cmds_size_add(st.bcmds, pushed);
            let next = St { bcmds: st.bcmds + pushed, ..st };
            if has_hardline(doc) {
                lemma_spine_hardline(doc, ind, mode);
                if !has_hardline(spine_first(doc)) {
                    let i = choose|i: int|
                        0 <= i < pushed.len() && has_hardline(#[trigger] pushed[i].2);
                    assert(next.bcmds[st.bcmds.len() + i] == pushed[i]);
                    assert(has_hardline(next.bcmds[st.bcmds.len() + i].2));
                }
            } else {
                let i = choose|i: int|
                    top <= i < st.bcmds.len() && has_hardline(#[trigger] st.bcmds[i].2);
                assert(next.bcmds[i] == st.bcmds[i]);
                assert(has_hardline(next.bcmds[i].2));
            }
            lemma_go_hardline(next, (ind, mode, spine_first(doc)), top, fits, width);
        },
        DocV::FlatAlt(b, f) => {
            lemma_go_hardline(
                st,
                (ind, mode, if mode == Mode::Break { *b } else { *f }),
                top,
                fits,
                width,
            );
        },
        DocV::Group(d) => {
            let flat = mode == Mode::Flat || fitting(*d, st.bcmds, st.pos, ind, width);
            lemma_go_hardline(
                st,
                (ind, if flat { Mode::Flat } else { Mode::Break }, *d),
                top,
                fits,
                width,
            );
        },
        DocV::Nest(off, d) => {
            lemma_go_hardline(st, (sat_indent(ind, off), mode, *d), top, fits, width);
        },
        DocV::Hardline => {
            lemma_recompute_size(st.bcmds, top, ind, width);
            let next = St {
                pos: ind,
                bcmds: recompute(st.bcmds, top, ind, width),
                out: st.out.write(newline(ind)),
                ..st
            };
            assert(newline(ind)[0] == '\n');
            lemma_newline_stays(st.out.text, newline(ind));
            lemma_pop_text(next.levels, next.out, next.bcmds.len());
            lemma_run_keeps_newline(settle(next), top, fits, width);
        },
        DocV::RenderLen(n, t) => {
            let pos = sat_add(st.pos, n as nat);
            let next = St { pos, out: st.out.write(crate::layout::inner_text(*t)), ..st };
            lemma_run_hardline(settle(next), top, fits && pos <= width, width);
        },
        DocV::Text(s) => {
            let pos = sat_add(st.pos, crate::model::text_len(s) as nat);
            let next = St { pos, out: st.out.write(s), ..st };
            lemma_run_hardline(settle(next), top, fits && pos <= width, width);
        },
        DocV::Annotated(a, d) => {
            let next = St {
                levels: st.levels.push(st.bcmds.len()),
                out: st.out.push(a),
                ..st
            };
            lemma_go_hardline(next, (ind, mode, *d), top, fits, width);
        },
        DocV::Union(l, r) => {
            lemma_cmds_size_push(st.bcmds, (ind, mode, *l));
            let inner = St {
                pos: st.pos,
                bcmds: st.bcmds.push((ind, mode, *l)),
                levels: Seq::empty(),
                out: Out::empty(),
            };
            match run(inner, st.bcmds.len(), true, width) {
                Outcome::Done { out, pos, fits: true } => {
                    let next = St { pos, out: st.out.concat(out), ..st };
                    if has_hardline(doc) {
                        assert(has_hardline(inner.bcmds[st.bcmds.len() as int].2));
                        lemma_run_hardline(inner, st.bcmds.len(), true, width);
                        lemma_newline_stays(st.out.text, out.text);
                        lemma_pop_text(next.levels, next.out, next.bcmds.len());
                        lemma_run_keeps_newline(settle(next), top, fits, width);
                    } else {
                        lemma_run_hardline(settle(next), top, fits, width);
                    }
                },
                _ => {
                    lemma_go_hardline(st, (ind, mode, *r), top, fits, width);
                },
            }
        },
        DocV::Column(f, bound) => {
            if f(st.pos).size() <= bound {
                lemma_go_hardline(st, (ind, mode, f(st.pos)), top, fits, width);
            }
        },
        DocV::Nesting(f, bound) => {
            if f(ind).size() <= bound {
                lemma_go_hardline(st, (ind, mode, f(ind)), top, fits, width);
            }
        },
        DocV::Fail => {},
    }
}

/// A document with a hard line break that is reached whatever is chosen
/// renders, at any width, with a line break in its text.
pub proof fn law_hardline_forces<A>(d: DocV<A>, width: usize)
    requires
        has_hardline(d),
    ensures
        layout(d, width) matches Outcome::Done { out, .. } ==> has_newline(out.text),
{
    lemma_layout_go(d, width);
    lemma_go_hardline(start(), (0usize, Mode::Break, d), 0, true, width);
}

/// What was written, put after `before`, in three steps or in two.
proof fn lemma_concat_assoc<A>(before: Out<A>, a: Out<A>, b: Out<A>)
    ensures
        before.concat(a).concat(b) == before.concat(a.concat(b)),
{
    let l = before.concat(a).concat(b);
    let r = before.concat(a.concat(b));
    assert(l.text =~= r.text);
    assert(l.marks =~= r.marks);
}

/// Writing after `before` what a render wrote is writing on where the render
/// began after `before`.
proof fn lemma_concat_steps<A>(before: Out<A>, o: Out<A>, s: Seq<char>, a: A)
    ensures
        before.concat(o).write(s) == before.concat(o.write(s)),
        before.concat(o).push(a) == before.concat(o.push(a)),
        before.concat(o).pop() == before.concat(o.pop()),
{
    assert(before.concat(o).write(s).text =~= before.concat(o.write(s)).text);
    assert(before.concat(o).write(s).marks =~= before.concat(o.write(s)).marks);
    assert(before.concat(o).push(a).marks =~= before.concat(o.push(a)).marks);
    assert(before.concat(o).pop().marks =~= before.concat(o.pop()).marks);
}

/// The state `st` of a render that began at some height, as it is where
/// that render is a part of another: `levels` are the heights of the
/// annotations that were open when it began, and `before` what was written.
pub open spec fn within<A>(st: St<A>, levels: Seq<nat>, before: Out<A>) -> St<A> {
    St { pos: st.pos, bcmds: st.bcmds, levels: levels + st.levels, out: before.concat(st.out) }
}

/// How a render goes on down to height `top` after a part of it that ended
/// with `end`: from the column where the part ended, with the commands
/// `base` that were pending beneath it, after what the part wrote.
pub open spec fn resumed<A>(
    end: Outcome<A>,
    base: Seq<Cmd<A>>,
    levels: Seq<nat>,
    before: Out<A>,
    top: nat,
    fits: bool,
    width: usize,
) -> Outcome<A> {
    match end {
        Outcome::Done { out, pos, fits: inner } => run(
            settle(St { pos, bcmds: base, levels, out: before.concat(out) }),
            top,
            fits && inner,
            width,
        ),
        Outcome::Failed { out } => Outcome::Failed { out: before.concat(out) },
    }
}

/// Whether a render ended of itself and wrote no line break.
pub open spec fn on_one_line<A>(end: Outcome<A>) -> bool {
    end matches Outcome::Done { out, .. } && !has_newline(out.text)
}

/// Whether a line break above height `h` leaves the commands beneath `h`
/// in their modes, in a render down to `top`: the render ends at `h`, or
/// the command on top of those beneath is in `Break` mode.
pub open spec fn breaks_stay_above<A>(bcmds: Seq<Cmd<A>>, h: nat, top: nat) -> bool {
    h == top || (0 < h <= bcmds.len() && bcmds[h - 1].1 == Mode::Break)
}

proof fn lemma_flat_start_above<A>(bcmds: Seq<Cmd<A>>, h: nat, top: nat)
    requires
        top <= h <= bcmds.len(),
        breaks_stay_above(bcmds, h, top),
    ensures
        flat_start(bcmds, top) == flat_start(bcmds, h),
        flat_start(bcmds, h) >= h,
    decreases bcmds.len(),
{
    if bcmds.len() > h && bcmds.last().1 != Mode::Break {
        assert(h > 0 ==> bcmds.drop_last()[h - 1] == bcmds[h - 1]);
        lemma_flat_start_above(bcmds.drop_last(), h, top);
    }
}

proof fn lemma_pop_above<A>(levels: Seq<nat>, out: Out<A>, top: nat, height: nat)
    requires
        levels_within(levels, top, height),
    ensures
        levels_within(pop_levels(levels, out, height).0, top, height),
        forall|i: int|
            0 <= i < pop_levels(levels, out, height).0.len() ==> #[trigger] pop_levels(
                levels,
                out,
                height,
            ).0[i] < height,
    decreases levels.len(),
{
    if levels.len() > 0 && levels.last() == height {
        lemma_pop_above(levels.drop_last(), out.pop(), top, height);
    } else {
        assert forall|i: int| 0 <= i < levels.len() implies #[trigger] levels[i] < height by {
            assert(levels[i] <= levels[levels.len() - 1]);
        }
    }
}

proof fn lemma_pop_split<A>(
    outer: Seq<nat>,
    levels: Seq<nat>,
    before: Out<A>,
    out: Out<A>,
    h: nat,
    height: nat,
)
    requires
        h <= height,
        forall|i: int| 0 <= i < outer.len() ==> outer[i] <= h,
        levels_within(levels, h, height),
    ensures
        height > h ==> pop_levels(outer + levels, before.concat(out), height) == (
            outer + pop_levels(levels, out, height).0,
            before.concat(pop_levels(levels, out, height).1),
        ),
        height == h ==> pop_levels(levels, out, height).0.len() == 0 && pop_levels(
            outer + levels,
            before.concat(out),
            height,
        ) == pop_levels(outer, before.concat(pop_levels(levels, out, height).1), height),
    decreases levels.len(),
{
    let all = outer + levels;
    if levels.len() > 0 && levels.last() == height {
        assert(all.last() == height);
        assert(all.drop_last() =~= outer + levels.drop_last());
        lemma_concat_steps(before, out, Seq::<char>::empty(), arbitrary::<A>());
        lemma_pop_split(outer, levels.drop_last(), before, out.pop(), h, height);
    } else if levels.len() > 0 {
        assert(all.last() == levels.last());
        assert(h <= levels[levels.len() - 1] <= height);
    } else {
        assert(all =~= outer);
        if outer.len() > 0 {
            assert(outer[outer.len() - 1] <= h);
        }
    }
}

/// After a leaf, a render goes on as a part of another render as it does of
/// its own, and the other render resumes where it ends; where the render
/// writes a line break, as long as that leaves the commands beneath it in
/// their modes.
pub proof fn lemma_settle_split<A>(
    x: St<A>,
    outer: Seq<nat>,
    before: Out<A>,
    h: nat,
    top: nat,
    fits: bool,
    inner: bool,
    width: usize,
)
    requires
        top <= h <= x.bcmds.len(),
        forall|i: int| 0 <= i < outer.len() ==> outer[i] <= h,
        levels_within(x.levels, h, x.bcmds.len()),
        breaks_stay_above(x.bcmds, h, top) || on_one_line(run(settle(x), h, inner, width)),
    ensures
        run(settle(within(x, outer, before)), top, fits && inner, width) == resumed(
            run(settle(x), h, inner, width),
            x.bcmds.take(h as int),
            outer,
            before,
            top,
            fits,
            width,
        ),
    decreases cmds_size(x.bcmds), 1nat,
{
    let height = x.bcmds.len();
    lemma_pop_split(outer, x.levels, before, x.out, h, height);
    lemma_pop_above(x.levels, x.out, h, height);
    let y = settle(x);
    if height > h {
        assert(settle(within(x, outer, before)) == within(y, outer, before));
        let rest = St { bcmds: y.bcmds.drop_last(), ..y };
        assert(St { bcmds: y.bcmds.drop_last(), ..within(y, outer, before) } == within(
            rest,
            outer,
            before,
        ));
        assert(rest.bcmds.take(h as int) =~= x.bcmds.take(h as int));
        assert(h > 0 ==> rest.bcmds[h - 1] == x.bcmds[h - 1]);
        lemma_go_split(rest, y.bcmds.last(), outer, before, h, top, fits, inner, width);
    } else {
        assert(x.bcmds.take(h as int) =~= x.bcmds);
    }
}

/// A command is laid out as a part of another render as it is laid out of
/// its own, from height `h`: the other render takes what it writes and
/// resumes where it ends. Where the command writes a line break, this holds
/// as long as that leaves the commands beneath `h` in their modes.
pub proof fn lemma_go_split<A>(
    st: St<A>,
    cmd: Cmd<A>,
    outer: Seq<nat>,
    before: Out<A>,
    h: nat,
    top: nat,
    fits: bool,
    inner: bool,
    width: usize,
)
    requires
        top <= h <= st.bcmds.len(),
        forall|i: int| 0 <= i < outer.len() ==> outer[i] <= h,
        levels_within(st.levels, h, st.bcmds.len()),
        breaks_stay_above(st.bcmds, h, top) || on_one_line(go(st, cmd, h, inner, width)),
    ensures
        go(within(st, outer, before), cmd, top, fits && inner, width) == resumed(
            go(st, cmd, h, inner, width),
            st.bcmds.take(h as int),
            outer,
            before,
            top,
            fits,
            width,
        ),
    decreases cmd.2.size() + cmds_size(st.bcmds), 0nat,
{
    let (ind, mode, doc) = cmd;
    let whole = within(st, outer, before);
    match doc {
        DocV::Nil => {
            lemma_settle_split(st, outer, before, h, top, fits, inner, width);
        },
        DocV::Append(_, _) => {
            let pushed = spine_rest(doc, ind, mode);
            lemma_spine_size(doc, ind, mode);
            lemma_cmds_size_add(st.bcmds, pushed);
            let next = St { bcmds: st.bcmds + pushed, ..st };
            assert(St { bcmds: whole.bcmds + pushed, ..whole } == within(next, outer, before));
            assert(next.bcmds.take(h as int) =~= st.bcmds.take(h as int));
            assert(h > 0 ==> next.bcmds[h - 1] == st.bcmds[h - 1]);
            lemma_go_split(
                next,
                (ind, mode, spine_first(doc)),
                outer,
                before,
                h,
                top,
                fits,
                inner,
                width,
            );
        },
        DocV::FlatAlt(b, f) => {
            lemma_go_split(
                st,
                (ind, mode, if mode == Mode::Break { *b } else { *f }),
                outer,
                before,
                h,
                top,
                fits,
                inner,
                width,
            );
        },
        DocV::Group(d) => {
            let flat = mode == Mode::Flat || fitting(*d, st.bcmds, st.pos, ind, width);
            lemma_go_split(
                st,
                (ind, if flat { Mode::Flat } else { Mode::Break }, *d),
                outer,
                before,
                h,
                top,
                fits,
                inner,
                width,
            );
        },
        DocV::Nest(off, d) => {
            lemma_go_split(
                st,
                (sat_indent(ind, off), mode, *d),
                outer,
                before,
                h,
                top,
                fits,
                inner,
                width,
            );
        },
        DocV::Hardline => {
            lemma_recompute_size(st.bcmds, h, ind, width);
            let next = St {
                pos: ind,
                bcmds: recompute(st.bcmds, h, ind, width),
                out: st.out.write(newline(ind)),
                ..st
            };
            if breaks_stay_above(st.bcmds, h, top) {
                lemma_flat_start_above(st.bcmds, h, top);
                lemma_recompute_size(st.bcmds, top, ind, width);
                assert(next.bcmds.take(h as int) =~= st.bcmds.take(h as int));
                assert(h > 0 ==> next.bcmds[h - 1] == st.bcmds[h - 1]);
                lemma_concat_steps(before, st.out, newline(ind), arbitrary::<A>());
                assert(St {
                    pos: ind,
                    bcmds: recompute(whole.bcmds, top, ind, width),
                    out: whole.out.write(newline(ind)),
                    ..whole
                } == within(next, outer, before));
                lemma_settle_split(next, outer, before, h, top, fits, inner, width);
            } else {
                assert(newline(ind)[0] == '\n');
                lemma_newline_stays(st.out.text, newline(ind));
                lemma_pop_text(next.levels, next.out, next.bcmds.len());
                lemma_run_keeps_newline(settle(next), h, inner, width);
            }
        },
        DocV::RenderLen(n, t) => {
            let pos = sat_add(st.pos, n as nat);
            let text = crate::layout::inner_text(*t);
            let next = St { pos, out: st.out.write(text), ..st };
            lemma_concat_steps(before, st.out, text, arbitrary::<A>());
            assert(St { pos, out: whole.out.write(text), ..whole } == within(next, outer, before));
            lemma_settle_split(next, outer, before, h, top, fits, inner && pos <= width, width);
        },
        DocV::Text(s) => {
            let pos = sat_add(st.pos, crate::model::text_len(s) as nat);
            let next = St { pos, out: st.out.write(s), ..st };
            lemma_concat_steps(before, st.out, s, arbitrary::<A>());
            assert(St { pos, out: whole.out.write(s), ..whole } == within(next, outer, before));
            lemma_settle_split(next, outer, before, h, top, fits, inner && pos <= width, width);
        },
        DocV::Annotated(a, d) => {
            let next = St {
                levels: st.levels.push(st.bcmds.len()),
                out: st.out.push(a),
                ..st
            };
            lemma_concat_steps(before, st.out, Seq::<char>::empty(), a);
            assert(whole.levels.push(whole.bcmds.len()) =~= outer + next.levels);
            assert(St {
                levels: whole.levels.push(whole.bcmds.len()),
                out: whole.out.push(a),
                ..whole
            } == within(next, outer, before));
            lemma_go_split(next, (ind, mode, *d), outer, before, h, top, fits, inner, width);
        },
        DocV::Union(l, r) => {
            lemma_cmds_size_push(st.bcmds, (ind, mode, *l));
            let arm = St {
                pos: st.pos,
                bcmds: st.bcmds.push((ind, mode, *l)),
                levels: Seq::empty(),
                out: Out::empty(),
            };
            match run(arm, st.bcmds.len(), true, width) {
                Outcome::Done { out, pos, fits: true } => {
                    let next = St { pos, out: st.out.concat(out), ..st };
                    lemma_concat_assoc(before, st.out, out);
                    assert(St { pos, out: whole.out.concat(out), ..whole } == within(
                        next,
                        outer,
                        before,
                    ));
                    lemma_settle_split(next, outer, before, h, top, fits, inner, width);
                },
                _ => {
                    lemma_go_split(st, (ind, mode, *r), outer, before, h, top, fits, inner, width);
                },
            }
        },
        DocV::Column(f, bound) => {
            if f(st.pos).size() <= bound {
                lemma_go_split(
                    st,
                    (ind, mode, f(st.pos)),
                    outer,
                    before,
                    h,
                    top,
                    fits,
                    inner,
                    width,
                );
            }
        },
        DocV::Nesting(f, bound) => {
            if f(ind).size() <= bound {
                lemma_go_split(st, (ind, mode, f(ind)), outer, before, h, top, fits, inner, width);
            }
        },
        DocV::Fail => {},
    }
}

/// How a render ends inside an annotated part, after `before` was written:
/// where it ends of itself, the part is closed after it.
pub open spec fn closed<A>(before: Out<A>, end: Outcome<A>) -> Outcome<A> {
    match end {
        Outcome::Done { out, pos, fits } => Outcome::Done {
            out: before.concat(out).pop(),
            pos,
            fits,
        },
        Outcome::Failed { out } => Outcome::Failed { out: before.concat(out) },
    }
}

/// What an annotated document writes is the start of the annotated part,
/// then what the document writes of its own, then the end of the part: all
/// of its text lies between its two marks.
pub proof fn law_annotated_between_marks<A>(a: A, d: DocV<A>, width: usize)
    ensures
        layout(DocV::Annotated(a, Box::new(d)), width) == closed(
            Out::<A>::empty().push(a),
            layout(d, width),
        ),
{
    let before = Out::<A>::empty().push(a);
    lemma_layout_go(DocV::Annotated(a, Box::new(d)), width);
    lemma_layout_go(d, width);
    let st = start::<A>();
    let outer = St { levels: st.levels.push(st.bcmds.len()), out: st.out.push(a), ..st };
    assert(outer.levels =~= seq![0nat] + st.levels);
    assert(before.concat(st.out).text =~= before.text);
    assert(before.concat(st.out).marks =~= before.marks);
    assert(outer == within(st, seq![0nat], before));
    assert(st.bcmds.take(0) =~= Seq::<Cmd<A>>::empty());
    lemma_go_split(st, (0usize, Mode::Break, d), seq![0nat], before, 0, 0, true, true, width);
    reveal_with_fuel(pop_levels, 2);
}

/// Wherever a union stands in a render: where the trial of its first
/// document stays within the width and reaches no `Fail`, the render goes
/// on as if the first document stood in the place of the union. This holds
/// where the trial writes no line break, where the command that is pending
/// beneath the union is in `Break` mode, and where none is pending down to
/// `top`; a line break of the first document that is laid out in the place
/// of the union may else put flat commands beneath it in `Break` mode, which
/// the trial leaves as they are. What is asked of the open annotations
/// holds of every state that a render reaches: none is open above the
/// pending commands.
pub proof fn law_union_first_in_place<A>(
    st: St<A>,
    ind: usize,
    mode: Mode,
    l: DocV<A>,
    r: DocV<A>,
    top: nat,
    fits: bool,
    width: usize,
)
    requires
        top <= st.bcmds.len(),
        forall|i: int| 0 <= i < st.levels.len() ==> st.levels[i] <= st.bcmds.len(),
        union_trial(st, ind, mode, l, width) matches Outcome::Done { fits: true, .. },
        breaks_stay_above(st.bcmds, st.bcmds.len(), top) || on_one_line(
            union_trial(st, ind, mode, l, width),
        ),
    ensures
        go(st, (ind, mode, DocV::Union(Box::new(l), Box::new(r))), top, fits, width) == go(
            st,
            (ind, mode, l),
            top,
            fits,
            width,
        ),
{
    let h = st.bcmds.len();
    let alone = St { pos: st.pos, bcmds: st.bcmds, levels: Seq::<nat>::empty(), out: Out::<A>::empty() };
    assert(st.bcmds.push((ind, mode, l)).drop_last() =~= st.bcmds);
    assert(union_trial(st, ind, mode, l, width) == go(alone, (ind, mode, l), h, true, width));
    let whole = within(alone, st.levels, st.out);
    assert(whole.levels =~= st.levels);
    assert(whole.out.text =~= st.out.text);
    assert(whole.out.marks =~= st.out.marks);
    assert(whole == st);
    assert(st.bcmds.take(h as int) =~= st.bcmds);
    lemma_go_split(alone, (ind, mode, l), st.levels, st.out, h, top, fits, true, width);
}

/// Appends that are nested to the left and appends that are nested to the
/// right render identically at every width.
pub proof fn law_append_assoc_nodes<A>(a: DocV<A>, b: DocV<A>, c: DocV<A>, width: usize)
    ensures
        layout(
            DocV::Append(Box::new(DocV::Append(Box::new(a), Box::new(b))), Box::new(c)),
            width,
        ) == layout(
            DocV::Append(Box::new(a), Box::new(DocV::Append(Box::new(b), Box::new(c)))),
            width,
        ),
{
    let x = DocV::Append(Box::new(DocV::Append(Box::new(a), Box::new(b))), Box::new(c));
    let y = DocV::Append(Box::new(a), Box::new(DocV::Append(Box::new(b), Box::new(c))));
    lemma_layout_go(x, width);
    lemma_layout_go(y, width);
    law_append_assoc_step(a, b, c, start(), 0, Mode::Break, 0, true, width);
}

/// Whether no node of `d` reads the column, nor any node of what a nesting
/// node of `d` expands to.
pub open spec fn column_free<A>(d: DocV<A>) -> bool
    decreases d,
{
    match d {
        DocV::Append(l, r) => column_free(*l) && column_free(*r),
        DocV::FlatAlt(b, f) => column_free(*b) && column_free(*f),
        DocV::Union(l, r) => column_free(*l) && column_free(*r),
        DocV::Group(d) => column_free(*d),
        DocV::Nest(_, d) => column_free(*d),
        DocV::Annotated(_, d) => column_free(*d),
        DocV::RenderLen(_, d) => column_free(*d),
        DocV::Column(_, _) => false,
        DocV::Nesting(f, _) => forall|n: usize| column_free(#[trigger] f(n)),
        _ => true,
    }
}

/// Whether no document of `cmds` reads the column.
pub open spec fn cmds_column_free<A>(cmds: Seq<Cmd<A>>) -> bool {
    forall|i: int| 0 <= i < cmds.len() ==> column_free((#[trigger] cmds[i]).2)
}

proof fn lemma_spine_column_free<A>(d: DocV<A>, ind: usize, mode: Mode)
    requires
        column_free(d),
    ensures
        column_free(spine_first(d)),
        cmds_column_free(spine_rest(d, ind, mode)),
    decreases d,
{
    match d {
        DocV::Append(l, r) => {
            lemma_spine_column_free(*l, ind, mode);
            lemma_spine_column_free(*r, ind, mode);
        },
        _ => {},
    }
}

/// What fits from a column fits from every column to the left of it, where
/// no document that is looked at reads the column.
pub proof fn lemma_fits_doc_left<A>(
    doc: DocV<A>,
    fcmds: Seq<Cmd<A>>,
    mode: Mode,
    rest: Seq<Cmd<A>>,
    pos: usize,
    left: usize,
    ind: usize,
    width: usize,
)
    requires
        left <= pos,
        column_free(doc),
        cmds_column_free(fcmds),
        cmds_column_free(rest),
        fits_doc(doc, fcmds, mode, rest, pos, ind, width),
    ensures
        fits_doc(doc, fcmds, mode, rest, left, ind, width),
    decreases doc.size() + cmds_size(fcmds) + cmds_size(rest), 0nat,
{
    match doc {
        DocV::Nil => {
            lemma_fits_next_left(fcmds, mode, rest, pos, left, ind, width);
        },
        DocV::Append(_, _) => {
            let pushed = spine_rest(doc, ind, mode);
            lemma_spine_size(doc, ind, mode);
            lemma_cmds_size_add(fcmds, pushed);
            lemma_spine_column_free(doc, ind, mode);
            assert forall|i: int| 0 <= i < (fcmds + pushed).len() implies column_free(
                (#[trigger] (fcmds + pushed)[i]).2,
            ) by {
                if i < fcmds.len() {
                    assert((fcmds + pushed)[i] == fcmds[i]);
                } else {
                    assert((fcmds + pushed)[i] == pushed[i - fcmds.len()]);
                }
            }
            lemma_fits_doc_left(
                spine_first(doc),
                fcmds + pushed,
                mode,
                rest,
                pos,
                left,
                ind,
                width,
            );
        },
        DocV::Hardline => {},
        DocV::RenderLen(n, _) => {
            lemma_fits_next_left(
                fcmds,
                mode,
                rest,
                (pos + n) as usize,
                (left + n) as usize,
                ind,
                width,
            );
        },
        DocV::Text(s) => {
            lemma_fits_next_left(
                fcmds,
                mode,
                rest,
                (pos + crate::model::text_len(s)) as usize,
                (left + crate::model::text_len(s)) as usize,
                ind,
                width,
            );
        },
        DocV::FlatAlt(b, f) => {
            lemma_fits_doc_left(
                if mode == Mode::Break { *b } else { *f },
                fcmds,
                mode,
                rest,
                pos,
                left,
                ind,
                width,
            );
        },
        DocV::Column(f, bound) => {},
        DocV::Nesting(f, bound) => {
            lemma_fits_doc_left(f(ind), fcmds, mode, rest, pos, left, ind, width);
        },
        DocV::Nest(_, d) => {
            lemma_fits_doc_left(*d, fcmds, mode, rest, pos, left, ind, width);
        },
        DocV::Group(d) => {
            lemma_fits_doc_left(*d, fcmds, mode, rest, pos, left, ind, width);
        },
        DocV::Annotated(_, d) => {
            lemma_fits_doc_left(*d, fcmds, mode, rest, pos, left, ind, width);
        },
        DocV::Union(l, _) => {
            lemma_fits_doc_left(*l, fcmds, mode, rest, pos, left, ind, width);
        },
        DocV::Fail => {},
    }
}

/// As [`lemma_fits_doc_left`], with the next document still to be taken.
pub proof fn lemma_fits_next_left<A>(
    fcmds: Seq<Cmd<A>>,
    mode: Mode,
    rest: Seq<Cmd<A>>,
    pos: usize,
    left: usize,
    ind: usize,
    width: usize,
)
    requires
        left <= pos,
        cmds_column_free(fcmds),
        cmds_column_free(rest),
        fits_next(fcmds, mode, rest, pos, ind, width),
    ensures
        fits_next(fcmds, mode, rest, left, ind, width),
    decreases cmds_size(fcmds) + cmds_size(rest), 1nat,
{
    if fcmds.len() > 0 {
        assert(column_free(fcmds[fcmds.len() - 1].2));
        assert forall|i: int| 0 <= i < fcmds.drop_last().len() implies column_free(
            (#[trigger] fcmds.drop_last()[i]).2,
        ) by {
            assert(fcmds.drop_last()[i] == fcmds[i]);
        }
        lemma_fits_doc_left(
            fcmds.last().2,
            fcmds.drop_last(),
            mode,
            rest,
            pos,
            left,
            ind,
            width,
        );
    } else if rest.len() > 0 {
        assert(column_free(rest[rest.len() - 1].2));
        assert forall|i: int| 0 <= i < rest.drop_last().len() implies column_free(
            (#[trigger] rest.drop_last()[i]).2,
        ) by {
            assert(rest.drop_last()[i] == rest[i]);
        }
        lemma_fits_doc_left(
            rest.last().2,
            fcmds,
            Mode::Break,
            rest.drop_last(),
            pos,
            left,
            ind,
            width,
        );
    }
}

/// A group that fits from a column fits from every column to the left of it,
/// where neither the group nor what is pending reads the column.
pub proof fn law_group_fits_from_the_left<A>(
    d: DocV<A>,
    bcmds: Seq<Cmd<A>>,
    pos: usize,
    left: usize,
    ind: usize,
    width: usize,
)
    requires
        left <= pos,
        column_free(d),
        cmds_column_free(bcmds),
        fitting(d, bcmds, pos, ind, width),
    ensures
        fitting(d, bcmds, left, ind, width),
{
    lemma_fits_doc_left(d, Seq::empty(), Mode::Flat, bcmds, pos, left, ind, width);
}

proof fn lemma_tagged_depth<'a, A, W: RenderAnnotated<'a, A>>(marks: Seq<(nat, Mark<A>)>)
    ensures
        depth(tagged::<A, W>(Out { text: Seq::empty(), marks }).marks) == depth(marks),
    decreases marks.len(),
{
    let seen = tagged::<A, W>(Out { text: Seq::<char>::empty(), marks }).marks;
    if marks.len() > 0 {
        let less = tagged::<A, W>(Out { text: Seq::<char>::empty(), marks: marks.drop_last() }).marks;
        assert(seen.drop_last() =~= less);
        assert(seen.last().1 == tag_mark::<A, W>(marks.last().1));
        lemma_tagged_depth::<A, W>(marks.drop_last());
    }
}

/// A sink that is handed a finished render is handed as many ends of
/// annotated parts as starts, and no end before its start: after the render
/// as many parts are open on the sink as were before it, and where its marks
/// nested before they nest after.
pub proof fn law_balance_reaches_the_sink<'a, A, W: RenderAnnotated<'a, A>>(
    before: Out<int>,
    d: DocV<A>,
    width: usize,
)
    ensures
        layout(d, width) matches Outcome::Done { out, .. } ==> {
            &&& depth(before.concat(tagged::<A, W>(out)).marks) == depth(before.marks)
            &&& nested(before.marks) ==> nested(before.concat(tagged::<A, W>(out)).marks)
        },
{
    match layout(d, width) {
        Outcome::Done { out, .. } => {
            law_annotation_balance(d, width);
            let seen = tagged::<A, W>(out).marks;
            assert(seen =~= tagged::<A, W>(
                Out { text: Seq::<char>::empty(), marks: out.marks },
            ).marks);
            lemma_tagged_depth::<A, W>(out.marks);
            assert forall|k: int| 0 <= k <= seen.len() implies depth(#[trigger] seen.take(k))
                >= 0 by {
                assert(seen.take(k) =~= tagged::<A, W>(
                    Out { text: Seq::<char>::empty(), marks: out.marks.take(k) },
                ).marks);
                lemma_tagged_depth::<A, W>(out.marks.take(k));
            }
            lemma_depth_concat(before.marks, seen, before.text.len());
            if nested(before.marks) {
                assert(before.marks.take(before.marks.len() as int) =~= before.marks);
                lemma_nested_concat(before.marks, seen, before.text.len());
            }
        },
        _ => {},
    }
}

} // verus!
