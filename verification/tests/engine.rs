use pretty::best::{append_docs, lay_out, Best};
use pretty::doc::{Doc, NoFn, RcDoc};
use pretty::model::Mode;
use pretty::render::BufferWrite;

type D = RcDoc<(), NoFn>;

fn t(s: &str) -> D {
    RcDoc::text(s)
}

fn engine<'d>(
    doc: &'d D,
    width: usize,
    arena: &'d typed_arena::Arena<D>,
) -> Best<'d, (), NoFn> {
    Best {
        pos: 0,
        bcmds: vec![(0, Mode::Break, &*doc.0)],
        fcmds: Vec::new(),
        annotation_levels: Vec::new(),
        width,
        temp_arena: arena,
    }
}

fn text_of(buffer: &BufferWrite<()>) -> String {
    let mut s = String::new();
    buffer.write_into(&mut s);
    s
}

#[test]
fn overflow_outside_a_union_is_no_error() {
    let doc = t("abcdef").append(RcDoc::line()).append(t("gh"));
    let arena = typed_arena::Arena::new();
    let mut best = engine(&doc, 3, &arena);
    let mut out = BufferWrite::new();
    assert_eq!(best.best(0, &mut out), Ok(false));
    assert_eq!(text_of(&out), "abcdef\ngh");
    assert_eq!(best.pos, 2);
    assert!(best.bcmds.is_empty());

    let mut best = engine(&doc, 6, &arena);
    let mut out = BufferWrite::new();
    out.write_text("> ");
    assert_eq!(best.best(0, &mut out), Ok(true));
    assert_eq!(text_of(&out), "> abcdef\ngh");
}

#[test]
fn engine_stops_at_the_given_height() {
    let below = t("below");
    let above = t("above").append(RcDoc::fail());
    let arena = typed_arena::Arena::new();
    let mut best = engine(&below, 80, &arena);
    best.bcmds.push((0, Mode::Break, &*above.0));
    let mut out = BufferWrite::new();
    assert_eq!(best.best(1, &mut out), Err(()));
    assert_eq!(text_of(&out), "above");
    assert!(best.bcmds.len() >= 1);
    assert!(matches!(best.bcmds[0].2, Doc::Text(_)));
    best.bcmds.truncate(1);
    let mut out = BufferWrite::new();
    assert_eq!(best.best(0, &mut out), Ok(true));
    assert_eq!(text_of(&out), "below");
}

#[test]
fn fitting_looks_up_to_the_next_line_break() {
    let rest = RcDoc::line().append(t("a very long tail"));
    let arena = typed_arena::Arena::new();
    let mut best = engine(&rest, 10, &arena);
    let word = t("12345");
    let long = t("12345678901");
    let broken = t("12").append(RcDoc::hardline());
    let failing = t("12").append(RcDoc::fail());
    let empty: D = RcDoc::nil();
    assert!(best.fitting(&word.0, 0, 0));
    assert!(best.fitting(&word.0, 5, 0));
    assert!(!best.fitting(&word.0, 6, 0));
    assert!(!best.fitting(&long.0, 0, 0));
    assert!(!best.fitting(&broken.0, 0, 0));
    assert!(!best.fitting(&failing.0, 0, 0));
    assert!(best.fitting(&empty.0, 10, 0));
    assert!(!best.fitting(&empty.0, 11, 0));
    assert!(!best.fitting(&word.0, 11, 0));
    assert_eq!(best.bcmds.len(), 1);

    // Without a line break in what is pending, the tail counts too.
    let tail = t("tail");
    let either = t("123456").union(t("1"));
    let mut best = engine(&tail, 10, &arena);
    assert!(best.fitting(&word.0, 1, 0));
    assert!(!best.fitting(&word.0, 2, 0));
    // The first document of a union counts.
    assert!(best.fitting(&either.0, 0, 0));
    assert!(!best.fitting(&either.0, 1, 0));
}

#[test]
fn appends_are_pushed_leaf_by_leaf() {
    let doc = t("a").append(t("b").append(t("c"))).append(t("d").append(t("e")));
    let mut stack = Vec::new();
    let first = append_docs(&doc.0, 3, Mode::Flat, &mut stack);
    let shown = |d: &Doc<(), NoFn>| match d {
        Doc::Text(s) => s.clone(),
        _ => String::from("?"),
    };
    assert_eq!(shown(first), "a");
    let pushed: Vec<String> = stack.iter().map(|c| shown(c.2)).collect();
    assert_eq!(pushed, ["e", "d", "c", "b"]);
    assert!(stack.iter().all(|c| c.0 == 3 && c.1 == Mode::Flat));
}

#[test]
fn lay_out_hands_back_what_was_written() {
    let doc: D = RcDoc::group(t("a").append(RcDoc::line()).append(t("b")));
    let arena = typed_arena::Arena::new();
    let (buffer, done) = lay_out(&doc.0, 80, &arena);
    assert!(done);
    assert_eq!(text_of(&buffer), "a b");
    let doc: D = t("a").append(RcDoc::fail()).append(t("b"));
    let (buffer, done) = lay_out(&doc.0, 80, &arena);
    assert!(!done);
    assert_eq!(text_of(&buffer), "a");
}

#[test]
fn nothing_fits_beyond_the_width() {
    let arena = typed_arena::Arena::new();
    let empty: D = RcDoc::nil();
    let word = t("abc");
    let nothing: D = RcDoc::nil();
    let mut best = engine(&nothing, 0, &arena);
    best.bcmds.clear();
    assert!(best.fitting(&empty.0, 0, 0));
    assert!(!best.fitting(&empty.0, 1, 0));
    let mut best = engine(&nothing, 5, &arena);
    best.bcmds.clear();
    assert!(best.fitting(&word.0, 2, 0));
    assert!(!best.fitting(&word.0, 3, 0));
    assert!(!best.fitting(&empty.0, 6, 0));
}

#[test]
fn the_open_annotations_are_left_as_they_were() {
    let doc: D = t("a").annotate(()).append(t("b"));
    let arena = typed_arena::Arena::new();
    let mut best = engine(&doc, 80, &arena);
    best.annotation_levels = vec![7, 0];
    let mut out = BufferWrite::new();
    assert_eq!(best.best(0, &mut out), Ok(true));
    assert_eq!(text_of(&out), "ab");
    assert_eq!(best.annotation_levels, [7, 0]);

    let failing: D = t("a").append(RcDoc::fail()).annotate(());
    let mut best = engine(&failing, 80, &arena);
    best.annotation_levels = vec![7];
    let mut out = BufferWrite::new();
    assert_eq!(best.best(0, &mut out), Err(()));
    assert_eq!(text_of(&out), "a");
    assert_eq!(best.annotation_levels, [7]);
}
