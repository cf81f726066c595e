use pretty::block::{Affixes, BlockDoc};
use pretty::doc::{ColumnFn, Doc, FmtText, NoFn, RcDoc};

type D = RcDoc<(), NoFn>;

fn t(s: &str) -> D {
    RcDoc::text(s)
}

fn render<A, F: ColumnFn<A>>(doc: &RcDoc<A, F>, width: usize) -> String {
    let mut s = String::new();
    doc.render_fmt(width, &mut s).unwrap();
    s
}

#[test]
fn append_drops_the_empty_side() {
    assert!(matches!(*RcDoc::<(), NoFn>::nil().append(t("a")).0, Doc::Text(_)));
    assert!(matches!(*t("a").append(RcDoc::nil()).0, Doc::Text(_)));
    assert!(matches!(*t("a").append(t("b")).0, Doc::Append(_, _)));
    assert!(matches!(*RcDoc::<(), NoFn>::nil().append(RcDoc::nil()).0, Doc::Nil));
}

#[test]
fn text_shapes() {
    assert!(matches!(*t("").0, Doc::Nil));
    assert!(matches!(*t("abc").0, Doc::Text(_)));
    assert!(matches!(*t("ÅÄÖ").0, Doc::RenderLen(3, _)));
    assert!(matches!(*t("e\u{301}x").0, Doc::RenderLen(2, _)));
}

#[test]
fn as_string_keeps_short_texts_in_place() {
    assert!(matches!(*RcDoc::<(), NoFn>::as_string(12345).0, Doc::SmallText(_)));
    assert_eq!(render(&RcDoc::<(), NoFn>::as_string(12345), 80), "12345");
    let long = "abcdefghijklmnopqrstuvwxyz";
    assert!(matches!(*RcDoc::<(), NoFn>::as_string(long).0, Doc::Text(_)));
    assert_eq!(render(&RcDoc::<(), NoFn>::as_string(long), 80), long);
    let edge = "abcdefghijklmnopqrstuv";
    assert_eq!(edge.len(), 22);
    assert!(matches!(*RcDoc::<(), NoFn>::as_string(edge).0, Doc::SmallText(_)));
    assert!(matches!(*RcDoc::<(), NoFn>::as_string("ÅÄÖ").0, Doc::RenderLen(3, _)));
    assert_eq!(render(&RcDoc::<(), NoFn>::as_string("ÅÄÖ"), 80), "ÅÄÖ");
    assert_eq!(
        render(&RcDoc::group(RcDoc::<(), NoFn>::as_string(-7).append(RcDoc::line()).append(t("x"))), 3),
        "-7\nx"
    );
}

#[test]
fn text_built_piece_by_piece() {
    let mut text = FmtText::new();
    assert!(matches!(text, FmtText::Small(_)));
    text.write_str("0123456789");
    text.write_str("0123456789");
    assert!(matches!(text, FmtText::Small(_)));
    text.write_str("abc");
    match text {
        FmtText::Large(s) => assert_eq!(s, "01234567890123456789abc"),
        FmtText::Small(_) => panic!("the text has no room in place"),
    }
}

#[test]
fn group_leaves_texts_and_wraps_the_rest() {
    assert!(matches!(*t("a").group().0, Doc::Text(_)));
    assert!(matches!(*RcDoc::<(), NoFn>::as_string(7).group().0, Doc::SmallText(_)));
    assert!(matches!(*RcDoc::<(), NoFn>::nil().group().0, Doc::Nil));
    let g: D = RcDoc::line().group();
    assert!(matches!(*g.clone().0, Doc::Group(_)));
    match &*g.clone().group().0 {
        Doc::Group(inner) => assert!(matches!(*inner.0, Doc::Group(_))),
        _ => panic!("a group is wrapped in a group"),
    }
    assert!(matches!(*t("ÅÄÖ").group().0, Doc::Group(_)));
    assert!(matches!(*RcDoc::<(), NoFn>::hardline().group().0, Doc::Group(_)));
    let doc: D = t("a").append(g.clone().group()).append(t("b"));
    assert_eq!(render(&doc, 80), "a b");
    assert_eq!(render(&doc, 2), "a\nb");
    let once: D = t("a").append(g).append(t("b"));
    assert_eq!(render(&once, 80), "a b");
    assert_eq!(render(&once, 2), "a\nb");
}

#[test]
fn nest_skips_nothing_to_do() {
    assert!(matches!(*t("a").nest(0).0, Doc::Text(_)));
    assert!(matches!(*RcDoc::<(), NoFn>::nil().nest(3).0, Doc::Nil));
    assert!(matches!(*t("a").nest(3).0, Doc::Nest(3, _)));
    assert!(matches!(*t("a").nest(-3).0, Doc::Nest(-3, _)));
}

#[test]
fn annotate_always_wraps() {
    let doc: D = t("a").annotate(()).annotate(());
    match &*doc.0 {
        Doc::Annotated(_, inner) => assert!(matches!(*inner.0, Doc::Annotated(_, _))),
        _ => panic!("an annotation wraps"),
    }
    assert!(matches!(*RcDoc::<(), NoFn>::nil().annotate(()).0, Doc::Annotated(_, _)));
    assert!(matches!(*t("a").flat_alt(t("b")).0, Doc::FlatAlt(_, _)));
    assert!(matches!(*t("a").union(t("b")).0, Doc::Union(_, _)));
}

#[test]
fn concat_and_intersperse() {
    assert_eq!(render(&RcDoc::concat(vec![t("a"), t("b"), t("c")]), 80), "abc");
    assert_eq!(render(&RcDoc::<(), NoFn>::concat(Vec::new()), 80), "");
    let docs = vec![t("a"), t("b"), t("c")];
    assert_eq!(render(&RcDoc::intersperse(docs, t(", ")), 80), "a, b, c");
    assert_eq!(render(&RcDoc::intersperse(vec![t("a")], t(", ")), 80), "a");
    assert_eq!(render(&RcDoc::<(), NoFn>::intersperse(Vec::new(), t(", ")), 80), "");
    let docs = vec![t("aaa"), t("bbb"), t("ccc")];
    let doc = RcDoc::intersperse(docs, RcDoc::line()).group();
    assert_eq!(render(&doc, 11), "aaa bbb ccc");
    assert_eq!(render(&doc, 10), "aaa\nbbb\nccc");
}

#[test]
fn enclosers() {
    assert_eq!(render(&t("x").parens(), 80), "(x)");
    assert_eq!(render(&t("x").brackets(), 80), "[x]");
    assert_eq!(render(&t("x").braces(), 80), "{x}");
    assert_eq!(render(&t("x").angles(), 80), "<x>");
    assert_eq!(render(&t("x").single_quotes(), 80), "'x'");
    assert_eq!(render(&t("x").double_quotes(), 80), "\"x\"");
    assert_eq!(render(&t("x").enclose(t("<<"), t(">>")), 80), "<<x>>");
    assert_eq!(render(&RcDoc::<(), NoFn>::nil().parens(), 80), "()");
}

#[test]
fn align_sets_the_indentation_to_the_column() {
    let doc: D = t("lorem")
        .append(t(" "))
        .append(RcDoc::intersperse(vec![t("ipsum"), t("dolor")], RcDoc::line_()).align());
    assert_eq!(render(&doc, 80), "lorem ipsum\n      dolor");
}

#[test]
fn hang_nests_from_the_column() {
    let doc: D = t("prefix")
        .append(t(" "))
        .append(RcDoc::reflow("Indenting these words with nest").hang(4));
    assert_eq!(
        render(&doc, 24),
        "prefix Indenting these\n           words with\n           nest"
    );
}

#[test]
fn indent_moves_to_the_right() {
    let doc: D = t("prefix")
        .append(t(" "))
        .append(RcDoc::reflow("The indent function indents these words!").indent(4));
    assert_eq!(
        render(&doc, 24),
        "prefix     The indent\n           function\n           indents these\n           words!"
    );
    let doc: D = t("a").append(RcDoc::hardline()).append(t("b")).indent(120);
    let pad = " ".repeat(120);
    assert_eq!(render(&doc, 80), format!("{}a\n{}b", pad, pad));
    assert_eq!(render(&t("a").indent(0), 80), "a");
}

#[test]
fn reflow_splits_at_white_space() {
    assert_eq!(render(&RcDoc::<(), NoFn>::reflow("a  b\tc\nd"), 80), "a  b c d");
    assert_eq!(render(&RcDoc::<(), NoFn>::reflow("a  b\tc\nd"), 1), "a\n\nb\nc\nd");
    assert_eq!(render(&RcDoc::<(), NoFn>::reflow(""), 80), "");
    assert_eq!(render(&RcDoc::<(), NoFn>::reflow("one"), 80), "one");
    assert_eq!(render(&RcDoc::<(), NoFn>::reflow("a\u{2003}b"), 80), "a b");
    assert_eq!(render(&RcDoc::<(), NoFn>::reflow("ö ü"), 2), "ö\nü");
}

/// Writes its argument between square brackets.
struct Nested;

impl ColumnFn<()> for Nested {
    fn call(&self, n: usize) -> RcDoc<(), Nested> {
        RcDoc::text("[Nested: ").append(RcDoc::as_string(n)).append(RcDoc::text("]"))
    }

    fn call_width(&self, width: isize) -> RcDoc<(), Nested> {
        RcDoc::text("|").append(RcDoc::as_string(width))
    }
}

#[test]
fn nesting_reads_the_indentation() {
    let doc: RcDoc<(), Nested> = RcDoc::text("prefix ").append(RcDoc::nesting(Nested).nest(4));
    assert_eq!(render(&doc, 80), "prefix [Nested: 4]");
    let doc: RcDoc<(), Nested> = RcDoc::text("prefix ").append(RcDoc::column(Nested).nest(4));
    assert_eq!(render(&doc, 80), "prefix [Nested: 7]");
}

#[test]
fn width_measures_a_document() {
    let doc: RcDoc<(), Nested> = RcDoc::text("> ").append(RcDoc::text("abc").width(Nested));
    assert_eq!(render(&doc, 80), "> abc|3");
    let doc: RcDoc<(), Nested> = RcDoc::text("abcdef")
        .append(RcDoc::text("x").append(RcDoc::hardline()).append(RcDoc::text("y")).width(Nested));
    assert_eq!(render(&doc, 80), "abcdefx\ny|-5");
}

/// Breaks the line where the indentation is two.
struct BreakAtTwo;

impl ColumnFn<()> for BreakAtTwo {
    fn call(&self, n: usize) -> RcDoc<(), BreakAtTwo> {
        if n == 2 {
            RcDoc::hardline()
        } else {
            RcDoc::nil()
        }
    }
}

#[test]
fn hardline_in_a_flat_group_decides_the_rest_anew() {
    let doc: RcDoc<(), BreakAtTwo> = RcDoc::nesting(BreakAtTwo)
        .nest(2)
        .append(RcDoc::text("aa"))
        .append(RcDoc::line())
        .append(RcDoc::text("bbbb"))
        .group();
    assert_eq!(render(&doc, 80), "\n  aa bbbb");
    assert_eq!(render(&doc, 9), "\n  aa bbbb");
    assert_eq!(render(&doc, 8), "\n  aa\nbbbb");
    assert_eq!(render(&doc, 3), "\n  aa\nbbbb");
}

#[test]
fn documents_are_shared() {
    let part: D = RcDoc::group(t("ab").append(RcDoc::line()).append(t("cd")));
    let doc = part.clone().append(RcDoc::hardline()).append(part.clone());
    assert_eq!(render(&doc, 80), "ab cd\nab cd");
    assert_eq!(render(&doc, 3), "ab\ncd\nab\ncd");
    assert_eq!(render(&part, 80), "ab cd");
}

#[test]
fn format_block() {
    let mk_doc = || BlockDoc {
        affixes: vec![
            Affixes::new(t("\\x y ->"), RcDoc::nil()).nest(),
            Affixes::new(RcDoc::line().append(t("\\z ->")), RcDoc::nil()).nest(),
            Affixes::new(RcDoc::line().append(t("{")), RcDoc::line().append(t("}"))).nest(),
        ],
        body: RcDoc::line().append(t("result")),
    };
    assert_eq!(render(&mk_doc().format(4), 40), "\\x y -> \\z -> { result }");
    assert_eq!(render(&mk_doc().format(4), 15), "\\x y -> \\z -> {\n    result\n}");
    assert_eq!(
        render(&mk_doc().format(4), 14),
        "\\x y -> \\z ->\n    {\n        result\n    }"
    );
    assert_eq!(
        render(&mk_doc().format(4), 12),
        "\\x y ->\n    \\z ->\n        {\n            result\n        }"
    );
}

#[test]
fn block_without_affixes_is_its_body() {
    let block: BlockDoc<(), NoFn> = BlockDoc { affixes: Vec::new(), body: t("body") };
    assert_eq!(render(&block.format(2), 80), "body");
    let plain = Affixes::new(t("f("), t(")"));
    assert!(!plain.nest);
    let block = BlockDoc { affixes: vec![plain], body: RcDoc::line_().append(t("x")) };
    assert_eq!(render(&block.format(2), 80), "f(x)");
    let block = BlockDoc {
        affixes: vec![Affixes::new(t("f("), t(")")).nest()],
        body: RcDoc::line_().append(t("x")),
    };
    assert_eq!(render(&block.format(2), 2), "f(\n  x)");
}

#[test]
fn function_objects_that_do_nothing() {
    let d: RcDoc<(), NoFn> = NoFn.call(3);
    assert!(matches!(*d.0, Doc::Nil));
    let d: RcDoc<u8, NoFn> = NoFn.call_width(-1);
    assert!(matches!(*d.0, Doc::Nil));
    let d: RcDoc<(), BreakAtTwo> = BreakAtTwo.call_width(4);
    assert!(matches!(*d.0, Doc::Nil));
    let doc: RcDoc<(), BreakAtTwo> = RcDoc::text("ab").width(BreakAtTwo).append(RcDoc::text("c"));
    assert_eq!(render(&doc, 80), "abc");
    let doc: D = t("a").append(RcDoc::column(NoFn)).append(t("b").width(NoFn));
    assert_eq!(render(&doc, 80), "ab");
}

#[test]
fn as_string_checked() {
    let doc = RcDoc::<(), NoFn>::try_as_string(12345).unwrap();
    assert_eq!(render(&doc, 80), "12345");
    assert!(RcDoc::<(), NoFn>::try_as_string("a\nb").is_none());
    assert!(RcDoc::<(), NoFn>::try_as_string("a\rb").is_none());
    assert!(RcDoc::<(), NoFn>::try_as_string("ö\u{2028}").is_some());
    assert!(matches!(*RcDoc::<(), NoFn>::try_as_string("").unwrap().0, Doc::SmallText(_)));
    assert!(matches!(*RcDoc::<(), NoFn>::shown("").0, Doc::SmallText(_)));
    assert!(matches!(*RcDoc::<(), NoFn>::shown("ÅÄÖ").0, Doc::RenderLen(3, _)));
    assert_eq!(render(&RcDoc::<(), NoFn>::shown("abcdefghijklmnopqrstuvwxyz"), 80), "abcdefghijklmnopqrstuvwxyz");
    assert!(pretty::doc::contains_line_break("a\n"));
    assert!(pretty::doc::contains_line_break("\rö"));
    assert!(!pretty::doc::contains_line_break("öa b\t"));
    assert!(!pretty::doc::contains_line_break(""));
}
