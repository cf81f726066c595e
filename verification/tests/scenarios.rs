use pretty::doc::{ColumnFn, NoFn, RcDoc};
use pretty::render::{FmtWrite, IoWrite, Render, RenderAnnotated};
use pretty::text::{nl_space, nl_spaces, pad_left, pad_right, replicate, spaces};

type D = RcDoc<(), NoFn>;

fn t(s: &str) -> D {
    RcDoc::text(s)
}

fn render<A, F: ColumnFn<A>>(doc: &RcDoc<A, F>, width: usize) -> String {
    let mut s = String::new();
    doc.render_fmt(width, &mut s).unwrap();
    s
}

#[test]
fn group_fits_or_breaks() {
    let doc: D = RcDoc::group(t("test").append(RcDoc::line()).append(t("test")));
    assert_eq!(render(&doc, 70), "test test");
    assert_eq!(render(&doc, 5), "test\ntest");
}

#[test]
fn nested_block_breaks_as_a_whole() {
    let doc: D = RcDoc::group(
        t("{")
            .append(
                RcDoc::line()
                    .append(t("a"))
                    .append(RcDoc::line())
                    .append(t("b"))
                    .nest(2),
            )
            .append(RcDoc::line())
            .append(t("}")),
    );
    assert_eq!(render(&doc, 5), "{\n  a\n  b\n}");
    assert_eq!(render(&doc, 80), "{ a b }");
}

#[test]
fn hardline_outside_group() {
    let doc: D = t("test").append(RcDoc::hardline()).append(t("test"));
    assert_eq!(render(&doc, 70), "test\ntest");
}

#[test]
fn union_with_failing_break() {
    let doc: D = RcDoc::fail()
        .flat_alt(RcDoc::nil())
        .append(t("12345"))
        .group()
        .union(t("abc"));
    assert_eq!(render(&doc, 5), "12345");
    assert_eq!(render(&doc, 4), "abc");
}

/// Writes the column it is reached at.
struct ColEq;

impl ColumnFn<()> for ColEq {
    fn call(&self, c: usize) -> RcDoc<(), ColEq> {
        RcDoc::text("col=").append(RcDoc::as_string(c))
    }
}

#[test]
fn column_reads_the_position() {
    let doc: RcDoc<(), ColEq> = RcDoc::text("prefix ").append(RcDoc::column(ColEq));
    assert_eq!(render(&doc, 80), "prefix col=7");
}

#[test]
fn non_ascii_counts_graphemes() {
    let doc: D = RcDoc::group(t("ÅÄÖ").append(RcDoc::line()).append(t("test")));
    assert_eq!(render(&doc, 8), "ÅÄÖ test");
    assert_eq!(render(&doc, 7), "ÅÄÖ\ntest");
}

/// Writes its argument as a number.
struct Show;

impl ColumnFn<()> for Show {
    fn call(&self, n: usize) -> RcDoc<(), Show> {
        RcDoc::as_string(n)
    }

    fn call_width(&self, width: isize) -> RcDoc<(), Show> {
        RcDoc::as_string(width)
    }
}

#[test]
fn display_length_is_counted_in_grapheme_clusters() {
    // One cluster of two characters and three bytes.
    let doc: RcDoc<(), Show> = RcDoc::text("e\u{301}").append(RcDoc::column(Show));
    assert_eq!(render(&doc, 80), "e\u{301}1");
    let doc: RcDoc<(), Show> = RcDoc::text("ÅÄÖ").append(RcDoc::column(Show));
    assert_eq!(render(&doc, 80), "ÅÄÖ3");
    let doc: RcDoc<(), Show> = RcDoc::text("abc").append(RcDoc::column(Show));
    assert_eq!(render(&doc, 80), "abc3");
}

#[test]
fn nil_is_the_identity_of_append() {
    let doc: D = RcDoc::group(t("a").append(RcDoc::line()).append(t("b")));
    for width in [0, 1, 3, 80] {
        let expected = render(&doc, width);
        assert_eq!(render(&RcDoc::nil().append(doc.clone()), width), expected);
        assert_eq!(render(&doc.clone().append(RcDoc::nil()), width), expected);
    }
    assert_eq!(render(&RcDoc::<(), NoFn>::nil(), 80), "");
    assert_eq!(render(&t(""), 80), "");
}

#[test]
fn append_is_associative() {
    let a: D = RcDoc::group(t("aa").append(RcDoc::line()).append(t("bb")));
    let b: D = RcDoc::line().append(t("cc")).nest(2);
    let c: D = RcDoc::group(RcDoc::line().append(t("dd")));
    for width in [0, 2, 5, 8, 11, 80] {
        let left = a.clone().append(b.clone()).append(c.clone());
        let right = a.clone().append(b.clone().append(c.clone()));
        assert_eq!(render(&left, width), render(&right, width));
    }
    let left = a.clone().append(b.clone()).append(c.clone());
    assert_eq!(render(&left, 5), "aa bb\n  cc\ndd");
    assert_eq!(render(&left, 80), "aa bb\n  cc dd");
}

#[test]
fn texts_concatenate() {
    for width in [0, 3, 80] {
        assert_eq!(render(&t("foo").append(t("bar")), width), render(&t("foobar"), width));
        assert_eq!(render(&t("ÅÄ").append(t("Ö")), width), "ÅÄÖ");
    }
    assert_eq!(render(&t("foo").append(t("bar")), 80), "foobar");
}

#[test]
fn nest_adds_up() {
    let body: D = t("a").append(RcDoc::hardline()).append(t("b"));
    assert_eq!(render(&body.clone().nest(0), 80), "a\nb");
    assert_eq!(render(&body.clone().nest(3).nest(2), 80), "a\n     b");
    assert_eq!(render(&body.clone().nest(5), 80), "a\n     b");
    assert_eq!(render(&body.clone().nest(-2).nest(2), 80), "a\nb");
    // A negative step that is cut off at the margin is not regained.
    assert_eq!(render(&body.clone().nest(2).nest(-2), 80), "a\n  b");
    assert_eq!(render(&body.nest(-5), 80), "a\nb");
}

fn lines(s: &str) -> usize {
    s.split('\n').count()
}

#[test]
fn nested_groups_take_fewer_lines_on_wider_pages() {
    let doc: D = RcDoc::group(
        t("aaa")
            .append(RcDoc::line())
            .append(RcDoc::group(t("bbb").append(RcDoc::line()).append(t("ccc")))),
    );
    assert_eq!(render(&doc, 5), "aaa\nbbb\nccc");
    assert_eq!(render(&doc, 7), "aaa\nbbb ccc");
    assert_eq!(render(&doc, 11), "aaa bbb ccc");
    let mut last = usize::MAX;
    for width in 0..20 {
        let n = lines(&render(&doc, width));
        assert!(n <= last);
        last = n;
    }
}

#[test]
fn groups_are_decided_one_by_one() {
    // The first group looks no further than the next possible line break, so
    // at width 2 it stays flat and leaves no room for what follows.
    let doc: D = RcDoc::group(t("a").append(RcDoc::line()))
        .append(RcDoc::group(RcDoc::line_().append(RcDoc::line())));
    assert_eq!(render(&doc, 1), "a\n ");
    assert_eq!(render(&doc, 2), "a \n\n");
    assert_eq!(render(&doc, 3), "a  ");
}

#[test]
fn hardline_breaks_at_any_width() {
    let doc: D = RcDoc::group(t("a").append(RcDoc::hardline().nest(2).annotate(())).append(t("b")));
    for width in [0, 1, 10, usize::MAX] {
        assert!(render(&doc, width).contains('\n'));
    }
    assert_eq!(render(&doc, 10), "a\n  b");
    // A hard line break in a document that a union drops is not written.
    let doc: D = RcDoc::hardline().append(t("aaaaa")).union(t("b"));
    assert_eq!(render(&doc, 3), "b");
    assert_eq!(render(&doc, 5), "\naaaaa");
}

/// Counts the annotation calls and checks that they nest.
struct Counting {
    text: String,
    pushes: usize,
    pops: usize,
    open: Vec<u8>,
}

impl Render for Counting {
    type Error = ();

    fn write_str(&mut self, s: &str) -> Result<usize, ()> {
        self.text.push_str(s);
        Ok(s.len())
    }

    fn write_str_all(&mut self, s: &str) -> Result<(), ()> {
        self.text.push_str(s);
        Ok(())
    }

    fn fail_doc(&self) {}
}

impl<'a> RenderAnnotated<'a, u8> for Counting {
    fn push_annotation(&mut self, a: &'a u8) -> Result<(), ()> {
        self.pushes += 1;
        self.open.push(*a);
        self.text.push_str(&format!("<{}>", a));
        Ok(())
    }

    fn pop_annotation(&mut self) -> Result<(), ()> {
        self.pops += 1;
        let a = self.open.pop().unwrap();
        self.text.push_str(&format!("</{}>", a));
        Ok(())
    }
}

fn counting() -> Counting {
    Counting { text: String::new(), pushes: 0, pops: 0, open: Vec::new() }
}

#[test]
fn annotations_are_balanced() {
    let inner: RcDoc<u8, NoFn> = RcDoc::text("b").annotate(2);
    let doc: RcDoc<u8, NoFn> = RcDoc::text("a")
        .append(RcDoc::line())
        .append(inner)
        .annotate(1)
        .append(RcDoc::text("c").annotate(3))
        .group();
    for width in [0, 2, 80] {
        let mut out = counting();
        doc.render_raw(width, &mut out).unwrap();
        assert_eq!(out.pushes, 3);
        assert_eq!(out.pops, 3);
        assert!(out.open.is_empty());
    }
    let mut out = counting();
    doc.render_raw(80, &mut out).unwrap();
    assert_eq!(out.text, "<1>a <2>b</2></1><3>c</3>");
}

#[test]
fn annotation_around_a_rejected_union_is_closed() {
    let doc: RcDoc<u8, NoFn> = RcDoc::text("12345678")
        .annotate(7)
        .union(RcDoc::text("abc"))
        .annotate(1)
        .append(RcDoc::text("z"));
    let mut out = counting();
    doc.render_raw(4, &mut out).unwrap();
    assert_eq!(out.text, "<1>abc</1>z");
    assert_eq!(out.pushes, out.pops);
    let mut out = counting();
    doc.render_raw(40, &mut out).unwrap();
    assert_eq!(out.text, "<1><7>12345678</7></1>z");
}

#[test]
fn union_prefers_its_first_document() {
    let l: D = t("aaa").append(RcDoc::hardline()).append(t("b"));
    let r: D = t("c");
    let u = l.clone().union(r.clone());
    assert_eq!(render(&u, 3), render(&l, 3));
    assert_eq!(render(&u, 3), "aaa\nb");
    assert_eq!(render(&u, 2), render(&r, 2));
    assert_eq!(render(&u, 2), "c");
    let nested: D = t("aaaaaaaa").union(t("bbbbb")).union(t("cc"));
    assert_eq!(render(&nested, 8), "aaaaaaaa");
    assert_eq!(render(&nested, 6), "bbbbb");
    assert_eq!(render(&nested, 4), "cc");
    assert_eq!(render(&nested, 1), "cc");
}

#[test]
fn flat_alt_shows_one_side() {
    let alt: D = t("broken").flat_alt(t("flat"));
    assert_eq!(render(&alt, 80), "broken");
    assert_eq!(render(&alt.clone().group(), 80), "flat");
    assert_eq!(render(&alt.clone().group(), 3), "broken");
    assert_eq!(render(&RcDoc::group(alt.group()), 80), "flat");
}

#[test]
fn flat_alt_between_lets() {
    let body: D = RcDoc::line().append(t("x"));
    let doc: D = t("let")
        .append(RcDoc::line())
        .append(t("x"))
        .group()
        .append(body.clone().flat_alt(RcDoc::line().append(t("in")).append(body)))
        .group();
    assert_eq!(render(&doc, 100), "let x in x");
    assert_eq!(render(&doc, 8), "let x\nx");
}

#[test]
fn empty_line_alternative() {
    let doc: D = RcDoc::group(
        t("(")
            .append(
                RcDoc::line_()
                    .append(t("test"))
                    .append(RcDoc::line())
                    .append(t("test"))
                    .nest(2),
            )
            .append(RcDoc::line_())
            .append(t(")")),
    );
    assert_eq!(render(&doc, 5), "(\n  test\n  test\n)");
    assert_eq!(render(&doc, 100), "(test test)");
}

#[test]
fn softlines() {
    let doc: D = t("let")
        .append(RcDoc::softline())
        .append(t("x"))
        .append(RcDoc::softline())
        .append(t("="))
        .append(RcDoc::softline())
        .append(t("123"));
    assert_eq!(render(&doc, 80), "let x = 123");
    assert_eq!(render(&doc, 5), "let x\n= 123");
    assert_eq!(render(&doc, 3), "let\nx =\n123");
    let doc: D = t("ab").append(RcDoc::softline_()).append(t("cd"));
    assert_eq!(render(&doc, 80), "abcd");
    assert_eq!(render(&doc, 3), "ab\ncd");
    assert_eq!(render(&RcDoc::<(), NoFn>::space(), 80), " ");
}

#[test]
fn width_zero_breaks_every_group() {
    let doc: D = RcDoc::group(t("a").append(RcDoc::line()).append(t("b")));
    assert_eq!(render(&doc, 0), "a\nb");
}

#[test]
fn fail_outside_a_union_is_an_error() {
    let doc: D = t("a").append(RcDoc::fail());
    let mut s = String::new();
    assert!(doc.render_fmt(80, &mut s).is_err());
    assert_eq!(s, "a");
    let mut v = Vec::new();
    let e = doc.render(80, &mut v).unwrap_err();
    assert_eq!(e.kind(), std::io::ErrorKind::Other);
    assert_eq!(e.to_string(), "Document failed to render");
    let mut out = FmtWrite::new(String::new());
    assert!(doc.render_raw(80, &mut out).is_err());
    assert_eq!(out.upstream, "a");
}

#[test]
fn sinks_take_the_text() {
    let doc: D = RcDoc::group(t("a").append(RcDoc::line().append(t("ö")).nest(3)).annotate(()));
    let mut out = FmtWrite::new(String::from(">"));
    doc.render_raw(1, &mut out).unwrap();
    assert_eq!(out.upstream, ">a\n   ö");
    let mut out = IoWrite::new(Vec::new());
    doc.render_raw(1, &mut out).unwrap();
    assert_eq!(out.upstream, "a\n   ö".as_bytes());
    let mut v = vec![b'>'];
    doc.render(80, &mut v).unwrap();
    assert_eq!(v, ">a ö".as_bytes());
    assert_eq!(doc.pretty(80).to_string(), "a ö");
    assert_eq!(doc.pretty(1).to_string(), "a\n   ö");
}

#[test]
fn deep_indentation_is_written_in_chunks() {
    let doc: D = t("a").append(RcDoc::hardline().append(t("b")).nest(250));
    let expected = format!("a\n{}b", " ".repeat(250));
    assert_eq!(render(&doc, 80), expected);
    let mut out = FmtWrite::new(String::new());
    doc.render_raw(80, &mut out).unwrap();
    assert_eq!(out.upstream, expected);
}

/// A sink that takes three bytes at a time at most, and sometimes none.
struct Slow {
    text: String,
    calls: usize,
}

impl Render for Slow {
    type Error = ();

    fn write_str(&mut self, s: &str) -> Result<usize, ()> {
        self.calls += 1;
        if self.calls % 3 == 0 {
            return Ok(0);
        }
        let n = s.len().min(3);
        self.text.push_str(&s[..n]);
        Ok(n)
    }

    fn write_str_all(&mut self, s: &str) -> Result<(), ()> {
        self.text.push_str(s);
        Ok(())
    }

    fn fail_doc(&self) {}
}

impl<'a> RenderAnnotated<'a, ()> for Slow {
    fn push_annotation(&mut self, _: &'a ()) -> Result<(), ()> {
        Ok(())
    }

    fn pop_annotation(&mut self) -> Result<(), ()> {
        Ok(())
    }
}

#[test]
fn partial_writes_are_completed() {
    let doc: D = t("a").append(RcDoc::hardline().append(t("b")).nest(10));
    let mut out = Slow { text: String::new(), calls: 0 };
    doc.render_raw(80, &mut out).unwrap();
    assert_eq!(out.text, "a\n          b");
    let mut out = Slow { text: String::new(), calls: 0 };
    pretty::render::write_spaces(7, &mut out).unwrap();
    assert_eq!(out.text, "       ");
    let mut out = Slow { text: String::new(), calls: 0 };
    pretty::render::write_newline(2, &mut out).unwrap();
    assert_eq!(out.text, "\n  ");
}

/// A sink that fails after a number of calls.
struct Failing {
    text: String,
    left: usize,
}

impl Render for Failing {
    type Error = &'static str;

    fn write_str(&mut self, s: &str) -> Result<usize, &'static str> {
        self.write_str_all(s).map(|_| s.len())
    }

    fn write_str_all(&mut self, s: &str) -> Result<(), &'static str> {
        if self.left == 0 {
            return Err("full");
        }
        self.left -= 1;
        self.text.push_str(s);
        Ok(())
    }

    fn fail_doc(&self) -> &'static str {
        "failed"
    }
}

impl<'a> RenderAnnotated<'a, ()> for Failing {
    fn push_annotation(&mut self, _: &'a ()) -> Result<(), &'static str> {
        Ok(())
    }

    fn pop_annotation(&mut self) -> Result<(), &'static str> {
        Ok(())
    }
}

#[test]
fn the_first_error_of_the_sink_ends_the_render() {
    let doc: D = t("a").append(t("b")).append(t("c"));
    let mut out = Failing { text: String::new(), left: 2 };
    assert_eq!(doc.render_raw(80, &mut out), Err("full"));
    assert_eq!(out.text, "ab");
    let doc: D = t("a").append(RcDoc::fail());
    let mut out = Failing { text: String::new(), left: 2 };
    assert_eq!(doc.render_raw(80, &mut out), Err("failed"));
    assert_eq!(out.text, "a");
}

#[test]
fn strings_of_spaces() {
    assert_eq!(spaces(0), "");
    assert_eq!(spaces(3), "   ");
    assert_eq!(nl_spaces(2), "\n  ");
    assert_eq!(nl_space(0), "\n");
    assert_eq!(nl_space(4), "\n    ");
}

#[test]
fn padding() {
    assert_eq!(pad_right('.', 5, String::from("ab")), "ab...");
    assert_eq!(pad_right('.', 2, String::from("abc")), "abc");
    assert_eq!(pad_left('0', 4, String::from("7")), "0007");
    assert_eq!(pad_left('0', 1, String::from("7")), "7");
    assert_eq!(pad_left(' ', 3, String::new()), "   ");
    assert_eq!(replicate(7u8, 3), vec![7, 7, 7]);
    assert_eq!(replicate(String::from("x"), 0), Vec::<String>::new());
}

#[test]
fn lookahead_takes_the_first_document_of_a_union() {
    let doc: D = RcDoc::group(t("a").append(RcDoc::line()).append(t("bbbb").union(t("c"))));
    assert_eq!(render(&doc, 80), "a bbbb");
    assert_eq!(render(&doc, 6), "a bbbb");
    assert_eq!(render(&doc, 5), "a\nbbbb");
    assert_eq!(render(&doc, 3), "a\nc");
}

#[test]
fn indentation_and_offsets_saturate() {
    use_offsets();
}

fn use_offsets() {
    assert_eq!(pretty::best::indent_by(3, 4), 7);
    assert_eq!(pretty::best::indent_by(3, -2), 1);
    assert_eq!(pretty::best::indent_by(3, -5), 0);
    assert_eq!(pretty::best::indent_by(0, isize::MIN), 0);
    assert_eq!(pretty::best::indent_by(usize::MAX, 1), usize::MAX);
    assert_eq!(pretty::best::indent_by(usize::MAX, isize::MIN), (usize::MAX >> 1));
    assert_eq!(pretty::doc::offset_between(5, 2), 3);
    assert_eq!(pretty::doc::offset_between(2, 5), -3);
    assert_eq!(pretty::doc::offset_between(7, 7), 0);
    assert_eq!(pretty::doc::offset_between(usize::MAX, 0), isize::MAX);
    assert_eq!(pretty::doc::offset_between(0, usize::MAX), isize::MIN);
}

#[test]
fn buffer_records_and_hands_on() {
    let seven = 7u8;
    let mut inner = pretty::render::BufferWrite::new();
    inner.push_mark(&seven);
    inner.write_text("b");
    inner.write_line_break(2);
    inner.pop_mark();
    let mut buffer = pretty::render::BufferWrite::new();
    buffer.write_text("a");
    buffer.absorb(inner);
    buffer.write_text("c");
    let mut s = String::from(">");
    buffer.write_into(&mut s);
    assert_eq!(s, ">ab\n  c");
    let mut out = counting();
    buffer.render(&mut out).unwrap();
    assert_eq!(out.text, "a<7>b\n  </7>c");
    let mut out = Failing { text: String::new(), left: 1 };
    let unit = ();
    let mut plain = pretty::render::BufferWrite::new();
    plain.write_text("x");
    plain.push_mark(&unit);
    plain.write_text("y");
    assert_eq!(plain.render(&mut out), Err("full"));
    assert_eq!(out.text, "x");
}

#[test]
fn buffer_is_a_sink() {
    let five = 5u8;
    let mut buffer = pretty::render::BufferWrite::new();
    buffer.push_annotation(&five).unwrap();
    assert_eq!(buffer.write_str("a"), Ok(1));
    buffer.pop_annotation().unwrap();
    buffer.write_str_all("bc").unwrap();
    pretty::render::write_newline(3, &mut buffer).unwrap();
    buffer.fail_doc();
    let mut out = counting();
    buffer.render(&mut out).unwrap();
    assert_eq!(out.text, "<5>a</5>bc\n   ");
}

#[test]
fn nothing_to_write_makes_no_call() {
    let mut out = Failing { text: String::new(), left: 0 };
    let empty: D = RcDoc::nil();
    assert_eq!(empty.render_raw(80, &mut out), Ok(()));
    let blank: D = RcDoc::as_string("").append(RcDoc::nil()).group().nest(2);
    assert_eq!(blank.render_raw(80, &mut out), Ok(()));
    assert_eq!(pretty::best::best(&*blank.0, 0, &mut out), Ok(()));
    assert_eq!(pretty::render::write_spaces(0, &mut out), Ok(()));
    assert_eq!(pretty::render::BufferWrite::<()>::new().render(&mut out), Ok(()));
    let mut silent = pretty::render::BufferWrite::<()>::new();
    silent.write_text("");
    assert_eq!(silent.render(&mut out), Ok(()));
    assert_eq!(out.text, "");
    assert_eq!(pretty::render::write_spaces(1, &mut out), Err("full"));
    assert_eq!(pretty::render::write_newline(0, &mut out), Err("full"));
    assert_eq!(t("a").render_raw(80, &mut out), Err("full"));
}

#[test]
fn empty_texts_are_not_handed_on() {
    let doc: D = t("a").append(RcDoc::as_string("")).append(t("b"));
    let mut out = Failing { text: String::new(), left: 2 };
    assert_eq!(doc.render_raw(80, &mut out), Ok(()));
    assert_eq!(out.text, "ab");
    assert_eq!(out.left, 0);
}

#[test]
fn errors_of_a_failed_document() {
    let out = IoWrite::new(Vec::new());
    let e = out.fail_doc();
    assert_eq!(e.kind(), std::io::ErrorKind::Other);
    assert_eq!(e.to_string(), pretty::render::FAILED);
    assert_eq!(pretty::render::FAILED, "Document failed to render");
    let out = FmtWrite::new(String::new());
    assert_eq!(out.fail_doc(), std::fmt::Error);
    let doc: D = t("a").append(RcDoc::fail());
    let mut out = IoWrite::new(vec![b'>']);
    let e = doc.render_raw(80, &mut out).unwrap_err();
    assert_eq!(e.to_string(), "Document failed to render");
    assert_eq!(out.upstream, b">a");
}

#[test]
fn plain_sinks_take_every_call() {
    let seven = 7u8;
    let mut out = FmtWrite::new(String::from("x"));
    assert_eq!(out.push_annotation(&seven), Ok(()));
    assert_eq!(out.write_str("yz"), Ok(2));
    assert_eq!(RenderAnnotated::<u8>::pop_annotation(&mut out), Ok(()));
    assert_eq!(out.write_str_all("ö"), Ok(()));
    assert_eq!(pretty::render::write_newline(1, &mut out), Ok(()));
    assert_eq!(out.upstream, "xyzö\n ");
    let mut out = IoWrite::new(vec![1u8]);
    out.push_annotation(&seven).unwrap();
    assert_eq!(out.write_str("ö").unwrap(), 2);
    RenderAnnotated::<u8>::pop_annotation(&mut out).unwrap();
    out.write_str_all("a").unwrap();
    assert_eq!(out.upstream, vec![1, 0xc3, 0xb6, b'a']);
}

#[test]
fn after_an_overflow_the_next_group_breaks() {
    let doc: D = t("abcdef").append(RcDoc::softline_());
    assert_eq!(render(&doc, 6), "abcdef");
    assert_eq!(render(&doc, 5), "abcdef\n");
    assert_eq!(render(&doc, 0), "abcdef\n");
    let doc: D = t("abcdef").append(RcDoc::softline()).append(RcDoc::nil().group());
    assert_eq!(render(&doc, 7), "abcdef ");
    assert_eq!(render(&doc, 6), "abcdef\n");
}

#[test]
fn no_call_follows_a_failed_call() {
    let doc: RcDoc<u8, NoFn> = RcDoc::text("a")
        .append(RcDoc::hardline())
        .append(RcDoc::text("b").annotate(1))
        .append(RcDoc::text("c"));
    // The counting sink fails at its third text.
    struct Third {
        inner: Counting,
        texts: usize,
    }
    impl Render for Third {
        type Error = usize;

        fn write_str(&mut self, s: &str) -> Result<usize, usize> {
            self.write_str_all(s).map(|_| s.len())
        }

        fn write_str_all(&mut self, s: &str) -> Result<(), usize> {
            self.texts += 1;
            if self.texts == 3 {
                return Err(self.texts);
            }
            self.inner.text.push_str(s);
            Ok(())
        }

        fn fail_doc(&self) -> usize {
            0
        }
    }
    impl<'a> RenderAnnotated<'a, u8> for Third {
        fn push_annotation(&mut self, a: &'a u8) -> Result<(), usize> {
            self.inner.push_annotation(a).map_err(|_| 0)
        }

        fn pop_annotation(&mut self) -> Result<(), usize> {
            self.inner.pop_annotation().map_err(|_| 0)
        }
    }
    let mut out = Third { inner: counting(), texts: 0 };
    assert_eq!(doc.render_raw(80, &mut out), Err(3));
    assert_eq!(out.inner.text, "a\n<1>");
    assert_eq!(out.texts, 3);
    assert_eq!(out.inner.pushes, 1);
    assert_eq!(out.inner.pops, 0);
}

/// Records every call, with the annotation that a start was handed, and
/// fails at the call with the given number.
struct Events {
    log: Vec<String>,
    fail_at: usize,
}

impl Events {
    fn step(&mut self, event: String) -> Result<(), usize> {
        if self.log.len() + 1 == self.fail_at {
            self.fail_at = 0;
            self.log.push(format!("failed {}", event));
            return Err(self.log.len());
        }
        self.log.push(event);
        Ok(())
    }
}

impl Render for Events {
    type Error = usize;

    fn write_str(&mut self, s: &str) -> Result<usize, usize> {
        self.write_str_all(s).map(|_| s.len())
    }

    fn write_str_all(&mut self, s: &str) -> Result<(), usize> {
        self.step(format!("text {:?}", s))
    }

    fn fail_doc(&self) -> usize {
        0
    }
}

impl<'a> RenderAnnotated<'a, u8> for Events {
    fn push_annotation(&mut self, a: &'a u8) -> Result<(), usize> {
        self.step(format!("push {}", a))
    }

    fn pop_annotation(&mut self) -> Result<(), usize> {
        self.step(String::from("pop"))
    }
}

fn annotated() -> RcDoc<u8, NoFn> {
    let first: RcDoc<u8, NoFn> = RcDoc::text("a").annotate(7);
    let inner: RcDoc<u8, NoFn> = RcDoc::text("c").annotate(9);
    let second = RcDoc::text("b").append(inner).annotate(8);
    first.append(second).append(RcDoc::text("d"))
}

#[test]
fn each_start_is_handed_its_own_annotation() {
    let mut out = Events { log: Vec::new(), fail_at: 0 };
    assert_eq!(annotated().render_raw(80, &mut out), Ok(()));
    assert_eq!(
        out.log,
        [
            "push 7", "text \"a\"", "pop", "push 8", "text \"b\"", "push 9", "text \"c\"", "pop",
            "pop", "text \"d\"",
        ]
    );
}

#[test]
fn no_call_follows_a_failed_annotation_call() {
    // The end of the first annotated part fails.
    let mut out = Events { log: Vec::new(), fail_at: 3 };
    assert_eq!(annotated().render_raw(80, &mut out), Err(3));
    assert_eq!(out.log, ["push 7", "text \"a\"", "failed pop"]);
    // The start of the innermost part fails.
    let mut out = Events { log: Vec::new(), fail_at: 6 };
    assert_eq!(annotated().render_raw(80, &mut out), Err(6));
    assert_eq!(
        out.log,
        ["push 7", "text \"a\"", "pop", "push 8", "text \"b\"", "failed push 9"]
    );
    // A text fails between two marks.
    let mut out = Events { log: Vec::new(), fail_at: 2 };
    assert_eq!(annotated().render_raw(80, &mut out), Err(2));
    assert_eq!(out.log, ["push 7", "failed text \"a\""]);
}

#[test]
fn a_union_with_a_line_break_in_both_documents_breaks() {
    let first = t("ab").append(RcDoc::hardline()).append(t("c"));
    let second = t("d").append(RcDoc::hardline()).append(t("e"));
    let doc: D = first.union(second).group();
    assert_eq!(render(&doc, 80), "ab\nc");
    assert_eq!(render(&doc, 2), "ab\nc");
    assert_eq!(render(&doc, 1), "d\ne");
    assert_eq!(render(&doc, 0), "d\ne");
    assert_eq!(render(&doc, usize::MAX), "ab\nc");
}

fn around(middle: D) -> D {
    t("ab").append(RcDoc::hardline()).append(middle).append(t("yz"))
}

#[test]
fn a_union_in_the_middle_renders_as_the_document_it_takes() {
    let first = || t("12345");
    let second = || t("1").append(RcDoc::hardline()).append(t("2"));
    let doc = around(first().union(second()));
    // The first document fits: what follows the union is not asked.
    assert_eq!(render(&doc, 80), "ab\n12345yz");
    assert_eq!(render(&doc, 80), render(&around(first()), 80));
    assert_eq!(render(&doc, 5), "ab\n12345yz");
    assert_eq!(render(&doc, 5), render(&around(first()), 5));
    // It does not: nothing of it is written.
    assert_eq!(render(&doc, 4), "ab\n1\n2yz");
    assert_eq!(render(&doc, 4), render(&around(second()), 4));
    assert_eq!(render(&doc, 0), render(&around(second()), 0));
}
