use pretty::doc::{ColumnFn, NoFn, RcDoc};
use pretty::render::{FmtWrite, Render, RenderAnnotated};

type D = RcDoc<(), NoFn>;

fn t(s: &str) -> D {
    RcDoc::text(s)
}

fn render<F: ColumnFn<()>>(doc: &RcDoc<(), F>, width: usize) -> String {
    let mut s = String::new();
    doc.render_fmt(width, &mut s).unwrap();
    s
}

#[test]
fn box_doc_inference() {
    let doc: D = RcDoc::group(t("test").append(RcDoc::line()).append(t("test")));

    assert_eq!(render(&doc, 70), "test test");
}

#[test]
fn forced_newline() {
    let doc: D = RcDoc::group(t("test").append(RcDoc::hardline()).append(t("test")));

    assert_eq!(render(&doc, 70), "test\ntest");
}

#[test]
fn space_do_not_reset_pos() {
    let doc: D = RcDoc::group(t("test").append(RcDoc::line()))
        .append(t("test"))
        .append(RcDoc::group(RcDoc::line()).append(t("test")));

    assert_eq!(render(&doc, 9), "test test\ntest");
}

// Tests that the hardline does not cause the rest of document to think that it fits on a
// single line but instead breaks on the line to fit with 6 columns
#[test]
fn newline_does_not_cause_next_line_to_be_to_long() {
    let doc: D = RcDoc::group(
        t("test")
            .append(RcDoc::hardline())
            .append(t("test").append(RcDoc::line()).append(t("test"))),
    );

    assert_eq!(render(&doc, 6), "test\ntest\ntest");
}

#[test]
fn newline_after_group_does_not_affect_it() {
    let doc: D = t("x").append(RcDoc::line()).append(t("y")).group();

    assert_eq!(render(&doc.append(RcDoc::hardline()), 100), "x y\n");
}

#[test]
fn block() {
    let doc: D = RcDoc::group(
        t("{")
            .append(
                RcDoc::line()
                    .append(t("test"))
                    .append(RcDoc::line())
                    .append(t("test"))
                    .nest(2),
            )
            .append(RcDoc::line())
            .append(t("}")),
    );

    assert_eq!(render(&doc, 5), "{\n  test\n  test\n}");
}

#[test]
fn block_with_hardline() {
    let doc: D = RcDoc::group(
        t("{")
            .append(
                RcDoc::line()
                    .append(t("test"))
                    .append(RcDoc::hardline())
                    .append(t("test"))
                    .nest(2),
            )
            .append(RcDoc::line())
            .append(t("}")),
    );

    assert_eq!(render(&doc, 10), "{\n  test\n  test\n}");
}

#[test]
fn block_with_hardline_negative_nest() {
    let doc: D = RcDoc::group(
        t("{")
            .append(
                RcDoc::line()
                    .append(t("test"))
                    .append(RcDoc::hardline())
                    .append(t("test"))
                    .nest(-2),
            )
            .append(RcDoc::line())
            .append(t("}")),
    );

    assert_eq!(render(&doc, 10), "{\ntest\ntest\n}");
}

#[test]
fn line_comment() {
    let doc: D = RcDoc::group(
        t("{")
            .append(
                RcDoc::line()
                    .append(t("test"))
                    .append(RcDoc::line())
                    .append(t("// a").append(RcDoc::hardline()))
                    .append(t("test"))
                    .nest(2),
            )
            .append(RcDoc::line())
            .append(t("}")),
    );

    assert_eq!(render(&doc, 14), "{\n  test\n  // a\n  test\n}");
}

#[test]
fn annotation_no_panic() {
    let doc: D = RcDoc::group(
        t("test")
            .annotate(())
            .append(RcDoc::hardline())
            .annotate(())
            .append(t("test")),
    );

    assert_eq!(render(&doc, 70), "test\ntest");
}

/// The function objects of `nest_on_line`: the outer one reads the
/// indentation, the inner one the column.
enum OnLine {
    Outer(RcDoc<(), OnLine>),
    Inner(usize, RcDoc<(), OnLine>),
}

impl ColumnFn<()> for OnLine {
    fn call(&self, x: usize) -> RcDoc<(), OnLine> {
        match self {
            OnLine::Outer(doc) => RcDoc::column(OnLine::Inner(x, doc.clone())),
            OnLine::Inner(n, doc) => {
                if *n == x {
                    RcDoc::text("  ").append(doc.clone()).nest(2)
                } else {
                    doc.clone()
                }
            }
        }
    }
}

type L = RcDoc<(), OnLine>;

fn l(s: &str) -> L {
    RcDoc::text(s)
}

fn nest_on_line(doc: L) -> L {
    RcDoc::softline().append(RcDoc::nesting(OnLine::Outer(doc)))
}

fn let_x() -> L {
    l("let")
        .append(RcDoc::line())
        .append(l("x"))
        .append(RcDoc::line())
        .append(l("="))
        .group()
}

#[test]
fn hang_lambda1() {
    let doc = let_x()
        .append(nest_on_line(
            l("\\y ->").append(RcDoc::line().append(l("y")).nest(2).group()),
        ))
        .group();

    assert_eq!(render(&doc, 70), "let x = \\y -> y");
    assert_eq!(render(&doc, 8), "let x =\n  \\y ->\n    y");
    assert_eq!(render(&doc, 14), "let x = \\y ->\n  y");
}

#[test]
fn hang_comment() {
    let body = l("y").nest(2).group();
    let doc = let_x()
        .append(nest_on_line(l("\\y ->").append(nest_on_line(
            l("// abc").append(RcDoc::hardline()).append(body),
        ))))
        .group();

    assert_eq!(render(&doc, 8), "let x =\n  \\y ->\n    // abc\n    y");
    assert_eq!(render(&doc, 14), "let x = \\y ->\n  // abc\n  y");
}

#[test]
fn union() {
    let doc = let_x()
        .append(nest_on_line(
            l("(")
                .append(
                    RcDoc::line_()
                        .append(l("x").append(l(",")).group())
                        .append(RcDoc::line())
                        .append(l("1234567890").append(l(",")).group())
                        .nest(2)
                        .group(),
                )
                .append(RcDoc::line_().append(l(")"))),
        ))
        .group();

    assert_eq!(render(&doc, 70), "let x = (x, 1234567890,)");
    assert_eq!(render(&doc, 8), "let x =\n  (\n    x,\n    1234567890,\n  )");
    assert_eq!(render(&doc, 14), "let x = (\n  x,\n  1234567890,\n)");
}

fn hang2(from: D, body_whitespace: D, body: D, trailer: D) -> D {
    let body1 = body_whitespace
        .append(body.clone())
        .nest(2)
        .group()
        .append(trailer.clone());
    let body2 = RcDoc::hardline()
        .append(body.clone())
        .nest(2)
        .group()
        .append(trailer.clone());

    let single = from.clone().append(body1.clone()).group();

    let hang = from.clone().append(body2).group();

    let break_all = from.append(body1).group().nest(2);

    RcDoc::group(single.union(hang.union(break_all)))
}

fn let_x_plain() -> D {
    t("let")
        .append(RcDoc::line())
        .append(t("x"))
        .append(RcDoc::line())
        .append(t("="))
        .group()
}

#[test]
fn hang_lambda2() {
    let from = let_x_plain()
        .append(RcDoc::line())
        .append(t("\\y ->"))
        .group();

    let body = t("y").group();

    let trailer = RcDoc::nil();

    let doc = hang2(from, RcDoc::line(), body, trailer);

    assert_eq!(render(&doc, 70), "let x = \\y -> y");
    assert_eq!(render(&doc, 14), "let x = \\y ->\n  y");
}

#[test]
fn union2() {
    let from = let_x_plain().append(RcDoc::line()).append(t("(")).group();

    let body = t("x")
        .append(t(","))
        .group()
        .append(RcDoc::line())
        .append(t("1234567890").append(t(",")).group())
        .group();

    let trailer = RcDoc::line_().append(t(")"));

    let doc = hang2(from, RcDoc::line_(), body, trailer);

    assert_eq!(render(&doc, 70), "let x = (x, 1234567890,)");
    assert_eq!(render(&doc, 14), "let x = (\n  x,\n  1234567890,\n)");
}

#[test]
fn usize_max_value() {
    let doc: D = RcDoc::group(t("test").append(RcDoc::line()).append(t("test")));

    assert_eq!(render(&doc, usize::max_value()), "test test");
}

#[test]
fn fail() {
    let fail_break: D = RcDoc::fail().flat_alt(RcDoc::nil());

    let doc = fail_break.append(t("12345")).group().union(t("abc"));

    assert_eq!(render(&doc, 5), "12345");
    assert_eq!(render(&doc, 4), "abc");
}

pub struct TestWriter<W> {
    upstream: W,
}

impl<W> TestWriter<W> {
    pub fn new(upstream: W) -> Self {
        Self { upstream }
    }
}

impl<W> Render for TestWriter<W>
where
    W: Render,
{
    type Error = W::Error;

    fn write_str(&mut self, s: &str) -> Result<usize, W::Error> {
        self.upstream.write_str(s)
    }

    fn write_str_all(&mut self, s: &str) -> Result<(), W::Error> {
        self.upstream.write_str_all(s)
    }

    fn fail_doc(&self) -> Self::Error {
        self.upstream.fail_doc()
    }
}

impl<W> RenderAnnotated<'_, ()> for TestWriter<W>
where
    W: Render,
{
    fn push_annotation(&mut self, _: &()) -> Result<(), Self::Error> {
        self.upstream.write_str_all("[")
    }

    fn pop_annotation(&mut self) -> Result<(), Self::Error> {
        self.upstream.write_str_all("]")
    }
}

#[test]
fn annotations() {
    let actual: D = t("abc").annotate(()).annotate(());
    let mut out = TestWriter::new(FmtWrite::new(String::new()));
    actual.render_raw(70, &mut out).unwrap();
    assert_eq!(out.upstream.upstream, "[[abc]]");
}

#[test]
fn non_ascii_is_not_byte_length() {
    let doc: D = RcDoc::group(t("ÅÄÖ").append(RcDoc::line()).append(t("test")));

    assert_eq!(render(&doc, 8), "ÅÄÖ test");
}

fn render_bytes(doc: &D, width: usize) -> String {
    let mut vec = Vec::new();
    doc.render(width, &mut vec).unwrap();
    String::from_utf8(vec).unwrap()
}

#[test]
fn lib_box_doc_inference() {
    let doc: D = RcDoc::group(t("test").append(RcDoc::line()).append(t("test")));
    assert_eq!(render_bytes(&doc, 70), "test test");
}

#[test]
fn lib_forced_newline() {
    let doc: D = RcDoc::group(t("test").append(RcDoc::hardline()).append(t("test")));
    assert_eq!(render_bytes(&doc, 70), "test\ntest");
}

#[test]
fn lib_block() {
    let doc: D = RcDoc::group(
        t("{")
            .append(
                RcDoc::line()
                    .append(t("test"))
                    .append(RcDoc::line())
                    .append(t("test"))
                    .nest(2),
            )
            .append(RcDoc::line())
            .append(t("}")),
    );
    assert_eq!(render_bytes(&doc, 5), "{\n  test\n  test\n}");
}
