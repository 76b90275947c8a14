use diagline::config::Charset;
use diagline::{Error, Label, RenderError, Span};

#[test]
fn display() {
    let e = Error::new("void fn x(void) -> four {\nwierd};")
        .message("attempted to use string as type")
        .label(Label::new(Span::new(19, 23), "what is 'four'?"))
        .unwrap()
        .note("help: change it to 4")
        .note("note: maybe python would be better for you")
        .charset(Charset::ascii());
    let out = e.render().unwrap();
    println!("{out}");
    assert_eq!(
        out,
        r"attempted to use string as type
0 | void fn x(void) -> four {
  :                    ^^^^ what is 'four'?
  > help: change it to 4
  > note: maybe python would be better for you
"
    );
}

#[test]
fn inline() {
    let e = Error::new("im out of this worl")
        .message("such spelling")
        .label(Label::new(Span::new(15, 19), "forgot d"))
        .unwrap()
        .label(Label::new(Span::new(0, 2), "forgot '"))
        .unwrap()
        .charset(Charset::ascii());
    let out = e.render().unwrap();
    println!("{out}");
    assert_eq!(
        out,
        r"such spelling
0 | im out of this worl
  : ^^ forgot '    ^^^^ forgot d
"
    );
}

#[test]
fn outline() {
    let e = Error::new("Strin::nouveau().i_like_tests(3.14158)")
        .message("unknown method String::new")
        .label(Label::new(Span::new(0, 5), "you probably meant String"))
        .unwrap()
        .label(Label::new(Span::new(7, 16), "use new()"))
        .unwrap()
        .label(Label::new(Span::new(17, 18), "caps: I"))
        .unwrap()
        .label(Label::new(Span::new(30, 37), "your π is bad"))
        .unwrap()
        .charset(Charset::ascii());
    let out = e.render().unwrap();
    println!("{out}");
    assert_eq!(
        out,
        r"unknown method String::new
0 | Strin::nouveau().i_like_tests(3.14158)
  : --.--  ----.---- ^ caps: I    ^^^^^^^ your π is bad
  :   |        \ use new()
  :   \ you probably meant String
"
    );
}

#[test]
fn zero_width_span_draws_one_caret() {
    let e = Error::new("abc")
        .message("m")
        .label(Label::new(Span::new(1, 1), "x"))
        .unwrap()
        .charset(Charset::ascii());
    let out = e.render().unwrap();
    assert_eq!(out, "m\n0 | abc\n  :  ^ x\n");
}

#[test]
fn out_of_bounds_label_is_rejected_eagerly() {
    let r = Error::new("ab").label(Label::new(Span::new(0, 3), "x"));
    assert!(matches!(r, Err(RenderError::OutOfBounds)));
    // The boundary case is still accepted: end == len.
    let r = Error::new("ab").label(Label::new(Span::new(0, 2), "x"));
    assert!(r.is_ok());
}

#[test]
fn overlap_across_lines_fails_at_render() {
    let e = Error::new("abcd\nef")
        .label(Label::new(Span::new(2, 6), "a"))
        .unwrap()
        .label(Label::new(Span::new(5, 6), "b"))
        .unwrap();
    assert_eq!(e.render(), Err(RenderError::Overlap));
}

#[test]
fn same_line_labels_are_supported() {
    let e = Error::new("abcdef")
        .message("m")
        .label(Label::new(Span::new(0, 6), "outer"))
        .unwrap()
        .label(Label::new(Span::new(2, 3), "inner"))
        .unwrap()
        .charset(Charset::ascii());
    assert!(e.render().is_ok());
}

#[test]
fn render_is_idempotent() {
    let e = Error::new("im out of this worl")
        .message("such spelling")
        .label(Label::new(Span::new(15, 19), "forgot d"))
        .unwrap()
        .label(Label::new(Span::new(0, 2), "forgot '"))
        .unwrap()
        .charset(Charset::ascii());
    let first = e.render().unwrap();
    let second = e.render().unwrap();
    assert_eq!(first, second);
}

#[test]
fn deferral_boundary_exact_fit_stays_inline() {
    // 0 + point 2 + message 2 + 1 == 5, not past the next start: inline.
    let e = Error::new("abcdefghij")
        .message("m")
        .label(Label::new(Span::new(0, 2), "ab"))
        .unwrap()
        .label(Label::new(Span::new(5, 6), "z"))
        .unwrap()
        .charset(Charset::ascii());
    let out = e.render().unwrap();
    assert_eq!(out, "m\n0 | abcdefghij\n  : ^^ ab^ z\n");
}

#[test]
fn deferral_boundary_one_past_defers() {
    // 0 + point 2 + message 2 + 1 == 5 > 4: the first label is deferred.
    let e = Error::new("abcdefghij")
        .message("m")
        .label(Label::new(Span::new(0, 2), "ab"))
        .unwrap()
        .label(Label::new(Span::new(4, 5), "z"))
        .unwrap()
        .charset(Charset::ascii());
    let out = e.render().unwrap();
    assert_eq!(out, "m\n0 | abcdefghij\n  : .-  ^ z\n  : \\ ab\n");
}

#[test]
fn every_label_collides_cascade_terminates() {
    // Three one-byte spans with wide messages: each collides with the next,
    // so two extension rows resolve the deferred labels bottom-up.
    let e = Error::new("x y z")
        .message("m")
        .label(Label::new(Span::new(0, 1), "aaaa"))
        .unwrap()
        .label(Label::new(Span::new(2, 3), "bbbb"))
        .unwrap()
        .label(Label::new(Span::new(4, 5), "cccc"))
        .unwrap()
        .charset(Charset::ascii());
    let out = e.render().unwrap();
    assert_eq!(
        out,
        "m\n0 | x y z\n  : . . ^ cccc\n  : | \\ bbbb\n  : \\ aaaa\n"
    );
}

#[test]
fn ten_lines_widen_the_number_field() {
    let e = Error::new("a\nb\nc\nd\ne\nf\ng\nh\ni\nj")
        .message("m")
        .label(Label::new(Span::new(18, 19), "last"))
        .unwrap()
        .charset(Charset::ascii());
    let out = e.render().unwrap();
    assert_eq!(out, "m\n 9 | j\n   : ^ last\n");
}

#[test]
fn notes_only_on_empty_source() {
    let e = Error::new("").message("m").note("n");
    let out = e.render().unwrap();
    assert_eq!(out, "m\n  > n\n");
}

#[test]
fn multibyte_source_measured_by_display_width() {
    // The span covers the two-byte character, which displays one column
    // wide, so it gets one caret after one column of padding.
    let e = Error::new("aπb")
        .message("m")
        .label(Label::new(Span::new(1, 3), "pi"))
        .unwrap()
        .charset(Charset::ascii());
    let out = e.render().unwrap();
    assert_eq!(out, "m\n0 | aπb\n  :  ^ pi\n");
}

#[test]
fn styling_in_message_is_stripped_for_width() {
    // The first message displays two columns once its color codes are
    // stripped, so it fits exactly and stays inline; measuring the raw
    // bytes would have deferred it.
    let e = Error::new("abcdefghij")
        .message("m")
        .label(Label::new(Span::new(0, 2), "\u{1b}[31mab\u{1b}[0m"))
        .unwrap()
        .label(Label::new(Span::new(5, 6), "z"))
        .unwrap()
        .charset(Charset::ascii());
    let out = e.render().unwrap();
    assert_eq!(
        out,
        "m\n0 | abcdefghij\n  : ^^ \u{1b}[31mab\u{1b}[0m^ z\n"
    );
}

#[test]
fn unicode_charset_is_the_default() {
    let e = Error::new("ab")
        .message("m")
        .label(Label::new(Span::new(0, 1), "x"))
        .unwrap();
    let out = e.render().unwrap();
    assert_eq!(out, "m\n0 | ab\n  ¦ ^ x\n");
}

#[test]
fn label_at_line_end_belongs_to_that_line() {
    // A zero-width label at the newline position of line 0 is grouped onto
    // line 0 and draws one caret just past its text.
    let e = Error::new("ab\ncd")
        .message("m")
        .label(Label::new(Span::new(2, 2), "x"))
        .unwrap()
        .charset(Charset::ascii());
    let out = e.render().unwrap();
    assert_eq!(out, "m\n0 | ab\n  :   ^ x\n");
}

#[test]
fn label_past_every_line_is_never_drawn() {
    // With a trailing newline the last line ends before the newline byte,
    // so a label starting at the very end of the source lies on no line.
    let e = Error::new("ab\n")
        .message("m")
        .label(Label::new(Span::new(3, 3), "x"))
        .unwrap()
        .charset(Charset::ascii());
    let out = e.render().unwrap();
    assert_eq!(out, "m\n");
}

#[test]
fn identical_spans_keep_insertion_order() {
    // Two labels over the same span: insertion order breaks the tie, so the
    // first one added is placed first (and deferred, as it collides).
    let e = Error::new("abc")
        .message("m")
        .label(Label::new(Span::new(1, 2), "first"))
        .unwrap()
        .label(Label::new(Span::new(1, 2), "second"))
        .unwrap()
        .charset(Charset::ascii());
    let out = e.render().unwrap();
    assert_eq!(out, "m\n0 | abc\n  :  .^ second\n  :  \\ first\n");
}

#[test]
fn source_spans_index_lines() {
    let e = Error::new("a\nbc");
    let spans = e.source.spans();
    assert_eq!(spans.len(), 2);
    assert_eq!(spans[0].0, "a");
    assert_eq!((spans[0].1.start, spans[0].1.end), (0, 1));
    assert_eq!(spans[1].0, "bc");
    assert_eq!((spans[1].1.start, spans[1].1.end), (2, 4));
}

#[test]
fn charset_presets_differ_in_connectors() {
    let u = Charset::unicode();
    let a = Charset::ascii();
    assert_eq!(u.column_line, '|');
    assert_eq!(u.column_broken_line, '¦');
    assert_eq!(u.out_end, '╰');
    assert_eq!(a.column_broken_line, ':');
    assert_eq!(a.out_end, '\\');
    assert_eq!(a.spanning_mid, '.');
}
