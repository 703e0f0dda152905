use hiker_editor::decoration::Color;
use hiker_editor::decoration::Decoration;
use hiker_editor::document::EditorState;
use hiker_editor::equations::math_decorations;
use hiker_editor::equations::math_spans;
use hiker_editor::equations::MathKind;

#[test]
fn detects_inline_and_block_spans() {
    let src = "before $x^2$ after\n\n$$\n\\int_0^1 x\\,dx\n$$\n";
    let state = EditorState::new(src);
    let spans = math_spans(&state, None);
    let inline: Vec<_> = spans.iter().filter(|s| s.kind == MathKind::Inline).collect();
    let display: Vec<_> = spans.iter().filter(|s| s.kind == MathKind::Display).collect();
    assert_eq!(inline.len(), 1, "one inline span");
    assert_eq!(display.len(), 1, "one display span");
    let inl = inline[0];
    assert_eq!(&src[inl.inner_range.clone()], "x^2");
    let disp = display[0];
    assert_eq!(&src[disp.inner_range.clone()], "\n\\int_0^1 x\\,dx\n");
}

#[test]
fn block_opener_not_split_into_two_inline() {
    let src = "$$a$$";
    let state = EditorState::new(src);
    let spans = math_spans(&state, None);
    assert_eq!(spans.len(), 1);
    assert_eq!(spans[0].kind, MathKind::Display);
}

#[test]
fn empty_inline_is_not_a_span() {
    let src = "a $$ b";
    let state = EditorState::new(src);
    let spans = math_spans(&state, None);
    assert!(spans.is_empty());
}

#[test]
fn equations_decorations_still_emitted() {
    let src = "x $y$ z";
    let state = EditorState::new(src);
    let set = math_decorations(&state, None, None);
    assert!(set.len() > 0, "inline math marks emitted");
}

#[test]
fn inline_math_mark_is_monospace_violet_on_tint() {
    let state = EditorState::new("x $y$ z");
    let set = math_decorations(&state, None, None);
    assert_eq!(set.len(), 1);
    let (r, d) = &set.entries[0];
    assert_eq!((r.start, r.end), (2, 5));
    match d {
        Decoration::Mark(m) => {
            assert!(m.monospace);
            assert_eq!(m.fg, Some(Color::rgb(170, 120, 220)));
            assert_eq!(m.bg, Some(Color::rgba(170, 120, 220, 25)));
            assert!(!m.bold && !m.underline);
        }
        _ => panic!("expected a mark"),
    }
}

#[test]
fn block_math_tints_every_line_it_touches() {
    let src = "a\n$$\nb\n$$ c\nd\n";
    let state = EditorState::new(src);
    let set = math_decorations(&state, None, None);
    let ranges: Vec<(usize, usize)> = set.entries.iter().map(|(r, _)| (r.start, r.end)).collect();
    // Lines 1 ("$$"), 2 ("b") and 3 ("$$ c") are covered.
    assert_eq!(ranges, vec![(2, 5), (5, 7), (7, 12)]);
    assert!(set.entries.iter().all(|(_, d)| matches!(d, Decoration::Line(_))));
}

#[test]
fn inline_math_does_not_cross_lines_or_enter_blocks() {
    let src = "$a\nb$\n$$ $c$ $$ $d$";
    let state = EditorState::new(src);
    let spans = math_spans(&state, None);
    // The block `$$ $c$ $$` is found first; `$c$` inside it is not inline math.
    let kinds: Vec<MathKind> = spans.iter().map(|s| s.kind).collect();
    assert_eq!(kinds, vec![MathKind::Display, MathKind::Inline]);
    assert_eq!(&src[spans[0].byte_range.clone()], "$$ $c$ $$");
    assert_eq!(&src[spans[1].byte_range.clone()], "$d$");
}

#[test]
fn unclosed_block_stops_the_block_scan() {
    let src = "$$ a $x$";
    let state = EditorState::new(src);
    let spans = math_spans(&state, None);
    // No closing `$$`: no block; the `$$` opener is skipped by the inline scan.
    assert_eq!(spans.len(), 1);
    assert_eq!(spans[0].kind, MathKind::Inline);
    assert_eq!(&src[spans[0].inner_range.clone()], "x");
}

#[test]
fn viewport_bounds_where_spans_open() {
    let src = "$a$ $b$ $c$";
    let state = EditorState::new(src);
    let vp = 4..8;
    let spans = math_spans(&state, Some(&vp));
    assert_eq!(spans.len(), 1);
    assert_eq!(&src[spans[0].byte_range.clone()], "$b$");
}
