use hiker_editor::decoration::Color;
use hiker_editor::decoration::Decoration;
use hiker_editor::decoration::MarkdownTheme;
use hiker_editor::decoration::Palette;
use hiker_editor::decoration::Theme;
use hiker_editor::diagrams::chart_decorations;
use hiker_editor::diagrams::chart_spans;
use hiker_editor::diagrams::mermaid_decorations;
use hiker_editor::diagrams::mermaid_span_in_str;
use hiker_editor::diagrams::mermaid_spans;
use hiker_editor::diagrams::wavedrom_decorations;
use hiker_editor::diagrams::wavedrom_span_in_str;
use hiker_editor::diagrams::wavedrom_spans;
use hiker_editor::document::EditorState;

#[test]
fn detects_mermaid_fence_span() {
    let src = "intro\n\n```mermaid\ngraph TD; A-->B\n```\n\nmore\n";
    let state = EditorState::new(src);
    let spans = mermaid_spans(&state, None);
    assert_eq!(spans.len(), 1, "one mermaid block");
    let span = &spans[0];
    assert!(src[span.byte_range.clone()].starts_with("```mermaid"));
    assert_eq!(&src[span.inner_range.clone()], "graph TD; A-->B\n");
}

#[test]
fn unterminated_fence_still_reports_a_span() {
    let src = "```mermaid\ngraph TD; A-->B\n";
    let state = EditorState::new(src);
    let spans = mermaid_spans(&state, None);
    assert_eq!(spans.len(), 1, "an unterminated fence still reports a span");
}

#[test]
fn diagrams_decorations_still_emitted() {
    let src = "```mermaid\ngraph TD; A-->B\n```\n";
    let state = EditorState::new(src);
    let set = mermaid_decorations(&state, None, None);
    assert!(set.len() > 0, "mermaid block tint emitted");
}

#[test]
fn non_mermaid_fence_ignored() {
    let src = "```rust\nfn main() {}\n```\n";
    let state = EditorState::new(src);
    assert!(mermaid_spans(&state, None).is_empty(), "rust fence is not mermaid");
}

#[test]
fn detects_wavedrom_fence_span() {
    let src = "intro\n\n```wavedrom\n{ signal: [{ name: 'clk', wave: 'p..' }] }\n```\n\nmore\n";
    let state = EditorState::new(src);
    let spans = wavedrom_spans(&state, None);
    assert_eq!(spans.len(), 1, "one wavedrom block");
    let span = &spans[0];
    assert!(src[span.byte_range.clone()].starts_with("```wavedrom"));
    assert_eq!(
        &src[span.inner_range.clone()],
        "{ signal: [{ name: 'clk', wave: 'p..' }] }\n"
    );
}

#[test]
fn wavedrom_and_mermaid_dont_cross_detect() {
    let src = "```mermaid\ngraph TD; A-->B\n```\n\n```wavedrom\n{ signal: [] }\n```\n";
    let state = EditorState::new(src);
    assert_eq!(mermaid_spans(&state, None).len(), 1, "only the mermaid fence");
    assert_eq!(wavedrom_spans(&state, None).len(), 1, "only the wavedrom fence");
}

#[test]
fn unterminated_wavedrom_fence_still_reports_a_span() {
    let src = "```wavedrom\n{ signal: [] }\n";
    let state = EditorState::new(src);
    assert_eq!(wavedrom_spans(&state, None).len(), 1, "unterminated still reports");
}

#[test]
fn wavedrom_decorations_emitted() {
    let src = "```wavedrom\n{ signal: [] }\n```\n";
    let state = EditorState::new(src);
    let set = wavedrom_decorations(&state, None, None);
    assert!(set.len() > 0, "wavedrom block tint emitted");
}

#[test]
fn detects_chart_fence_span() {
    let src = "intro\n\n```chart\nmark: bar\nx: a\ny: b\n---\na,b\n1,2\n```\n\nmore\n";
    let state = EditorState::new(src);
    let spans = chart_spans(&state, None);
    assert_eq!(spans.len(), 1, "one chart block");
    let span = &spans[0];
    assert!(src[span.byte_range.clone()].starts_with("```chart"));
    assert_eq!(&src[span.inner_range.clone()], "mark: bar\nx: a\ny: b\n---\na,b\n1,2\n");
}

#[test]
fn chart_does_not_cross_detect_with_mermaid() {
    let src = "```chart\nmark: bar\n```\n\n```mermaid\ngraph TD; A-->B\n```\n";
    let state = EditorState::new(src);
    assert_eq!(chart_spans(&state, None).len(), 1, "only the chart fence");
    assert_eq!(mermaid_spans(&state, None).len(), 1, "only the mermaid fence");
}

#[test]
fn chart_decorations_emitted() {
    let src = "```chart\nmark: bar\nx: a\ny: b\n```\n";
    let state = EditorState::new(src);
    let set = chart_decorations(&state, None, None);
    assert!(set.len() > 0, "chart block tint emitted");
}

#[test]
fn inline_mermaid_fence_detected_in_str() {
    assert_eq!(mermaid_span_in_str("```mermaid graph TD; A-->B```"), Some("graph TD; A-->B"));
    assert_eq!(mermaid_span_in_str("  ```Mermaid pie \"A\":1```  "), Some("pie \"A\":1"));
}

#[test]
fn inline_wavedrom_fence_detected_in_str() {
    assert_eq!(
        wavedrom_span_in_str("```wavedrom { signal: [] }```"),
        Some("{ signal: [] }"),
    );
}

#[test]
fn inline_fence_rejects_non_fence_cells() {
    assert_eq!(mermaid_span_in_str("just some text"), None);
    assert_eq!(mermaid_span_in_str("```mermaid```"), None, "empty body");
    assert_eq!(mermaid_span_in_str("```rust fn main(){}```"), None, "wrong lang");
    assert_eq!(mermaid_span_in_str("see ```mermaid graph TD```"), None, "prose before");
    assert_eq!(wavedrom_span_in_str("```mermaid graph TD; A-->B```"), None, "lang mismatch");
}

#[test]
fn mermaid_tint_covers_every_block_line_with_default_color() {
    let src = "a\n```mermaid\nx\n```\nb\n";
    let state = EditorState::new(src);
    let set = mermaid_decorations(&state, None, None);
    let ranges: Vec<(usize, usize)> = set.entries.iter().map(|(r, _)| (r.start, r.end)).collect();
    assert_eq!(ranges, vec![(2, 13), (13, 15), (15, 19)]);
    for (_, d) in set.entries.iter() {
        match d {
            Decoration::Line(l) => assert_eq!(l.bg, Some(Color::rgba(120, 200, 180, 28))),
            _ => panic!("only line tints"),
        }
    }
}

#[test]
fn theme_code_bg_tints_diagrams() {
    let theme = Theme {
        markdown: MarkdownTheme { code_bg: Color::rgb(1, 2, 3), link: Color::rgb(4, 5, 6) },
        palette: Palette { accent: Color::rgb(7, 8, 9) },
    };
    let state = EditorState::new("```chart\nmark: bar\n```\n");
    let set = chart_decorations(&state, Some(&theme), None);
    assert_eq!(set.len(), 3);
    for (_, d) in set.entries.iter() {
        match d {
            Decoration::Line(l) => assert_eq!(l.bg, Some(Color::rgb(1, 2, 3))),
            _ => panic!("only line tints"),
        }
    }
}

#[test]
fn viewport_limits_fence_openers_but_not_closers() {
    let src = "x\n```mermaid\na\nb\n```\ny\n```mermaid\nc\n```\n";
    let state = EditorState::new(src);
    // The viewport covers only the first opener's line.
    let vp = 2..5;
    let spans = mermaid_spans(&state, Some(&vp));
    assert_eq!(spans.len(), 1);
    assert_eq!(&src[spans[0].byte_range.clone()], "```mermaid\na\nb\n```\n");
    assert_eq!(&src[spans[0].inner_range.clone()], "a\nb\n");
}

#[test]
fn spans_are_ordered_and_inner_within_block() {
    let src = "```mermaid\na\n```\n```mermaid\n```\n```mermaid\nz";
    let state = EditorState::new(src);
    let spans = mermaid_spans(&state, None);
    assert_eq!(spans.len(), 3);
    for s in &spans {
        assert!(s.byte_range.start <= s.inner_range.start);
        assert!(s.inner_range.start <= s.inner_range.end);
        assert!(s.inner_range.end <= s.byte_range.end);
    }
    for w in spans.windows(2) {
        assert!(w[0].byte_range.end <= w[1].byte_range.start);
    }
    // An empty block has an empty inner range; an unterminated one runs to the end.
    assert_eq!(spans[1].inner_range.start, spans[1].inner_range.end);
    assert_eq!(spans[2].byte_range.end, src.len());
}

#[test]
fn inline_fence_splits_on_unicode_whitespace_and_keeps_the_body() {
    assert_eq!(mermaid_span_in_str("\u{a0}```MERMAID\u{2003}graph  ```\t"), Some("graph  "));
    assert_eq!(mermaid_span_in_str("`````"), None);
    assert_eq!(wavedrom_span_in_str("```wavedrom    ```"), None);
}

#[test]
fn inline_fence_drops_only_the_separating_space() {
    assert_eq!(mermaid_span_in_str("```mermaid  graph TD```"), Some(" graph TD"));
    assert_eq!(mermaid_span_in_str("```mermaid   ```"), None, "blank body");
}
