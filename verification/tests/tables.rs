use hiker_editor::document::EditorState;
use hiker_editor::tables::table_spans;
use hiker_editor::tables::table_spans_from_events;
use hiker_editor::tables::ColumnAlign;
use hiker_editor::tables::TableEvent;

#[test]
fn detects_simple_table() {
    let src = "intro\n\n| a | b |\n|---|---|\n| 1 | 2 |\n\nmore\n";
    let state = EditorState::new(src);
    let spans = table_spans(&state, None);
    assert_eq!(spans.len(), 1, "one table block");
    let span = &spans[0];
    let block = &src[span.byte_range.clone()];
    assert!(block.starts_with("| a | b |"), "span covers the header row");
    assert!(block.contains("| 1 | 2 |"), "span covers the body row");
    assert_eq!(span.aligns.len(), 2, "two columns");
}

#[test]
fn surfaces_column_alignments() {
    let src = "| l | c | r |\n|:--|:-:|--:|\n| 1 | 2 | 3 |\n";
    let state = EditorState::new(src);
    let spans = table_spans(&state, None);
    assert_eq!(spans.len(), 1);
    assert_eq!(
        spans[0].aligns,
        vec![ColumnAlign::Left, ColumnAlign::Center, ColumnAlign::Right]
    );
}

#[test]
fn malformed_table_without_rule_row_ignored() {
    let src = "| a | b |\n| 1 | 2 |\n";
    let state = EditorState::new(src);
    assert!(
        table_spans(&state, None).is_empty(),
        "a table missing its rule row is not detected"
    );
}

#[test]
fn detects_multiple_tables() {
    let src = "| a |\n|---|\n| 1 |\n\ntext\n\n| b |\n|---|\n| 2 |\n";
    let state = EditorState::new(src);
    assert_eq!(table_spans(&state, None).len(), 2, "two separate tables");
}

#[test]
fn viewport_scopes_detection() {
    let src = "| a |\n|---|\n| 1 |\n";
    let state = EditorState::new(src);
    let past_end = src.len()..src.len();
    assert!(
        table_spans(&state, Some(&past_end)).is_empty(),
        "a table outside the viewport is not reported"
    );
    let whole = 0..src.len();
    assert_eq!(table_spans(&state, Some(&whole)).len(), 1);
}

#[test]
fn unaligned_columns_are_unspecified() {
    let src = "| a | b |\n|---|:--|\n";
    let state = EditorState::new(src);
    let spans = table_spans(&state, None);
    assert_eq!(spans.len(), 1);
    assert_eq!(spans[0].aligns, vec![ColumnAlign::Unspecified, ColumnAlign::Left]);
}

#[test]
fn events_report_a_table_only_at_an_end_after_a_start() {
    let events = vec![
        TableEvent::End(0, 3),
        TableEvent::Other,
        TableEvent::Start(vec![ColumnAlign::Right]),
        TableEvent::Other,
        TableEvent::End(5, 9),
        TableEvent::End(10, 12),
    ];
    let spans = table_spans_from_events(&events, None);
    assert_eq!(spans.len(), 1);
    assert_eq!(spans[0].byte_range, 5..9);
    assert_eq!(spans[0].aligns, vec![ColumnAlign::Right]);
    let vp = 9..20;
    assert!(table_spans_from_events(&events, Some(&vp)).is_empty());
    let vp = 8..9;
    assert_eq!(table_spans_from_events(&events, Some(&vp)).len(), 1);
}
