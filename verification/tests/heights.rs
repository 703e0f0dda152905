use hiker_editor::wrap::visible_wrap_mismatch;
use hiker_editor::decoration::BlockDeco;
use hiker_editor::decoration::BlockKind;
use hiker_editor::decoration::BlockSide;
use hiker_editor::decoration::Color;
use hiker_editor::decoration::Decoration;
use hiker_editor::decoration::DecorationSet;
use hiker_editor::decoration::LineStyle;
use hiker_editor::decoration::MarkStyle;
use hiker_editor::decoration::WikilinkWidget;
use hiker_editor::heights::height_plan;
use hiker_editor::heights::HeightOp;
use hiker_editor::wrap::line_wrap_inputs;
use hiker_editor::wrap::VisualSpan;

#[test]
fn height_plan_reads_every_height_layer() {
    let text = "a\nbb\nccc\n";
    let heights = DecorationSet::from_entries(vec![
        (0..1, Decoration::Line(LineStyle { hide: true, ..Default::default() })),
        (2..4, Decoration::Line(LineStyle { height_scale: Some(1600), ..Default::default() })),
        (5..8, Decoration::Block(BlockDeco { side: BlockSide::Below, height: 12, kind: BlockKind::Solid(Color::transparent()) })),
        (5..6, Decoration::Mark(MarkStyle::default())),
        (9..9, Decoration::BlockWidget { side: BlockSide::Above, widget_id: 3 }),
        (99..100, Decoration::Line(LineStyle { hide: true, ..Default::default() })),
    ]);
    let widgets_only = DecorationSet::from_entries(vec![(
        2..3,
        Decoration::InlineWidget {
            widget: WikilinkWidget { text: "x".to_string(), fg: Color::rgb(0, 0, 0), bg: None, id: 5 },
            atomic: true,
        },
    )]);
    let ops = height_plan(text, &vec![widgets_only, heights]);
    assert_eq!(
        ops,
        vec![
            HeightOp::InlineWidget { line: 1, widget_id: 5 },
            HeightOp::Hide { line: 0 },
            HeightOp::Scale { line: 1, scale: 1600 },
            HeightOp::Block { line: 2, side: BlockSide::Below, height: 12 },
            HeightOp::BlockWidget { line: 3, side: BlockSide::Above, widget_id: 3 },
        ]
    );
}

#[test]
fn no_height_layers_plan_nothing() {
    assert!(height_plan("a\nb\n", &vec![]).is_empty());
}

#[test]
fn inline_widget_only_height_layer_grows_its_row() {
    // A math-widget layer registered for height: the widget on line 0 asks
    // its row to grow; line 1 carries no widget and gets no operation.
    let layer = DecorationSet::from_entries(vec![(
        2..4,
        Decoration::HostInlineWidget { widget_id: 0xBADF00D, atomic: true },
    )]);
    let ops = height_plan("x=ab\nplain line\n", &vec![layer]);
    assert_eq!(ops, vec![HeightOp::InlineWidget { line: 0, widget_id: 0xBADF00D }]);
}

#[test]
fn inline_widgets_in_a_height_set_are_measured() {
    let text = "ab\n";
    let set = DecorationSet::from_entries(vec![
        (
            0..1,
            Decoration::InlineWidget {
                widget: WikilinkWidget { text: "x".to_string(), fg: Color::rgb(0, 0, 0), bg: None, id: 5 },
                atomic: true,
            },
        ),
        (0..3, Decoration::Line(LineStyle { hide: true, ..Default::default() })),
    ]);
    let ops = height_plan(text, &vec![set]);
    assert_eq!(ops, vec![HeightOp::InlineWidget { line: 0, widget_id: 5 }, HeightOp::Hide { line: 0 }]);
}

#[test]
fn host_inline_widgets_are_measured_by_id() {
    let text = "ab\ncd\n";
    let set = DecorationSet::from_entries(vec![
        (3..4, Decoration::HostInlineWidget { widget_id: 42, atomic: true }),
        (0..3, Decoration::Line(LineStyle { hide: true, ..Default::default() })),
    ]);
    assert!(!Decoration::HostInlineWidget { widget_id: 42, atomic: true }.affects_height());
    let ops = height_plan(text, &vec![set]);
    assert_eq!(ops, vec![HeightOp::InlineWidget { line: 1, widget_id: 42 }, HeightOp::Hide { line: 0 }]);
}

#[test]
fn wrap_inputs_collect_scale_and_sorted_snapped_spans() {
    let text = "x\nhé llo\ny";
    let sets = vec![
        DecorationSet::from_entries(vec![
            (8..10, Decoration::Replace { display: Some("αβ".to_string()) }),
            (2..4, Decoration::Replace { display: None }),
            (3..6, Decoration::Mark(MarkStyle { font_scale: Some(1600), ..Default::default() })),
        ]),
        DecorationSet::from_entries(vec![
            (0..1, Decoration::Mark(MarkStyle { font_scale: Some(3000), ..Default::default() })),
            (2..6, Decoration::Replace { display: Some("e".to_string()) }),
        ]),
    ];
    // Line 1 is "hé llo" (bytes 2..9; 'é' is two bytes).
    let (scale, spans) = line_wrap_inputs(text, 1, &sets);
    assert_eq!(scale, 1600);
    assert_eq!(
        spans,
        vec![
            VisualSpan { start: 0, end: 1, cols: 0 },
            VisualSpan { start: 0, end: 4, cols: 1 },
            VisualSpan { start: 6, end: 7, cols: 2 },
        ]
    );
}

#[test]
fn wrap_mismatch_compares_live_rows_with_baked_counts() {
    assert!(!visible_wrap_mismatch(true, &vec![Some(2), None], &vec![2, 1]));
    assert!(visible_wrap_mismatch(true, &vec![Some(2), None], &vec![2, 2]));
    assert!(!visible_wrap_mismatch(false, &vec![Some(3)], &vec![1]));
}
