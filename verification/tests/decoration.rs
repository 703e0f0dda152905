use hiker_editor::decoration::BlockDeco;
use hiker_editor::decoration::BlockKind;
use hiker_editor::decoration::BlockSide;
use hiker_editor::decoration::Color;
use hiker_editor::decoration::Decoration;
use hiker_editor::decoration::DecorationSet;
use hiker_editor::decoration::LineStyle;
use hiker_editor::decoration::MarkStyle;
use hiker_editor::decoration::StyledRun;
use hiker_editor::decoration::WikilinkWidget;

#[test]
fn height_affecting_variants() {
    assert!(Decoration::Line(LineStyle { hide: true, ..Default::default() }).affects_height());
    assert!(Decoration::Line(LineStyle {
        height_scale: Some(2000),
        ..Default::default()
    })
    .affects_height());
    assert!(
        Decoration::Block(BlockDeco {
            side: BlockSide::Above,
            height: 10,
            kind: BlockKind::Solid(Color::transparent()),
        })
        .affects_height()
    );
}

#[test]
fn paint_only_variants_do_not_affect_height() {
    assert!(!Decoration::Mark(MarkStyle::default()).affects_height());
    assert!(!Decoration::Replace { display: None }.affects_height());
    assert!(!Decoration::Line(LineStyle {
        bg: Some(Color::transparent()),
        ..Default::default()
    })
    .affects_height());
}

#[test]
fn set_marks_affects_height_at_construction() {
    let height_set = DecorationSet::from_entries(vec![(
        0..1,
        Decoration::Line(LineStyle { height_scale: Some(1500), ..Default::default() }),
    )]);
    assert!(height_set.affects_height());

    let paint_set =
        DecorationSet::from_entries(vec![(0..1, Decoration::Mark(MarkStyle { bold: true, ..Default::default() }))]);
    assert!(!paint_set.affects_height());

    let mixed = DecorationSet::from_entries(vec![
        (0..1, Decoration::Mark(MarkStyle::default())),
        (2..3, Decoration::Line(LineStyle { hide: true, ..Default::default() })),
    ]);
    assert!(mixed.affects_height());
}

#[test]
fn block_widgets_affect_height_and_inline_widgets_do_not() {
    assert!(Decoration::BlockWidget { side: BlockSide::Below, widget_id: 7 }.affects_height());
    let w = WikilinkWidget { text: "t".to_string(), fg: Color::rgb(1, 2, 3), bg: None, id: 9 };
    assert!(!Decoration::InlineWidget { widget: w, atomic: true }.affects_height());
}

#[test]
fn colors_and_plain_runs() {
    assert_eq!(Color::rgb(1, 2, 3), Color { r: 1, g: 2, b: 3, a: 255 });
    assert_eq!(Color::rgba(1, 2, 3, 4).a, 4);
    assert_eq!(Color::transparent().a, 0);
    let run = StyledRun::plain("hi".to_string(), Color::rgb(9, 9, 9));
    assert_eq!(run.text, "hi");
    assert!(!run.bold && !run.italic && !run.strike && !run.underline && !run.code);
    assert_eq!(run.bg, None);
}

#[test]
fn wikilink_widget_reports_clicks_and_displays_its_label() {
    let w = WikilinkWidget { text: "Label".to_string(), fg: Color::rgb(1, 2, 3), bg: Some(Color::rgb(4, 5, 6)), id: 42 };
    assert!(w.handles_click());
    assert_eq!(w.widget_id(), 42);
    let d = w.display();
    assert_eq!(d.text, "Label");
    assert_eq!(d.fg, Some(Color::rgb(1, 2, 3)));
    assert_eq!(d.bg, Some(Color::rgb(4, 5, 6)));
    assert!(!d.strikethrough);
}
