use hiker_editor::mouse::rectangle_selection;
use hiker_editor::document::EditorState;
use hiker_editor::document::SelRange;
use hiker_editor::document::Selection;
use hiker_editor::mouse::click_pattern_selection;
use hiker_editor::mouse::drag_range;
use hiker_editor::mouse::first_span_containing;
use hiker_editor::mouse::pattern_span_at;
use hiker_editor::mouse::plan_text_drag;
use hiker_editor::mouse::pos_in_any_nonempty_range;
use hiker_editor::mouse::press_action;
use hiker_editor::mouse::rectangle_main;
use hiker_editor::mouse::DragEdit;
use hiker_editor::mouse::Modifiers;
use hiker_editor::mouse::PressAction;
use hiker_editor::mouse::press_phase;
use hiker_editor::mouse::drag_step;
use hiker_editor::mouse::release_step;
use hiker_editor::mouse::DragPhase;
use hiker_editor::mouse::DragEffect;
use hiker_editor::mouse::ReleaseEffect;

const NONE: Modifiers = Modifiers { shift: false, alt: false, primary: false };

#[test]
fn pattern_span_is_the_first_match_covering_the_click() {
    assert_eq!(pattern_span_at("foo bar", 5, r"\w+"), Some((4, 7)));
    assert_eq!(pattern_span_at("foo bar", 3, r"\w+"), Some((0, 3)));
    assert_eq!(pattern_span_at("foo  bar", 4, r"\w+"), None);
    assert_eq!(pattern_span_at("abc\n", 1, r".*\n?"), Some((0, 4)));
    assert_eq!(pattern_span_at("foo bar", 1, r"(unclosed"), None);
}

#[test]
fn first_span_containing_includes_both_ends() {
    let spans = vec![(0, 3), (3, 5), (7, 9)];
    assert_eq!(first_span_containing(&spans, 3), Some((0, 3)));
    assert_eq!(first_span_containing(&spans, 9), Some((7, 9)));
    assert_eq!(first_span_containing(&spans, 6), None);
}

#[test]
fn press_in_selection_arms_text_drag() {
    let mut state = EditorState::new("hello world");
    state.selection = Selection::from_range(SelRange::new(6, 11));
    assert!(pos_in_any_nonempty_range(&state, 6));
    assert!(!pos_in_any_nonempty_range(&state, 11));
    assert!(!pos_in_any_nonempty_range(&state, 2));
    assert_eq!(press_action(1, NONE, true), PressAction::ArmTextDrag);
    assert_eq!(press_action(1, NONE, false), PressAction::PlaceCaret);
}

#[test]
fn press_actions_by_modifiers_and_clicks() {
    let alt = Modifiers { shift: false, alt: true, primary: false };
    let shift = Modifiers { shift: true, alt: false, primary: false };
    let primary = Modifiers { shift: false, alt: false, primary: true };
    assert_eq!(press_action(1, alt, false), PressAction::StartRectangle);
    assert_eq!(press_action(1, alt, true), PressAction::AddCursor);
    assert_eq!(press_action(2, NONE, false), PressAction::SelectWord);
    assert_eq!(press_action(3, shift, true), PressAction::SelectLine);
    assert_eq!(press_action(1, primary, false), PressAction::AddCursor);
    assert_eq!(press_action(1, shift, false), PressAction::ExtendToPointer);
}

#[test]
fn click_pattern_selection_offsets_by_line_start() {
    let s = click_pattern_selection(10, 12, Some((1, 4)));
    assert_eq!(s.ranges().clone(), vec![SelRange::new(11, 14)]);
    let s = click_pattern_selection(10, 12, None);
    assert_eq!(s.main(), SelRange::new(12, 12));
}

#[test]
fn drag_keeps_the_anchored_word_and_extends_past_it() {
    assert_eq!(drag_range(4, 8, 6), SelRange::new(4, 8));
    assert_eq!(drag_range(4, 8, 10), SelRange::new(4, 10));
    assert_eq!(drag_range(4, 8, 1), SelRange::new(8, 1));
}

#[test]
fn text_drag_moves_the_selection() {
    assert!(plan_text_drag(4, 8, 6).is_none());
    assert!(plan_text_drag(4, 8, 8).is_none());
    let p = plan_text_drag(4, 8, 12).unwrap();
    assert_eq!(
        p.edits,
        vec![
            DragEdit { start: 4, end: 8, insert: false },
            DragEdit { start: 12, end: 12, insert: true },
        ]
    );
    assert_eq!((p.sel_start, p.sel_end), (8, 12));
    let p = plan_text_drag(4, 8, 1).unwrap();
    assert_eq!(p.edits[0], DragEdit { start: 1, end: 1, insert: true });
    assert_eq!((p.sel_start, p.sel_end), (1, 5));
}

#[test]
fn rectangle_main_clamps_to_the_rectangle() {
    assert_eq!(rectangle_main(5, 3, 4), 2);
    assert_eq!(rectangle_main(9, 3, 4), 3);
    assert_eq!(rectangle_main(1, 3, 4), 0);
}

#[test]
fn rectangle_selection_has_one_range_per_line() {
    let s = rectangle_selection(vec![(1, 3), (5, 7), (9, 9)], 4, 3);
    assert_eq!(s.ranges().clone(), vec![SelRange::new(1, 3), SelRange::new(5, 7), SelRange::new(9, 9)]);
    assert_eq!(s.main(), SelRange::new(5, 7));
}

#[test]
fn plain_press_arms_a_point_selecting_drag() {
    let caret = SelRange::new(7, 7);
    assert_eq!(press_phase(PressAction::PlaceCaret, caret), DragPhase::MaybeSelecting { lo: 7, hi: 7 });
    let word = SelRange::new(4, 9);
    assert_eq!(press_phase(PressAction::SelectWord, word), DragPhase::MaybeSelecting { lo: 4, hi: 9 });
    assert_eq!(press_phase(PressAction::ArmTextDrag, caret), DragPhase::MaybeDraggingSelection);
    assert_eq!(press_phase(PressAction::StartRectangle, caret), DragPhase::RectangleSelecting);
}

#[test]
fn drag_steps_follow_the_phase() {
    let (p, e) = drag_step(DragPhase::MaybeSelecting { lo: 4, hi: 9 }, false, 12);
    assert_eq!(p, DragPhase::MaybeSelecting { lo: 4, hi: 9 });
    assert_eq!(e, DragEffect::Select(SelRange::new(4, 12)));
    let (p, e) = drag_step(DragPhase::MaybeDraggingSelection, false, 3);
    assert_eq!((p, e), (DragPhase::MaybeDraggingSelection, DragEffect::Nothing));
    let (p, _) = drag_step(DragPhase::MaybeDraggingSelection, true, 3);
    assert_eq!(p, DragPhase::DraggingSelection { drop_caret: 3 });
    let (p, e) = drag_step(DragPhase::RectangleSelecting, true, 3);
    assert_eq!((p, e), (DragPhase::RectangleSelecting, DragEffect::Rectangle));
    assert_eq!(drag_step(DragPhase::Idle, true, 3), (DragPhase::Idle, DragEffect::Nothing));
}

#[test]
fn release_returns_to_idle_with_its_effect() {
    let (p, e) = release_step(DragPhase::MaybeDraggingSelection, 5, 2, 8);
    assert_eq!(p, DragPhase::Idle);
    assert_eq!(e, ReleaseEffect::PlaceCaret(5));
    let (_, e) = release_step(DragPhase::DraggingSelection { drop_caret: 4 }, 0, 2, 8);
    assert_eq!(e, ReleaseEffect::Nothing);
    let (_, e) = release_step(DragPhase::DraggingSelection { drop_caret: 10 }, 0, 2, 8);
    match e {
        ReleaseEffect::MoveText(plan) => {
            assert_eq!((plan.sel_start, plan.sel_end), (4, 10));
        }
        _ => panic!("expected a text move"),
    }
    let (p, e) = release_step(DragPhase::MaybeSelecting { lo: 1, hi: 1 }, 5, 2, 8);
    assert_eq!((p, e), (DragPhase::Idle, ReleaseEffect::Nothing));
}
