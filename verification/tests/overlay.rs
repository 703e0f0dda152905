use hiker_editor::decoration::BlockSide;
use hiker_editor::overlay::agent_hunks;
use hiker_editor::overlay::anchor_and_side;
use hiker_editor::overlay::line_byte_offsets;
use hiker_editor::overlay::AgentHunk;
use hiker_editor::overlay::Hunk;
use hiker_editor::overlay::HunkKind;

#[test]
fn line_offsets_end_with_the_text_length() {
    assert_eq!(line_byte_offsets(""), vec![0]);
    assert_eq!(line_byte_offsets("a\nb"), vec![0, 2, 3]);
    assert_eq!(line_byte_offsets("a\nb\n"), vec![0, 2, 4]);
    assert_eq!(line_byte_offsets("\n\n"), vec![0, 1, 2]);
}

#[test]
fn hunks_project_to_byte_spans_and_skip_context() {
    let working = "one\ntwo\nthree\n";
    let proposal = "one\nTWO\nnew\nthree\n";
    let hunks = vec![
        Hunk { kind: HunkKind::Context, left_lines: 0..1, right_lines: 0..1 },
        Hunk { kind: HunkKind::Modified, left_lines: 1..2, right_lines: 1..2 },
        Hunk { kind: HunkKind::Added, left_lines: 2..2, right_lines: 2..3 },
        Hunk { kind: HunkKind::Removed, left_lines: 2..9, right_lines: 9..9 },
    ];
    let out = agent_hunks(working, proposal, &hunks);
    assert_eq!(
        out,
        vec![
            AgentHunk { byte_start: 4, byte_end: 8, op_start: 4, op_end: 8, kind: HunkKind::Modified },
            AgentHunk { byte_start: 8, byte_end: 8, op_start: 8, op_end: 12, kind: HunkKind::Added },
            AgentHunk { byte_start: 8, byte_end: 14, op_start: 18, op_end: 18, kind: HunkKind::Removed },
        ]
    );
    assert!(!out[0].is_pure_insertion());
    assert!(out[1].is_pure_insertion());
}

#[test]
fn reversed_line_ranges_collapse_to_zero_width() {
    let out = agent_hunks("a\nb\n", "a\n", &[Hunk { kind: HunkKind::Removed, left_lines: 2..1, right_lines: 1..0 }]);
    assert_eq!(out[0].byte_start, 4);
    assert_eq!(out[0].byte_end, 4);
    assert_eq!(out[0].op_start, 2);
    assert_eq!(out[0].op_end, 2);
}

#[test]
fn modify_anchors_below_its_last_line() {
    let working = "one\ntwo\nthree\n";
    // Hunk covering "two\nthree\n" (bytes 4..14): last byte on line 2.
    assert_eq!(anchor_and_side(working, 4, 14), (8, BlockSide::Below));
    // Hunk covering just "two\n".
    assert_eq!(anchor_and_side(working, 4, 8), (4, BlockSide::Below));
}

#[test]
fn pure_insertion_anchors_above_its_site_line() {
    let working = "one\ntwo\nthree\n";
    assert_eq!(anchor_and_side(working, 8, 8), (8, BlockSide::Above));
    assert_eq!(anchor_and_side(working, 6, 6), (4, BlockSide::Above));
    // Past the end clamps to the last (empty) line.
    assert_eq!(anchor_and_side(working, 99, 99), (14, BlockSide::Above));
}
