use hiker_editor::autocomplete::rank;
use hiker_editor::autocomplete::rank_lowered;
use hiker_editor::autocomplete::score_text;
use hiker_editor::autocomplete::subsequence_score;
use hiker_editor::autocomplete::is_boundary_byte;
use hiker_editor::autocomplete::CompletionItem;
use hiker_editor::autocomplete::CompletionKind;
use hiker_editor::autocomplete::CompletionState;
use hiker_editor::autocomplete::RankCandidate;

fn cand(label: &str, basename: Option<&str>) -> RankCandidate {
    RankCandidate {
        label: label.to_string(),
        basename: basename.map(|b| b.to_string()),
        item: CompletionItem {
            label: basename.unwrap_or(label).to_string(),
            detail: Some(label.to_string()),
            insert: label.to_string(),
            replace_range: None,
            kind: CompletionKind::Text,
        },
    }
}

fn labels(items: &[CompletionItem]) -> Vec<&str> {
    items.iter().map(|i| i.label.as_str()).collect()
}

#[test]
fn prefix_beats_mid_match() {
    let items = rank("arch", vec![cand("search", None), cand("architecture", None)], 10);
    assert_eq!(labels(&items), vec!["architecture", "search"]);
}

#[test]
fn basename_beats_deep_path() {
    let items = rank(
        "arch",
        vec![
            cand("architecture/notes/draft.md", Some("draft")),
            cand("notes/architecture.md", Some("architecture")),
        ],
        10,
    );
    assert_eq!(items[0].label.as_str(), "architecture");
}

#[test]
fn subsequence_matches() {
    let items = rank("ace", vec![cand("abcde", None), cand("xyz", None)], 10);
    assert_eq!(labels(&items), vec!["abcde"]);
}

#[test]
fn nonmatch_is_filtered() {
    let items = rank("zzz", vec![cand("abcde", None)], 10);
    assert!(items.is_empty());
}

#[test]
fn empty_query_keeps_all_in_label_order() {
    let items = rank("", vec![cand("beta", None), cand("alpha", None)], 10);
    assert_eq!(labels(&items), vec!["alpha", "beta"]);
}

#[test]
fn deterministic_tie_break_by_label() {
    let items = rank("no", vec![cand("note", None), cand("nope", None), cand("nod", None)], 10);
    assert_eq!(labels(&items), vec!["nod", "nope", "note"]);
}

#[test]
fn respects_limit() {
    let items = rank("a", vec![cand("a1", None), cand("a2", None), cand("a3", None)], 2);
    assert_eq!(items.len(), 2);
}

#[test]
fn boundary_subsequence_beats_scattered() {
    let items = rank("ab", vec![cand("crab-base", None), cand("zabzz", None)], 10);
    assert_eq!(labels(&items), vec!["crab-base", "zabzz"]);
}

#[test]
fn score_tiers() {
    assert_eq!(score_text("anything", ""), 1);
    assert_eq!(score_text("abc", "abc"), 10_000);
    assert_eq!(score_text("abcdef", "abc"), 5_000);
    assert_eq!(score_text("x/abc", "abc"), 3_000);
    assert_eq!(score_text("xabc", "abc"), 2_000);
    assert_eq!(score_text("a-b_c", "abc"), 103);
    assert_eq!(score_text("xaybzc", "abc"), 100);
    assert_eq!(score_text("xyz", "abc"), 0);
}

#[test]
fn subsequence_counts_boundary_hits() {
    assert_eq!(subsequence_score("alpha-beta", "ab"), Some(2));
    assert_eq!(subsequence_score("cabbage", "ab"), Some(0));
    assert_eq!(subsequence_score("abc", "abd"), None);
    assert!(is_boundary_byte(b'/') && is_boundary_byte(b'.') && !is_boundary_byte(b'a'));
}

#[test]
fn query_and_labels_are_case_insensitive() {
    let items = rank("ARCH", vec![cand("Architecture", None), cand("other", None)], 10);
    assert_eq!(labels(&items), vec!["Architecture"]);
}

#[test]
fn equal_labels_keep_input_order() {
    let mut a = cand("same", None);
    a.item.insert = "first".to_string();
    let mut b = cand("same", None);
    b.item.insert = "second".to_string();
    let items = rank("sa", vec![a, b], 10);
    let inserts: Vec<&str> = items.iter().map(|i| i.insert.as_str()).collect();
    assert_eq!(inserts, vec!["first", "second"]);
}

#[test]
fn rank_lowered_scores_the_given_lowered_texts() {
    let cands = vec![cand("Zeta", None), cand("Alpha", Some("Alpha"))];
    let labels_l = vec!["zeta".to_string(), "alpha".to_string()];
    let bases_l = vec![None, Some("alpha".to_string())];
    let items = rank_lowered("a", &labels_l, &bases_l, &cands, 10);
    // "alpha": basename prefix 5000 + 1000 boost beats "zeta" (2000).
    assert_eq!(labels(&items), vec!["Alpha", "Zeta"]);
}

#[test]
fn completion_state_open_move_close() {
    let mut st = CompletionState::default();
    assert!(!st.active);
    st.open(5, vec![cand("a", None).item, cand("b", None).item, cand("c", None).item]);
    assert!(st.active);
    assert_eq!(st.anchor_byte, 5);
    assert_eq!(st.selected, 0);
    st.move_selection(-1);
    assert_eq!(st.selected, 2);
    st.move_selection(2);
    assert_eq!(st.selected, 1);
    assert_eq!(st.selected_item().map(|i| i.label.as_str()), Some("b"));
    st.close();
    assert!(!st.active);
    assert!(st.items.is_empty());
    assert_eq!(st.selected, 0);
    assert!(st.selected_item().is_none());
    st.open(1, Vec::new());
    assert!(!st.active);
    st.move_selection(3);
    assert_eq!(st.selected, 0);
}

#[test]
fn unmatched_basename_candidate_is_filtered() {
    let items = rank("zzz", vec![cand("notes/draft.md", Some("draft"))], 10);
    assert!(items.is_empty());
}

#[test]
fn empty_query_ignores_basename_and_orders_by_label() {
    let items = rank("", vec![cand("b", Some("b")), cand("a", None)], 10);
    let details: Vec<&str> = items.iter().map(|i| i.detail.as_deref().unwrap()).collect();
    assert_eq!(details, vec!["a", "b"]);
}

#[test]
fn label_match_with_unmatched_basename_scores_label_only() {
    // "arc" matches the label "arc/x.md" as a prefix (5000); the basename
    // "x" does not match, so no boost applies and "arch.md" (5000) ties,
    // broken by label.
    let items = rank("arc", vec![cand("arc/x.md", Some("x")), cand("arch.md", None)], 10);
    let details: Vec<&str> = items.iter().map(|i| i.detail.as_deref().unwrap()).collect();
    assert_eq!(details, vec!["arc/x.md", "arch.md"]);
}
