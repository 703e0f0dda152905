use hiker_editor::decoration::Color;
use hiker_editor::decoration::Decoration;
use hiker_editor::document::EditorState;
use hiker_editor::document::Selection;
use hiker_editor::links::is_external_link_dest;
use hiker_editor::links::parse_md_link;
use hiker_editor::links::trailing_block_marker;
use hiker_editor::links::wikilink_decorations;
use hiker_editor::links::wikilink_decorations_with_titles;
use hiker_editor::links::wikilink_queries;
use hiker_editor::links::WIKILINK_WIDGET_TAG;

fn no_resolver() -> Option<&'static fn(&str) -> Option<String>> {
    None
}

#[test]
fn external_dests_are_recognized() {
    assert!(is_external_link_dest("http://example.com"));
    assert!(is_external_link_dest("HTTPS://Example.com"));
    assert!(is_external_link_dest("mailto:a@b.c"));
    assert!(is_external_link_dest("zim://zim/C/Foo"));
    assert!(!is_external_link_dest("Note"));
    assert!(!is_external_link_dest("folder/Note.md"));
    assert!(!is_external_link_dest("Note#Heading"));
    assert!(!is_external_link_dest("#Section"));
}

#[test]
fn parses_inline_markdown_link() {
    let text = "see [Doc](folder/Doc#Heading) end";
    let start = text.find('[').unwrap();
    let md = parse_md_link(text, start).expect("link parses");
    assert_eq!(md.label, "Doc");
    assert_eq!(md.dest, "folder/Doc#Heading");
    assert_eq!(&text[start..md.full_end], "[Doc](folder/Doc#Heading)");
}

#[test]
fn rejects_malformed_markdown_link() {
    assert!(parse_md_link("[Doc] (x)", 0).is_none());
    assert!(parse_md_link("[Doc]\n(x)", 0).is_none());
    assert!(parse_md_link("[Doc]()", 0).is_none());
    assert!(parse_md_link("[Doc](no\nclose", 0).is_none());
    assert!(parse_md_link("[](x)", 0).is_none());
}

fn pill_targets(src: &str) -> Vec<u64> {
    let state = EditorState::new(src);
    let resolve = |_: &str| Some("Title".to_string());
    let set = wikilink_decorations(&state, None, None, Some(&resolve));
    set.entries
        .iter()
        .filter_map(|(_, d)| match d {
            Decoration::InlineWidget { widget, .. } => Some(widget.widget_id()),
            _ => None,
        })
        .collect()
}

#[test]
fn vault_markdown_link_becomes_clickable_pill() {
    let src = "x\n[Doc](folder/Doc#Heading)\n";
    let ids = pill_targets(src);
    assert_eq!(ids.len(), 1, "one pill emitted for the vault link");
    assert_ne!(ids[0] & WIKILINK_WIDGET_TAG, 0, "tagged as a wikilink-bucket click");
}

#[test]
fn external_markdown_link_is_not_a_pill() {
    let src = "x\n[Site](https://example.com)\n";
    assert!(pill_targets(src).is_empty(), "external link stays a plain markdown link");
}

#[test]
fn wikilink_still_emits_its_pill() {
    let src = "x\n[[Other#Heading]]\n";
    let ids = pill_targets(src);
    assert_eq!(ids.len(), 1);
    assert_ne!(ids[0] & WIKILINK_WIDGET_TAG, 0);
}

#[test]
fn block_anchor_wikilink_emits_a_pill() {
    for src in ["x\n[[Other#^abc123]]\n", "x\n[[#^abc123]]\n"] {
        let ids = pill_targets(src);
        assert_eq!(ids.len(), 1, "one pill for {src:?}");
        assert_ne!(ids[0] & WIKILINK_WIDGET_TAG, 0);
    }
}

#[test]
fn block_anchor_markdown_link_emits_a_pill() {
    let src = "x\n[Doc](other#^abc123)\n";
    let ids = pill_targets(src);
    assert_eq!(ids.len(), 1, "vault md link with a block anchor is a pill");
    assert_ne!(ids[0] & WIKILINK_WIDGET_TAG, 0);
}

fn pill_spans(src: &str) -> Vec<std::ops::Range<usize>> {
    let state = EditorState::new(src);
    let resolve = |_: &str| Some("Title".to_string());
    let set = wikilink_decorations(&state, None, None, Some(&resolve));
    set.entries
        .iter()
        .filter_map(|(r, d)| match d {
            Decoration::InlineWidget { .. } => Some(r.clone()),
            _ => None,
        })
        .collect()
}

#[test]
fn code_wikilinks_with_nested_brackets_become_pills() {
    let bodies = [
        "code:hiker/cluster/build/impl#[`Builder<'a>`]top_level_split",
        "code:hiker/cluster/build/impl#[`Builder<'a>`]build_top_level_nodes",
        "code:hiker/cluster/build/impl#[`Builder<'a>`]split_branch_ctx",
        "code:hiker/cluster/build/impl#[`SplitBranchCtx<'a>`]split_top_level_groups",
    ];
    for body in bodies {
        let src = format!("x\nimplements:: [[{body}]], [[code:hiker/x/y]]\n");
        let spans = pill_spans(&src);
        assert_eq!(spans.len(), 2, "{body}");
        assert_eq!(&src[spans[0].clone()], format!("[[{body}]]"));
        assert_eq!(
            &src[spans[1].clone()],
            "[[code:hiker/x/y]]",
            "scan resumes after the close",
        );
    }
    let src = "x\n[[code:hiker/tab/impl#[TabKind]git_diff_preview]] and \
               [[code:hiker/canvas_activity/impl#[CanvasActivity][`Activity<dyn AppCtx + 'static>`]id]]\n";
    let spans = pill_spans(src);
    assert_eq!(spans.len(), 2);
    assert_eq!(&src[spans[0].clone()], "[[code:hiker/tab/impl#[TabKind]git_diff_preview]]");
    assert_eq!(
        &src[spans[1].clone()],
        "[[code:hiker/canvas_activity/impl#[CanvasActivity][`Activity<dyn AppCtx + 'static>`]id]]",
    );
}

#[test]
fn malformed_code_bodies_emit_no_pill() {
    for src in [
        "x\n[[code:hiker/impl#[`X`]m\n",
        "x\n[[code:hiker/impl#[`X\n`]m]]\n",
        "x\n[[code:hiker/a/[b]]\n",
        "x\n[[code:hiker/a`b]]\n",
        "x\n[[code:hiker/a]b]]\n",
    ] {
        assert!(pill_spans(src).is_empty(), "{src:?}");
    }
}

#[test]
fn ordinary_body_with_stray_bracket_still_rejects() {
    assert!(pill_spans("x\n[[a]b]]\n").is_empty());
}

#[test]
fn nested_code_body_reaches_the_resolver_verbatim() {
    let src = "x\n[[code:hiker/cluster/build/impl#[`Builder<'a>`]top_level_split]]\n";
    let state = EditorState::new(src);
    let seen = std::cell::RefCell::new(Vec::new());
    let resolve = |t: &str| {
        seen.borrow_mut().push(t.to_string());
        Some("Builder::top_level_split".to_string())
    };
    let set = wikilink_decorations(&state, None, None, Some(&resolve));
    let labels: Vec<String> = set
        .entries
        .iter()
        .filter_map(|(_, d)| match d {
            Decoration::InlineWidget { widget, .. } => Some(widget.display().text),
            _ => None,
        })
        .collect();
    assert_eq!(labels, vec!["Builder::top_level_split"]);
    assert_eq!(
        seen.borrow().as_slice(),
        ["code:hiker/cluster/build/impl#[`Builder<'a>`]top_level_split"],
    );
}

#[test]
fn trailing_block_marker_classifies_real_markers() {
    let line = "Some paragraph text. ^abc123";
    let r = trailing_block_marker(line).expect("real marker");
    assert_eq!(&line[r.clone()], " ^abc123");
    let line = "item ^a-b-c";
    assert_eq!(trailing_block_marker(line).map(|r| &line[r]), Some(" ^a-b-c"));
}

#[test]
fn trailing_block_marker_rejects_incidental_carets() {
    assert_eq!(trailing_block_marker("2^10"), None);
    assert_eq!(trailing_block_marker("a ^ b"), None);
    assert_eq!(trailing_block_marker("x ^id more words"), None);
    assert_eq!(trailing_block_marker("word^abc"), None);
    assert_eq!(trailing_block_marker("^abc"), None);
    assert_eq!(trailing_block_marker("  ^abc"), None);
    assert_eq!(trailing_block_marker("note ^under_score"), None);
    assert_eq!(trailing_block_marker("note ^"), None);
}

fn concealed_spans(src: &str) -> Vec<std::ops::Range<usize>> {
    let state = EditorState::new(src);
    let set = wikilink_decorations(&state, None, None, no_resolver());
    set.entries
        .iter()
        .filter_map(|(r, d)| match d {
            Decoration::Replace { display: None } => Some(r.clone()),
            _ => None,
        })
        .collect()
}

#[test]
fn block_marker_concealed_off_cursor_line() {
    let src = "intro\n\nA tagged paragraph. ^abc123\n";
    let spans = concealed_spans(src);
    let marker = src.find(" ^abc123").unwrap();
    assert!(
        spans.iter().any(|r| r.start == marker && r.end == marker + " ^abc123".len()),
        "off-cursor marker concealed, got {spans:?}",
    );
}

#[test]
fn block_marker_revealed_on_cursor_line() {
    let src = "A tagged paragraph. ^abc123\nmore\n";
    let mut state = EditorState::new(src);
    let on_line = src.find("tagged").unwrap();
    state.selection = Selection::single(on_line);
    let set = wikilink_decorations(&state, None, None, no_resolver());
    let any_conceal = set
        .entries
        .iter()
        .any(|(_, d)| matches!(d, Decoration::Replace { display: None }));
    assert!(!any_conceal, "marker on the cursor line reveals (no conceal)");
}

#[test]
fn block_marker_in_fence_not_concealed() {
    let src = "before\n```\ncode line ^infence\n```\n";
    assert!(concealed_spans(src).is_empty(), "fenced `^id` is not concealed");
}

#[test]
fn incidental_caret_not_concealed() {
    let src = "the value 2^10 is large\nmore\n";
    assert!(concealed_spans(src).is_empty(), "math caret not concealed");
}

#[test]
fn without_resolver_wikilink_is_replaced_by_its_target_and_underlined() {
    let src = "x\n[[ Note ]]\n";
    let state = EditorState::new(src);
    let set = wikilink_decorations(&state, None, None, no_resolver());
    assert_eq!(set.len(), 2);
    let (r0, d0) = &set.entries[0];
    assert_eq!((r0.start, r0.end), (2, 12));
    match d0 {
        Decoration::Replace { display: Some(t) } => assert_eq!(t, "Note"),
        _ => panic!("expected a plain replacement"),
    }
    let (r1, d1) = &set.entries[1];
    assert_eq!((r1.start, r1.end), (4, 10));
    match d1 {
        Decoration::Mark(m) => {
            assert!(m.underline);
            assert_eq!(m.fg, Some(Color::rgb(86, 156, 214)));
        }
        _ => panic!("expected the underline mark"),
    }
}

#[test]
fn unresolved_targets_render_in_the_unresolved_style() {
    let src = "x\n[[Gone]] [Doc](missing#h)\n";
    let state = EditorState::new(src);
    let resolve = |_: &str| None;
    let set = wikilink_decorations(&state, None, None, Some(&resolve));
    let pills: Vec<_> = set
        .entries
        .iter()
        .filter_map(|(_, d)| match d {
            Decoration::InlineWidget { widget, atomic } => Some((widget.clone(), *atomic)),
            _ => None,
        })
        .collect();
    assert_eq!(pills.len(), 2);
    for (w, atomic) in &pills {
        assert!(*atomic);
        assert_eq!(w.fg, Color::rgb(224, 108, 117));
        assert_eq!(w.bg, None);
    }
    assert_eq!(pills[0].0.text, "Gone");
    assert_eq!(pills[1].0.text, "Doc");
}

#[test]
fn resolved_pill_carries_title_tag_and_tinted_background() {
    let src = "x\n[[Note]]\n";
    let state = EditorState::new(src);
    let resolve = |_: &str| Some("The Note".to_string());
    let set = wikilink_decorations(&state, None, None, Some(&resolve));
    match &set.entries[0].1 {
        Decoration::InlineWidget { widget, .. } => {
            assert_eq!(widget.text, "The Note");
            assert_eq!(widget.id, WIKILINK_WIDGET_TAG | 2);
            assert_eq!(widget.fg, Color::rgb(86, 156, 214));
            assert_eq!(widget.bg, Some(Color::rgba(86, 156, 214, 36)));
        }
        _ => panic!("expected a pill"),
    }
}

#[test]
fn queries_are_wikilink_targets_and_markdown_pages_off_the_cursor_line() {
    let src = "[[Here]]\n[[ There ]] [Doc]( folder/Doc #Heading)\n";
    let state = EditorState::new(src);
    let qs = wikilink_queries(&state, None);
    assert_eq!(qs, vec!["There".to_string(), "folder/Doc".to_string()]);
}

#[test]
fn titles_drive_labels_in_query_order() {
    let src = "x\n[[A]] [[B]]\n";
    let state = EditorState::new(src);
    let titles = vec![Some("Alpha".to_string()), Some(String::new())];
    let set = wikilink_decorations_with_titles(&state, None, None, Some(&titles));
    let labels: Vec<String> = set
        .entries
        .iter()
        .filter_map(|(_, d)| match d {
            Decoration::InlineWidget { widget, .. } => Some(widget.text.clone()),
            _ => None,
        })
        .collect();
    // An empty title falls back to the target.
    assert_eq!(labels, vec!["Alpha".to_string(), "B".to_string()]);
}
