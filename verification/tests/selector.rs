use lsp_workspace_command::index::Provider;
use lsp_workspace_command::matcher::evaluate;
use lsp_workspace_command::matcher::Candidate;
use lsp_workspace_command::selector::CommandSelector;

fn provider(id: u64, name: &str, commands: &[&str]) -> Provider {
    Provider {
        server_id: id,
        name: name.to_string(),
        commands: commands.iter().map(|c| c.to_string()).collect(),
    }
}

fn spec_providers() -> Vec<Provider> {
    vec![
        provider(1, "rust-analyzer", &["format", "organizeImports"]),
        provider(2, "eslint", &["fixAll"]),
    ]
}

#[test]
fn builds_index_in_order() {
    let s = CommandSelector::new(&spec_providers());
    assert_eq!(s.entries.len(), 3);
    assert_eq!(s.entries[0].display, "rust-analyzer: format");
    assert_eq!(s.entries[1].display, "rust-analyzer: organizeImports");
    assert_eq!(s.entries[2].display, "eslint: fixAll");
    assert_eq!(s.entries[0].command, "format");
    assert_eq!(s.entries[0].server_id, 1);
    assert_eq!(s.entries[2].command, "fixAll");
    assert_eq!(s.entries[2].server_id, 2);
    assert_eq!(s.candidates.len(), 3);
    assert_eq!(s.candidates[1].id, 1);
    assert_eq!(s.candidates[1].string, "rust-analyzer: organizeImports");
    assert_eq!(s.match_count(), 0);
    assert_eq!(s.selected_index(), 0);
    assert!(!s.closed);
}

#[test]
fn duplicate_display_keeps_last_writer() {
    // Two providers that produce identical display labels collapse to one
    // entry, owned by the later provider.
    let providers = vec![
        provider(1, "p", &["format"]),
        provider(2, "p", &["format"]),
    ];
    let s = CommandSelector::new(&providers);
    assert_eq!(s.entries.len(), 1);
    assert_eq!(s.entries[0].display, "p: format");
    assert_eq!(s.entries[0].command, "format");
    assert_eq!(s.entries[0].server_id, 2);
    assert_eq!(s.candidates.len(), 1);
}

#[test]
fn zero_command_provider_contributes_nothing() {
    let providers = vec![provider(7, "quiet", &[]), provider(8, "loud", &["a"])];
    let s = CommandSelector::new(&providers);
    assert_eq!(s.entries.len(), 1);
    assert_eq!(s.entries[0].display, "loud: a");
}

#[test]
fn empty_query_returns_all_in_order() {
    let mut s = CommandSelector::new(&spec_providers());
    s.update_matches("");
    assert_eq!(s.match_count(), 3);
    for (i, m) in s.matches.iter().enumerate() {
        assert_eq!(m.candidate_id, i);
        assert_eq!(m.string, s.candidates[i].string);
        assert!(m.positions.is_empty());
        assert_eq!(m.score, 0);
    }
}

#[test]
fn end_to_end_query_format() {
    let mut s = CommandSelector::new(&spec_providers());
    s.update_matches("");
    assert_eq!(s.match_count(), 3);
    assert_eq!(s.matches[0].string, "rust-analyzer: format");
    assert_eq!(s.matches[1].string, "rust-analyzer: organizeImports");
    assert_eq!(s.matches[2].string, "eslint: fixAll");

    s.update_matches("format");
    assert_eq!(s.match_count(), 1);
    let m = &s.matches[0];
    assert_eq!(m.string, "rust-analyzer: format");
    // Highlighted on the trailing substring "format".
    assert_eq!(m.positions, vec![15, 16, 17, 18, 19, 20]);
    let highlighted: String = m
        .positions
        .iter()
        .map(|&p| m.string.chars().nth(p).unwrap())
        .collect();
    assert_eq!(highlighted, "format");
}

#[test]
fn matching_is_case_insensitive() {
    let mut s = CommandSelector::new(&spec_providers());
    s.update_matches("FORMAT");
    assert_eq!(s.match_count(), 1);
    assert_eq!(s.matches[0].string, "rust-analyzer: format");
    s.update_matches("Eslint");
    assert_eq!(s.match_count(), 1);
    assert_eq!(s.matches[0].string, "eslint: fixAll");
}

#[test]
fn highlight_positions_follow_query_order() {
    // A fragmented match: the query characters appear in order but not
    // contiguously, and the leftmost embedding is reported.
    let candidates = vec![Candidate {
        id: 0,
        string: "organizeImports".to_string(),
    }];
    let ms = evaluate("oips", &candidates);
    assert_eq!(ms.len(), 1);
    let m = &ms[0];
    assert_eq!(m.positions.len(), 4);
    let chars: Vec<char> = m.string.chars().collect();
    let mut last = None;
    for (k, &p) in m.positions.iter().enumerate() {
        if let Some(prev) = last {
            assert!(prev < p);
        }
        last = Some(p);
        let want = "oips".chars().nth(k).unwrap();
        assert_eq!(chars[p].to_ascii_lowercase(), want);
    }
    // Leftmost: 'o' of "organize", 'i' of "organize", then 'p' and 's' of
    // "Imports".
    assert_eq!(m.positions, vec![0, 5, 10, 14]);
}

#[test]
fn contiguous_matches_rank_above_fragmented() {
    let candidates = vec![
        Candidate { id: 0, string: "a-b-c".to_string() },
        Candidate { id: 1, string: "abc".to_string() },
        Candidate { id: 2, string: "xyz".to_string() },
    ];
    let ms = evaluate("abc", &candidates);
    assert_eq!(ms.len(), 2);
    assert_eq!(ms[0].string, "abc");
    assert_eq!(ms[1].string, "a-b-c");
    assert!(ms[0].score > ms[1].score);
}

#[test]
fn equal_scores_keep_candidate_order() {
    let candidates = vec![
        Candidate { id: 0, string: "axb".to_string() },
        Candidate { id: 1, string: "abx".to_string() },
        Candidate { id: 2, string: "xab".to_string() },
    ];
    let ms = evaluate("ab", &candidates);
    assert_eq!(ms.len(), 3);
    // "abx" and "xab" hold "ab" contiguously and outrank "axb"; the tie
    // between them keeps candidate order.
    assert_eq!(ms[0].candidate_id, 1);
    assert_eq!(ms[1].candidate_id, 2);
    assert_eq!(ms[2].candidate_id, 0);
    assert!(ms[0].score == ms[1].score && ms[1].score > ms[2].score);
}

#[test]
fn match_count_capped_at_hundred() {
    let commands: Vec<String> = (0..150).map(|i| format!("cmd{i:03}")).collect();
    let command_refs: Vec<&str> = commands.iter().map(|c| c.as_str()).collect();
    let mut s = CommandSelector::new(&vec![provider(1, "p", &command_refs)]);
    s.update_matches("cmd");
    assert_eq!(s.match_count(), 100);
    // The empty query is the one uncapped evaluation: one match per
    // candidate, however many there are.
    s.update_matches("");
    assert_eq!(s.match_count(), 150);
}

#[test]
fn cursor_clamps_on_match_list_replacement() {
    let mut s = CommandSelector::new(&spec_providers());
    s.update_matches("");
    s.set_selected_index(2);
    assert_eq!(s.selected_index(), 2);
    // A valid cursor survives a replacement that keeps it in range.
    s.update_matches("");
    assert_eq!(s.selected_index(), 2);
    // Shrinking the match list to one entry clamps the cursor to it.
    s.update_matches("format");
    assert_eq!(s.match_count(), 1);
    assert_eq!(s.selected_index(), 0);
    // An empty match list clamps the cursor to zero.
    s.set_selected_index(5);
    s.update_matches("nothing-matches-this");
    assert_eq!(s.match_count(), 0);
    assert_eq!(s.selected_index(), 0);
}

#[test]
fn confirm_with_empty_matches_closes_without_dispatch() {
    let mut s = CommandSelector::new(&spec_providers());
    let r = s.confirm(&vec![1, 2]);
    assert!(r.is_none());
    assert!(s.closed);
}

#[test]
fn confirm_with_vanished_provider_closes_without_dispatch() {
    let mut s = CommandSelector::new(&spec_providers());
    s.update_matches("format");
    assert_eq!(s.match_count(), 1);
    // The owning provider (id 1) has disconnected since the index was built.
    let r = s.confirm(&vec![2]);
    assert!(r.is_none());
    assert!(s.closed);
}

#[test]
fn confirm_dispatches_selected_command() {
    let mut s = CommandSelector::new(&spec_providers());
    s.update_matches("");
    s.set_selected_index(2);
    let r = s.confirm(&vec![1, 2]);
    let req = r.expect("the provider is live");
    assert_eq!(req.command, "fixAll");
    assert_eq!(req.server_id, 2);
    assert!(s.closed);
}
