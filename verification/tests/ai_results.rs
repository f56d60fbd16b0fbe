use herdr::ai_results::{
    ai_candidates, ai_group, ai_pick_hits, checked_ai_pick_hits, latest_match, pick_group,
    pick_index, quote_found,
};
use herdr::search_pane::{ai_status, AiPaneRef, SearchGroup, SearchHit, TextMatch, TextPoint};

fn m(row: u32, col: u32) -> TextMatch {
    TextMatch {
        start: TextPoint { row, col },
        end: TextPoint { row, col: col + 3 },
    }
}

fn pane(n: u64) -> AiPaneRef {
    AiPaneRef {
        ws_idx: 0,
        tab_idx: 1,
        pane_id: n,
        title: format!("{n} · agent"),
        subtitle: "sub".into(),
        tokens: vec![("name".into(), "Ada".into())],
    }
}

fn hit(row: u32) -> SearchHit {
    SearchHit {
        text_match: m(row, 0),
        snippet: "x".into(),
        match_char: 0,
    }
}

#[test]
fn candidates_try_the_quote_then_five_then_three_words() {
    assert_eq!(
        ai_candidates("  fix   the parser bug in lexer now please "),
        [
            "fix the parser bug in lexer now please",
            "fix the parser bug in",
            "fix the parser"
        ]
    );
    assert_eq!(ai_candidates("a b c d"), ["a b c d", "a b c d", "a b c"]);
    assert!(ai_candidates("ab").is_empty());
    assert!(ai_candidates(" \n\t ").is_empty());
    assert_eq!(ai_candidates("x yz"), ["x yz", "x yz", "x yz"]);
}

#[test]
fn picks_count_panes_from_one() {
    let panes = vec![pane(1), pane(2)];
    assert_eq!(pick_index(0, &panes), None);
    assert_eq!(pick_index(1, &panes), Some(0));
    assert_eq!(pick_index(2, &panes), Some(1));
    assert_eq!(pick_index(3, &panes), None);
}

#[test]
fn latest_match_is_last_by_row_then_column_then_listing() {
    let xs = vec![
        (m(1, 5), "a".to_string()),
        (m(3, 0), "b".to_string()),
        (m(3, 0), "c".to_string()),
        (m(2, 9), "d".to_string()),
    ];
    assert_eq!(latest_match(&xs), Some(2));
    assert_eq!(latest_match(&Vec::new()), None);
}

#[test]
fn pane_hits_one_per_row_capped_newest_first() {
    let found = vec![
        Some((m(5, 0), "Hello   World".to_string(), "world".to_string())),
        None,
        Some((m(9, 2), "x  y".to_string(), "y".to_string())),
        Some((m(5, 4), "again".to_string(), "gain".to_string())),
        Some((m(7, 1), "abc".to_string(), "abc".to_string())),
        Some((m(8, 1), "late".to_string(), "late".to_string())),
    ];
    let hits = ai_pick_hits(&found);
    let rows: Vec<u32> = hits.iter().map(|h| h.text_match.start.row).collect();
    assert_eq!(rows, [9, 7, 5]);
    assert_eq!(hits[2].snippet, "Hello World");
    assert_eq!(hits[2].match_char, 6);
    assert_eq!(hits[0].snippet, "x y");
    assert_eq!(hits[0].match_char, 2);
    assert!(ai_pick_hits(&vec![None, None]).is_empty());
    assert_eq!(checked_ai_pick_hits(&found).unwrap().len(), 3);
}

#[test]
fn groups_need_hits_and_status_counts_them() {
    assert!(ai_group(pane(1), Vec::new()).is_none());
    let g = ai_group(pane(4), vec![hit(3)]).unwrap();
    assert_eq!((g.pane_id, g.tab_idx, g.title.as_str()), (4, 1, "4 · agent"));
    assert_eq!(ai_status(&Vec::new()), "AI found nothing relevant");
    let groups: Vec<SearchGroup> = vec![
        ai_group(pane(1), vec![hit(1)]).unwrap(),
        ai_group(pane(2), vec![hit(2), hit(3)]).unwrap(),
    ];
    assert_eq!(ai_status(&groups), "AI: 3 in 2 agents");
    let one = vec![ai_group(pane(1), vec![hit(1)]).unwrap()];
    assert_eq!(ai_status(&one), "AI: 1 in 1 agent");
}

#[test]
fn a_quote_takes_the_latest_match_of_its_first_matching_needle() {
    let needles = vec!["whole quote".to_string(), "whole".to_string(), "who".to_string()];
    let results = vec![
        Vec::new(),
        vec![(m(2, 0), "whole a".to_string()), (m(4, 1), "whole b".to_string())],
        vec![(m(9, 0), "who".to_string())],
    ];
    let (t, line, needle) = quote_found(&needles, &results).unwrap();
    assert_eq!((t.start.row, line.as_str(), needle.as_str()), (4, "whole b", "whole"));
    assert!(quote_found(&needles, &vec![Vec::new(), Vec::new(), Vec::new()]).is_none());
}

#[test]
fn a_pick_groups_the_hits_its_quotes_found_in_the_pane() {
    let needles = vec![
        vec!["first".to_string(), "fir".to_string()],
        vec!["second".to_string()],
        vec!["third".to_string()],
    ];
    let results = vec![
        vec![Vec::new(), vec![(m(3, 0), "fir tree".to_string())]],
        vec![vec![(m(8, 2), "a second".to_string())]],
        vec![Vec::new()],
    ];
    let g = pick_group(pane(6), &needles, &results).unwrap().unwrap();
    assert_eq!((g.pane_id, g.tab_idx, g.title.as_str()), (6, 1, "6 · agent"));
    let rows: Vec<u32> = g.hits.iter().map(|h| h.text_match.start.row).collect();
    assert_eq!(rows, [8, 3]);
    assert_eq!(g.hits[1].snippet, "fir tree");
    let nothing = vec![vec![Vec::new()]];
    assert!(pick_group(pane(6), &vec![vec!["x y z".to_string()]], &nothing)
        .unwrap()
        .is_none());
}
