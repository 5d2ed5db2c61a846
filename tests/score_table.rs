use crows_tetris::scores::{parse_high_score_line, record_high_score, MAX_HIGH_SCORES};

fn rec(name: &str, score: i32) -> (String, i32) {
    (name.to_string(), score)
}

#[test]
fn parses_name_and_score() {
    assert_eq!(parse_high_score_line("alice,120"), Some(rec("alice", 120)));
    assert_eq!(parse_high_score_line("bob,-5"), Some(rec("bob", -5)));
    assert_eq!(parse_high_score_line("carol,+7"), Some(rec("carol", 7)));
    assert_eq!(parse_high_score_line(",0"), Some(rec("", 0)));
    assert_eq!(parse_high_score_line("max,2147483647"), Some(rec("max", 2147483647)));
}

#[test]
fn malformed_lines_are_rejected() {
    assert_eq!(parse_high_score_line(""), None);
    assert_eq!(parse_high_score_line("no comma here"), None);
    assert_eq!(parse_high_score_line("a,b,3"), None);
    assert_eq!(parse_high_score_line("a,3,"), None);
    assert_eq!(parse_high_score_line("x,abc"), None);
    assert_eq!(parse_high_score_line("x, 5"), None);
    assert_eq!(parse_high_score_line("x,"), None);
    assert_eq!(parse_high_score_line("x,-"), None);
    assert_eq!(parse_high_score_line("x,2147483648"), None);
}

#[test]
fn record_orders_best_first() {
    let mut t = vec![rec("a", 300), rec("b", 100)];
    record_high_score(&mut t, "c".to_string(), 200);
    assert_eq!(t, vec![rec("a", 300), rec("c", 200), rec("b", 100)]);
}

#[test]
fn record_puts_new_entry_after_equal_scores() {
    let mut t = vec![rec("a", 100), rec("b", 100)];
    record_high_score(&mut t, "c".to_string(), 100);
    assert_eq!(t, vec![rec("a", 100), rec("b", 100), rec("c", 100)]);
}

#[test]
fn record_sorts_an_unordered_table_stably() {
    let mut t = vec![rec("low", 5), rec("high", 50), rec("low2", 5)];
    record_high_score(&mut t, "mid".to_string(), 20);
    assert_eq!(
        t,
        vec![rec("high", 50), rec("mid", 20), rec("low", 5), rec("low2", 5)]
    );
}

#[test]
fn record_keeps_ten() {
    let mut t: Vec<(String, i32)> = (0..10).map(|i| rec(&format!("p{}", i), 100 - i)).collect();
    record_high_score(&mut t, "top".to_string(), 1000);
    assert_eq!(t.len(), MAX_HIGH_SCORES);
    assert_eq!(t[0], rec("top", 1000));
    assert_eq!(t[9], rec("p8", 92));
    record_high_score(&mut t, "last".to_string(), 0);
    assert_eq!(t.len(), 10);
    assert!(!t.iter().any(|r| r.0 == "last"));
}

#[test]
fn record_into_empty_table() {
    let mut t = Vec::new();
    record_high_score(&mut t, "solo".to_string(), 0);
    assert_eq!(t, vec![rec("solo", 0)]);
}
