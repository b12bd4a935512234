use type_racer::scoreboard::{format_score_line, merge_scores, parse_score_line, save_score, ScoreEntry};
use type_racer::draw_helper::format_scoreboard;

fn lines(v: &[&str]) -> Vec<String> {
    v.iter().map(|s| s.to_string()).collect()
}

#[test]
fn parse_plain_line() {
    let e = parse_score_line("alice 12.34").unwrap();
    assert_eq!(e.name, "alice");
    assert_eq!(e.score, 1234);
}

#[test]
fn parse_name_with_spaces_uses_last_space() {
    let e = parse_score_line("mary ann 7.05").unwrap();
    assert_eq!(e.name, "mary ann");
    assert_eq!(e.score, 705);
}

#[test]
fn parse_zero_score() {
    let e = parse_score_line("bob 0.00").unwrap();
    assert_eq!(e.name, "bob");
    assert_eq!(e.score, 0);
}

#[test]
fn parse_rejects_line_without_space() {
    assert!(parse_score_line("garbage").is_none());
}

#[test]
fn parse_rejects_one_decimal() {
    assert!(parse_score_line("a 12.3").is_none());
}

#[test]
fn parse_rejects_wrong_dot_position() {
    assert!(parse_score_line("a 12.345").is_none());
}

#[test]
fn parse_rejects_missing_integer_part() {
    assert!(parse_score_line("a .12").is_none());
}

#[test]
fn parse_rejects_non_digits() {
    assert!(parse_score_line("a 1x.00").is_none());
}

#[test]
fn parse_rejects_too_many_digits() {
    // 17 integer digits cannot be stored.
    assert!(parse_score_line("a 11111111111111111.00").is_none());
}

#[test]
fn format_then_parse_round_trips() {
    let line = format_score_line("carol", 59800);
    assert_eq!(line, "carol 598.00");
    let e = parse_score_line(&line).unwrap();
    assert_eq!(e.name, "carol");
    assert_eq!(e.score, 59800);
}

#[test]
fn format_pads_two_decimals() {
    assert_eq!(format_score_line("x", 5), "x 0.05");
    assert_eq!(format_score_line("x", 50), "x 0.50");
    assert_eq!(format_score_line("x", 100), "x 1.00");
}

#[test]
fn merge_into_empty_board() {
    let merged = save_score(Vec::new(), "solo".to_string(), 150, 10);
    assert_eq!(merged, lines(&["solo 1.50"]));
}

#[test]
fn merge_highest_goes_first() {
    let board = lines(&["alice 10.00", "bob 5.00"]);
    let merged = save_score(board, "carol".to_string(), 2000, 10);
    assert_eq!(merged, lines(&["carol 20.00", "alice 10.00", "bob 5.00"]));
}

#[test]
fn merge_middle_keeps_descending_order() {
    let board = lines(&["alice 10.00", "bob 5.00"]);
    let merged = save_score(board, "carol".to_string(), 700, 10);
    assert_eq!(merged, lines(&["alice 10.00", "carol 7.00", "bob 5.00"]));
}

#[test]
fn merge_lowest_below_capacity_appends() {
    let board = lines(&["alice 10.00", "bob 5.00"]);
    let merged = save_score(board, "carol".to_string(), 100, 10);
    assert_eq!(merged, lines(&["alice 10.00", "bob 5.00", "carol 1.00"]));
}

#[test]
fn merge_full_board_drops_old_minimum() {
    let board = lines(&[
        "p1 10.00", "p2 9.00", "p3 8.00", "p4 7.00", "p5 6.00", "p6 5.00", "p7 4.00", "p8 3.00",
        "p9 2.00", "p10 1.00",
    ]);
    let merged = save_score(board, "new".to_string(), 650, 10);
    assert_eq!(
        merged,
        lines(&[
            "p1 10.00", "p2 9.00", "p3 8.00", "p4 7.00", "new 6.50", "p5 6.00", "p6 5.00",
            "p7 4.00", "p8 3.00", "p9 2.00",
        ])
    );
}

#[test]
fn merge_full_board_with_lowest_score_changes_nothing() {
    let board = lines(&[
        "p1 10.00", "p2 9.00", "p3 8.00", "p4 7.00", "p5 6.00", "p6 5.00", "p7 4.00", "p8 3.00",
        "p9 2.00", "p10 1.00",
    ]);
    let merged = save_score(board.clone(), "late".to_string(), 50, 10);
    assert_eq!(merged, board);
}

#[test]
fn merge_tie_ranks_after_existing_equal_score() {
    let board = lines(&["a 5.00"]);
    let merged = save_score(board, "b".to_string(), 500, 10);
    assert_eq!(merged, lines(&["a 5.00", "b 5.00"]));
}

#[test]
fn merge_skips_trailing_empty_line() {
    let board = lines(&["alice 10.00", ""]);
    let merged = save_score(board, "bob".to_string(), 500, 10);
    assert_eq!(merged, lines(&["alice 10.00", "bob 5.00"]));
}

#[test]
fn merge_passes_over_malformed_lines() {
    let board = lines(&["alice 10.00", "not a score line!", "bob 5.00"]);
    let merged = save_score(board, "carol".to_string(), 700, 10);
    assert_eq!(merged, lines(&["alice 10.00", "carol 7.00", "bob 5.00"]));
}

#[test]
fn merge_scores_on_entries_directly() {
    let entries = vec![
        ScoreEntry { name: "a".to_string(), score: 300 },
        ScoreEntry { name: "b".to_string(), score: 100 },
    ];
    let merged = merge_scores(&entries, ScoreEntry { name: "c".to_string(), score: 200 }, 2);
    assert_eq!(merged.len(), 2);
    assert_eq!(merged[0].name, "a");
    assert_eq!(merged[0].score, 300);
    assert_eq!(merged[1].name, "c");
    assert_eq!(merged[1].score, 200);
}

#[test]
fn format_scoreboard_numbers_lines() {
    let board = lines(&["alice 10.00", "bob 5.00"]);
    assert_eq!(format_scoreboard(&board), "1) alice 10.00\n2) bob 5.00\n");
}

#[test]
fn format_scoreboard_empty_is_empty() {
    assert_eq!(format_scoreboard(&Vec::new()), "");
}
