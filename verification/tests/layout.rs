// Grouping, classification and flowed-text behaviour on concrete pages.

use textgrid::config::LayoutConfig;
use textgrid::token::{Line, Token};
use textgrid::group::group_tokens;
use textgrid::classify::{classify, classify_with_metrics, Classification};
use textgrid::flow::{flow_text, gap_breaks_exec};
use textgrid::page::flow_page_text;

fn tok(s: &str, h: i64, v: i64, w: i64, ht: i64) -> Token {
    Token::new(s.chars().collect(), h, v, w, ht).unwrap()
}

fn chars_to_string(v: &Vec<char>) -> String {
    v.iter().collect()
}

fn line_words(l: &Line) -> Vec<String> {
    l.tokens.iter().map(|t| t.content.iter().collect()).collect()
}

#[test]
fn single_row_groups_into_one_line() {
    // two words sharing a vertical band, listed out of horizontal order
    let cfg = LayoutConfig::standard();
    let tokens = vec![tok("CASH", 1898, 848, 293, 106), tok("CITY", 1608, 848, 264, 106)];
    let lines = group_tokens(&tokens, &cfg);
    assert_eq!(lines.len(), 1);
    assert_eq!(line_words(&lines[0]), vec!["CITY".to_string(), "CASH".to_string()]);
}

#[test]
fn scenario_title_row_flows_to_one_visual_line() {
    let cfg = LayoutConfig::standard();
    let tokens = vec![tok("CITY", 1608, 848, 264, 106), tok("CASH", 1898, 848, 293, 106)];
    let lines = group_tokens(&tokens, &cfg);
    assert_eq!(lines.len(), 1);
    assert_eq!(lines[0].tokens.len(), 2);
    let (text, _) = flow_page_text(&tokens, &cfg);
    assert_eq!(chars_to_string(&text), "CITY CASH");
}

#[test]
fn grouping_same_input_twice_is_identical() {
    let cfg = LayoutConfig::standard();
    let tokens = vec![
        tok("alpha", 100, 50, 300, 100),
        tok("beta", 500, 55, 300, 100),
        tok("gamma", 100, 260, 300, 100),
    ];
    let a = group_tokens(&tokens, &cfg);
    let b = group_tokens(&tokens, &cfg);
    assert_eq!(a.len(), b.len());
    for (la, lb) in a.iter().zip(b.iter()) {
        assert_eq!(line_words(la), line_words(lb));
        assert_eq!(la.avg_v_pos, lb.avg_v_pos);
        assert_eq!(la.is_table, lb.is_table);
    }
}

#[test]
fn lines_come_out_in_vertical_order() {
    let cfg = LayoutConfig::standard();
    let tokens = vec![
        tok("low", 0, 5000, 200, 100),
        tok("high", 0, 100, 200, 100),
        tok("middle", 0, 2500, 200, 100),
    ];
    let lines = group_tokens(&tokens, &cfg);
    assert_eq!(lines.len(), 3);
    assert_eq!(line_words(&lines[0]), vec!["high".to_string()]);
    assert_eq!(line_words(&lines[1]), vec!["middle".to_string()]);
    assert_eq!(line_words(&lines[2]), vec!["low".to_string()]);
    assert!(lines[0].avg_v_pos <= lines[1].avg_v_pos);
    assert!(lines[1].avg_v_pos <= lines[2].avg_v_pos);
}

#[test]
fn empty_token_store_yields_zero_lines_and_empty_text() {
    let cfg = LayoutConfig::standard();
    let tokens: Vec<Token> = Vec::new();
    let lines = group_tokens(&tokens, &cfg);
    assert_eq!(lines.len(), 0);
    let (text, verdict) = flow_page_text(&tokens, &cfg);
    assert_eq!(text.len(), 0);
    assert_eq!(verdict, Classification::Empty);
}

#[test]
fn empty_content_token_is_dropped_at_ingestion() {
    assert!(Token::new(Vec::new(), 0, 0, 0, 0).is_none());
    assert!(Token::new("\n\n".chars().collect(), 0, 0, 0, 0).is_none());
    assert!(Token::new("a".chars().collect(), 0, 0, 0, 0).is_some());
}

#[test]
fn ingestion_clamps_coordinates_onto_the_canvas() {
    let t = Token::new("w".chars().collect(), -5_000_000, 2_000_000, 10, 10).unwrap();
    assert_eq!(t.h_pos, -1_000_000);
    assert_eq!(t.v_pos, 1_000_000);
}

#[test]
fn classify_empty_block_is_empty() {
    let cfg = LayoutConfig::standard();
    let lines: Vec<Line> = Vec::new();
    assert_eq!(classify(&lines, &cfg), Classification::Empty);
}

#[test]
fn classification_is_one_of_the_four_categories() {
    let cfg = LayoutConfig::standard();
    let tokens = vec![tok("x", 0, 0, 100, 100)];
    let lines = group_tokens(&tokens, &cfg);
    let c = classify(&lines, &cfg);
    assert!(matches!(
        c,
        Classification::Table
            | Classification::Paragraph
            | Classification::Unknown
            | Classification::Empty
    ));
    assert_ne!(c, Classification::Empty);
}

#[test]
fn scenario_aligned_columns_with_big_gaps_classify_as_table() {
    // two rows whose tokens align into columns, with wide gaps between
    // right edges on every row
    let cfg = LayoutConfig::standard();
    let tokens = vec![
        tok("a1", 0, 0, 100, 100),
        tok("a2", 2000, 0, 100, 100),
        tok("b1", 0, 200, 100, 100),
        tok("b2", 2200, 200, 100, 100),
        tok("b3", 4400, 200, 100, 100),
    ];
    let lines = group_tokens(&tokens, &cfg);
    assert_eq!(lines.len(), 2);
    let (c, metrics) = classify_with_metrics(&lines, &cfg);
    assert!(metrics.column_bins >= 2);
    assert_eq!(metrics.big_gap_lines, 2);
    assert_eq!(c, Classification::Table);
}

#[test]
fn steady_margin_wide_lines_classify_as_paragraph() {
    // three lines flush at the same left margin, each wider than the
    // paragraph body threshold, aligned into one column
    let cfg = LayoutConfig::standard();
    let tokens = vec![
        tok("first", 100, 0, 3000, 100),
        tok("second", 100, 200, 3100, 100),
        tok("third", 100, 400, 3050, 100),
    ];
    let lines = group_tokens(&tokens, &cfg);
    assert_eq!(lines.len(), 3);
    assert_eq!(classify(&lines, &cfg), Classification::Paragraph);
}

#[test]
fn ragged_narrow_lines_classify_as_unknown() {
    let cfg = LayoutConfig::standard();
    let tokens = vec![tok("a", 0, 0, 100, 100), tok("b", 900, 200, 100, 100)];
    let lines = group_tokens(&tokens, &cfg);
    assert_eq!(classify(&lines, &cfg), Classification::Unknown);
}

#[test]
fn flow_inserts_breaks_by_vertical_gap() {
    // gaps between line averages: 20 tenths (same visual line), 220 (one
    // break), 800 (three breaks: 1 + 800/400)
    let cfg = LayoutConfig::standard();
    let tokens = vec![
        tok("a", 0, 110, 100, 100),
        tok("b", 0, 130, 100, 100),
        tok("c", 0, 350, 100, 100),
        tok("d", 0, 1150, 100, 100),
    ];
    let (text, _) = flow_page_text(&tokens, &cfg);
    assert_eq!(chars_to_string(&text), "a b\nc\n\n\nd");
}

#[test]
fn gap_break_counts_follow_the_thresholds() {
    let cfg = LayoutConfig::standard();
    assert_eq!(gap_breaks_exec(0, &cfg), 0);
    assert_eq!(gap_breaks_exec(120, &cfg), 0);
    assert_eq!(gap_breaks_exec(121, &cfg), 1);
    assert_eq!(gap_breaks_exec(400, &cfg), 1);
    assert_eq!(gap_breaks_exec(401, &cfg), 2);
    assert_eq!(gap_breaks_exec(1300, &cfg), 4);
    assert_eq!(gap_breaks_exec(1_000_000, &cfg), 5);
}

#[test]
fn gap_break_counts_never_shrink_as_gaps_widen() {
    let cfg = LayoutConfig::standard();
    let mut prev = 0;
    for gap in 0..3000u64 {
        let b = gap_breaks_exec(gap, &cfg);
        assert!(b >= prev);
        assert!(b <= cfg.max_breaks);
        prev = b;
    }
}

#[test]
fn table_line_spaces_tokens_by_coordinates() {
    // right edge of the first token at 160, next token at 800: the gap of
    // 640 tenths spans eight 80-tenth cells
    let cfg = LayoutConfig::standard();
    let line = Line {
        tokens: vec![tok("AB", 0, 0, 160, 100), tok("CD", 800, 0, 160, 100)],
        avg_v_pos: 0,
        is_table: true,
    };
    let text = flow_text(&vec![line], &cfg);
    assert_eq!(chars_to_string(&text), "AB        CD");
}

#[test]
fn plain_line_joins_tokens_with_single_spaces() {
    let cfg = LayoutConfig::standard();
    let line = Line {
        tokens: vec![tok("AB", 0, 0, 160, 100), tok("CD", 800, 0, 160, 100)],
        avg_v_pos: 0,
        is_table: false,
    };
    let text = flow_text(&vec![line], &cfg);
    assert_eq!(chars_to_string(&text), "AB CD");
}

#[test]
fn table_page_flows_with_column_spacing() {
    // the aligned-columns page again, end to end: classified as a table,
    // every line spaced by coordinates, fillers capped at twenty cells
    let cfg = LayoutConfig::standard();
    let tokens = vec![
        tok("a1", 0, 0, 100, 100),
        tok("a2", 2000, 0, 100, 100),
        tok("b1", 0, 200, 100, 100),
        tok("b2", 2200, 200, 100, 100),
        tok("b3", 4400, 200, 100, 100),
    ];
    let (text, verdict) = flow_page_text(&tokens, &cfg);
    assert_eq!(verdict, Classification::Table);
    let wide_gap = " ".repeat(20);
    let expected = format!("a1{g}a2\nb1{g}b2{g}b3", g = wide_gap);
    assert_eq!(chars_to_string(&text), expected);
}
