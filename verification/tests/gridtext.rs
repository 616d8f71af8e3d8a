// Grid quantization, the grid/text bridge and change detection on
// concrete pages.

use textgrid::config::LayoutConfig;
use textgrid::token::Token;
use textgrid::group::group_tokens;
use textgrid::grid::{quant_cell_exec, Grid};
use textgrid::page::render_page_grid;
use textgrid::fingerprint::{fingerprint, ChangeDetector};
use textgrid::widths::display_cols;

fn tok(s: &str, h: i64, v: i64, w: i64, ht: i64) -> Token {
    Token::new(s.chars().collect(), h, v, w, ht).unwrap()
}

fn chars_to_string(v: &Vec<char>) -> String {
    v.iter().collect()
}

fn chars(s: &str) -> Vec<char> {
    s.chars().collect()
}

#[test]
fn quantization_clamps_every_coordinate_onto_the_grid() {
    assert_eq!(quant_cell_exec(-500, 80, 140), 0);
    assert_eq!(quant_cell_exec(0, 80, 140), 0);
    assert_eq!(quant_cell_exec(160, 80, 140), 2);
    assert_eq!(quant_cell_exec(9_000_000_000, 80, 140), 139);
    assert_eq!(quant_cell_exec(i64::MIN, 80, 140), 0);
    assert_eq!(quant_cell_exec(i64::MAX, 80, 140), 139);
}

#[test]
fn scenario_far_off_token_lands_on_the_last_column() {
    // h_pos far beyond grid_width * char_width: placed at the last
    // column, never out of bounds
    let cfg = LayoutConfig::standard();
    let mut g = Grid::new(140, 60, 80, 120);
    let tokens = vec![tok("X", 500_000, 0, 80, 100)];
    let lines = group_tokens(&tokens, &cfg);
    let dropped = g.place_lines(&lines);
    assert_eq!(g.cells[0][139], 'X');
    assert_eq!(dropped, 0);
}

#[test]
fn placement_keeps_one_space_between_colliding_tokens() {
    let cfg = LayoutConfig::standard();
    let mut g = Grid::new(140, 60, 80, 120);
    let tokens = vec![tok("AB", 0, 0, 100, 100), tok("CD", 0, 0, 100, 100)];
    let lines = group_tokens(&tokens, &cfg);
    g.place_lines(&lines);
    let row: String = g.cells[0].iter().collect::<String>().trim_end().to_string();
    assert_eq!(row, "AB CD");
}

#[test]
fn first_writer_keeps_its_cell() {
    // the second line's token quantizes onto the same cell as the
    // first line's: the earlier character survives
    let cfg = LayoutConfig::standard();
    let mut g = Grid::new(140, 60, 80, 120);
    let first = group_tokens(&vec![tok("A", 0, 0, 80, 100)], &cfg);
    let second = group_tokens(&vec![tok("B", 0, 0, 80, 100)], &cfg);
    g.place_lines(&first);
    g.place_lines(&second);
    assert_eq!(g.cells[0][0], 'A');
}

#[test]
fn wide_characters_occupy_two_columns() {
    // the glyph takes its cell, leaves the continuation marker in the
    // next column, and the following character lands after both
    let cfg = LayoutConfig::standard();
    let mut g = Grid::new(140, 60, 80, 120);
    let tokens = vec![tok("中A", 0, 0, 160, 100)];
    let lines = group_tokens(&tokens, &cfg);
    g.place_lines(&lines);
    assert_eq!(g.cells[0][0], '中');
    assert_eq!(g.cells[0][1], '\u{200b}');
    assert_eq!(g.cells[0][2], 'A');
}

#[test]
fn continuation_column_of_a_wide_glyph_stays_occupied() {
    // a later placement quantized onto the wide glyph's second column
    // finds the continuation marker and writes nothing
    let cfg = LayoutConfig::standard();
    let mut g = Grid::new(140, 60, 80, 120);
    let wide = group_tokens(&vec![tok("中", 0, 0, 160, 100)], &cfg);
    g.place_lines(&wide);
    let intruder = group_tokens(&vec![tok("B", 80, 0, 80, 100)], &cfg);
    g.place_lines(&intruder);
    assert_eq!(g.cells[0][0], '中');
    assert_eq!(g.cells[0][1], '\u{200b}');
    assert_eq!(g.cells[0][2], ' ');
}

#[test]
fn display_width_of_common_characters() {
    assert_eq!(display_cols('A'), Some(1));
    assert_eq!(display_cols(' '), Some(1));
    assert_eq!(display_cols('中'), Some(2));
    assert_eq!(display_cols('\t'), None);
}

#[test]
fn page_grid_renders_rows_at_quantized_positions() {
    let cfg = LayoutConfig::standard();
    let tokens = vec![
        tok("TOP", 0, 0, 240, 100),
        tok("SIDE", 800, 0, 320, 100),
        tok("DOWN", 0, 240, 320, 100),
    ];
    let (g, dropped) = render_page_grid(&tokens, &cfg);
    assert_eq!(dropped, 0);
    assert_eq!(g.width, 140);
    assert_eq!(g.height, 60);
    let text = chars_to_string(&g.to_text());
    let lines: Vec<&str> = text.lines().collect();
    assert_eq!(lines[0], "TOP       SIDE");
    assert_eq!(lines[1], "");
    assert_eq!(lines[2], "DOWN");
}

#[test]
fn to_text_trims_trailing_spaces_and_outer_blank_rows() {
    let mut g = Grid::new(10, 6, 80, 120);
    g.from_text(&chars("HELLO\n  WORLD  \n\nX"));
    assert_eq!(chars_to_string(&g.to_text()), "HELLO\n  WORLD\n\nX");
}

#[test]
fn round_trip_preserves_visible_content() {
    let mut g = Grid::new(12, 5, 80, 120);
    g.from_text(&chars("AB  CD\n\n  E"));
    let once = g.to_text();
    g.from_text(&once);
    let twice = g.to_text();
    assert_eq!(chars_to_string(&once), chars_to_string(&twice));
    assert_eq!(chars_to_string(&twice), "AB  CD\n\n  E");
}

#[test]
fn from_text_drops_characters_beyond_the_grid() {
    let mut g = Grid::new(3, 2, 80, 120);
    g.from_text(&chars("ABCDEF\nGH\nIJ"));
    assert_eq!(chars_to_string(&g.to_text()), "ABC\nGH");
}

#[test]
fn scenario_empty_text_blanks_the_whole_grid() {
    let cfg = LayoutConfig::standard();
    let tokens = vec![tok("FULL", 0, 0, 320, 100)];
    let (mut g, _) = render_page_grid(&tokens, &cfg);
    assert!(!g.to_text().is_empty());
    g.from_text(&Vec::new());
    for r in 0..g.height {
        for c in 0..g.width {
            assert_eq!(g.cells[r][c], ' ');
        }
    }
    assert_eq!(g.to_text().len(), 0);
}

#[test]
fn viewport_copies_a_window() {
    let mut g = Grid::new(10, 4, 80, 120);
    g.from_text(&chars("ABCDE\nFGHIJ"));
    let v = g.viewport_text(1, 0, 3, 2);
    assert_eq!(chars_to_string(&v), "BCD\nGHI");
}

#[test]
fn viewport_is_blank_beyond_any_offset() {
    let mut g = Grid::new(10, 4, 80, 120);
    g.from_text(&chars("ABCDE"));
    let below = g.viewport_text(0, 1_000_000_000, 4, 3);
    assert_eq!(chars_to_string(&below), "\n\n");
    let right = g.viewport_text(1_000_000_000, 0, 4, 2);
    assert_eq!(chars_to_string(&right), "\n");
    let partial = g.viewport_text(3, 0, 5, 1);
    assert_eq!(chars_to_string(&partial), "DE");
}

#[test]
fn fingerprint_matches_the_reference_values() {
    assert_eq!(fingerprint(&Vec::new()), 0xcbf29ce484222325);
    assert_eq!(fingerprint(&chars("a")), 0xaf63dc4c8601ec8c);
}

#[test]
fn fingerprint_is_deterministic_and_order_sensitive() {
    let t1 = chars("stable text");
    let t2 = chars("stable text");
    assert_eq!(fingerprint(&t1), fingerprint(&t2));
    assert_ne!(fingerprint(&chars("ab")), fingerprint(&chars("ba")));
    assert_ne!(fingerprint(&chars("ab")), fingerprint(&chars("abc")));
}

#[test]
fn change_detector_gates_on_fingerprint_movement() {
    let mut d = ChangeDetector::new();
    assert!(d.refresh(&chars("first")));
    assert!(!d.refresh(&chars("first")));
    assert!(d.refresh(&chars("second")));
    assert!(!d.refresh(&chars("second")));
}

#[test]
fn rebuild_grows_the_grid_and_never_shrinks_it() {
    let cfg = LayoutConfig::standard();
    // wide content forces a grid beyond the floor
    let wide = vec![tok("EDGE", 80_000, 0, 320, 100)];
    let (g1, _) = render_page_grid(&wide, &cfg);
    assert!(g1.width > 140);
    // a rebuild for far smaller content keeps the earlier dimensions
    let small = vec![tok("dot", 0, 0, 240, 100)];
    let g2 = textgrid::grid::grid_for_rebuild(&small, &cfg, &g1);
    assert_eq!(g2.width, g1.width);
    assert_eq!(g2.height, g1.height);
    // a rebuild for taller content grows
    let tall = vec![tok("deep", 0, 90_000, 240, 100)];
    let g3 = textgrid::grid::grid_for_rebuild(&tall, &cfg, &g1);
    assert_eq!(g3.width, g1.width);
    assert!(g3.height > g1.height);
}
