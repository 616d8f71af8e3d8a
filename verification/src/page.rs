//! The whole-page pipeline: tokens to grid, tokens to flowed text.
//!
//! These functions chain the components in the order the data flows:
//! grouping into lines, classification, then either quantization onto a
//! fresh grid or flowed-text rendering.

use vstd::prelude::*;
use crate::config::COORD_MAX;
use crate::config::TOKEN_MAX;
use crate::config::LayoutConfig;
use crate::token::Token;
use crate::token::LineModel;
use crate::token::token_models;
use crate::token::line_models;
use crate::token::line_wf;
use crate::token::token_wf;
use crate::token::clamp0;
use crate::token::sum_clamped_v;
use crate::token::TokenModel;
use crate::group::group_tokens;
use crate::group::group_spec;
use crate::group::grouped_wf;
use crate::group::line_key;
use crate::group::bucket_of;
use crate::group::line_uniform;
use crate::classify::Block;
use crate::classify::Classification;
use crate::classify::classify_spec;
use crate::grid::Grid;
use crate::grid::grid_for_tokens;
use crate::grid::grid_cols_spec;
use crate::grid::grid_rows_spec;
use crate::grid::place_lines_spec;
use crate::flow::flow_spec;
use crate::flow::flow_text;

verus! {

/// An entirely blank buffer of the given size.
pub open spec fn blank_cells_spec(gw: int, gh: int) -> Seq<Seq<char>> {
    Seq::new(gh as nat, |r: int| Seq::new(gw as nat, |c: int| ' '))
}

/// The lines with every table flag set to the block's verdict.
pub open spec fn marked_lines_spec(lines: Seq<LineModel>, table: bool) -> Seq<LineModel> {
    lines.map_values(
        |l: LineModel|
            LineModel { tokens: l.tokens, avg_v_pos: l.avg_v_pos, is_table: table },
    )
}

/// Clamped positions within a band bound their sum on both sides.
proof fn lemma_sum_clamped_in_band(toks: Seq<TokenModel>, lo: int, hi: int)
    requires
        forall|i: int| 0 <= i < toks.len() ==> lo <= clamp0((#[trigger] toks[i]).v_pos) <= hi,
    ensures
        toks.len() * lo <= sum_clamped_v(toks) <= toks.len() * hi,
    decreases toks.len(),
{
    if toks.len() == 0 {
    } else {
        let pre = toks.drop_last();
        assert(forall|i: int| 0 <= i < pre.len() ==> #[trigger] pre[i] == toks[i]);
        lemma_sum_clamped_in_band(pre, lo, hi);
        assert(lo <= clamp0(toks.last().v_pos) <= hi) by {
            assert(toks[toks.len() - 1] == toks.last());
        }
        assert((toks.len() - 1) * lo + lo == toks.len() * lo) by (nonlinear_arith);
        assert((toks.len() - 1) * hi + hi == toks.len() * hi) by (nonlinear_arith);
    }
}

/// A line's average vertical position sits inside its bucket's band.
proof fn lemma_line_avg_in_bucket(l: LineModel, bh: int)
    requires
        line_wf(l),
        line_uniform(l, bh),
        bh >= 1,
    ensures
        line_key(l, bh) * bh <= l.avg_v_pos < (line_key(l, bh) + 1) * bh,
{
    let k = line_key(l, bh);
    assert forall|i: int| 0 <= i < l.tokens.len() implies k * bh <= clamp0(
        (#[trigger] l.tokens[i]).v_pos,
    ) <= (k + 1) * bh - 1 by {
        let v = clamp0(l.tokens[i].v_pos);
        assert(bucket_of(l.tokens[i], bh) == k);
        assert(v / bh == k);
        vstd::arithmetic::div_mod::lemma_fundamental_div_mod(v, bh);
        assert(v == bh * (v / bh) + v % bh);
        assert(0 <= v % bh < bh);
        assert(bh * k == k * bh) by (nonlinear_arith);
        assert(k * bh + bh == (k + 1) * bh) by (nonlinear_arith);
    }
    lemma_sum_clamped_in_band(l.tokens, k * bh, (k + 1) * bh - 1);
    let n = l.tokens.len() as int;
    let s = sum_clamped_v(l.tokens);
    vstd::arithmetic::div_mod::lemma_div_is_ordered(n * (k * bh), s, n);
    vstd::arithmetic::div_mod::lemma_div_is_ordered(s, n * ((k + 1) * bh - 1), n);
    assert(n * (k * bh) / n == k * bh) by (nonlinear_arith)
        requires
            n >= 1,
    ;
    assert(n * ((k + 1) * bh - 1) / n == (k + 1) * bh - 1) by (nonlinear_arith)
        requires
            n >= 1,
    ;
}

/// Grouped lines come out ordered by average vertical position, each
/// average on the canvas.
pub proof fn lemma_grouped_avgs_ascending(lines: Seq<LineModel>, bh: int)
    requires
        grouped_wf(lines, bh),
        bh >= 1,
    ensures
        forall|i: int|
            0 <= i < lines.len() - 1 ==> (#[trigger] lines[i]).avg_v_pos <= lines[i
                + 1].avg_v_pos,
        forall|i: int| 0 <= i < lines.len() ==> 0 <= (#[trigger] lines[i]).avg_v_pos <= COORD_MAX,
{
    assert forall|i: int| 0 <= i < lines.len() implies 0 <= (#[trigger] lines[i]).avg_v_pos
        <= COORD_MAX by {
        crate::token::lemma_line_avg_bounds(lines[i]);
    }
    assert forall|i: int| 0 <= i < lines.len() - 1 implies (#[trigger] lines[i]).avg_v_pos
        <= lines[i + 1].avg_v_pos by {
        let k1 = line_key(lines[i], bh);
        let k2 = line_key(lines[i + 1], bh);
        assert(k1 < k2);
        lemma_line_avg_in_bucket(lines[i], bh);
        lemma_line_avg_in_bucket(lines[i + 1], bh);
        assert((k1 + 1) * bh <= k2 * bh) by (nonlinear_arith)
            requires
                k1 + 1 <= k2,
                bh >= 1,
        ;
    }
}

/// Group the tokens, size a grid to hold them, and quantize them onto it.
/// Returns the grid and the count of dropped characters.
pub fn render_page_grid(tokens: &Vec<Token>, cfg: &LayoutConfig) -> (r: (Grid, u64))
    requires
        cfg.wf(),
        tokens@.len() <= TOKEN_MAX,
        forall|i: int| 0 <= i < tokens@.len() ==> token_wf((#[trigger] tokens@[i])@),
    ensures
        r.0.wf(),
        r.0.width as int == grid_cols_spec(token_models(tokens@), *cfg),
        r.0.height as int == grid_rows_spec(token_models(tokens@), *cfg),
        r.0.char_width == cfg.char_width,
        r.0.line_height == cfg.line_height,
        ({
            let lines = group_spec(token_models(tokens@), cfg.line_bucket_height as int);
            let ls = place_lines_spec(
                blank_cells_spec(r.0.width as int, r.0.height as int),
                0,
                lines,
                cfg.char_width as int,
                cfg.line_height as int,
                r.0.width as int,
                r.0.height as int,
            );
            &&& r.0.cells_model() == ls.cells
            &&& r.1 as int == ls.dropped
        }),
{
    let lines = group_tokens(tokens, cfg);
    let mut g = grid_for_tokens(tokens, cfg);
    proof {
        let lm = line_models(lines@);
        assert(forall|i: int| 0 <= i < lm.len() ==> #[trigger] lm[i] == lines@[i]@);
        assert forall|i: int| 0 <= i < lines@.len() implies line_wf((#[trigger] lines@[i])@) by {
            assert(lm[i] == lines@[i]@);
            assert(line_wf(lm[i]));
        }
        assert(g.cells_model() =~= blank_cells_spec(g.width as int, g.height as int)) by {
            assert(forall|r: int|
                0 <= r < g.height ==> (#[trigger] g.cells_model()[r]) =~= blank_cells_spec(
                    g.width as int,
                    g.height as int,
                )[r]);
        }
    }
    let dropped = g.place_lines(&lines);
    (g, dropped)
}

/// Group and classify the tokens and render their flowed linear text.
/// Returns the text and the block's classification.
pub fn flow_page_text(tokens: &Vec<Token>, cfg: &LayoutConfig) -> (r: (Vec<char>, Classification))
    requires
        cfg.wf(),
        tokens@.len() <= TOKEN_MAX,
        forall|i: int| 0 <= i < tokens@.len() ==> token_wf((#[trigger] tokens@[i])@),
    ensures
        ({
            let lines = group_spec(token_models(tokens@), cfg.line_bucket_height as int);
            let verdict = classify_spec(lines, *cfg);
            &&& r.1 == verdict
            &&& r.0@ == flow_spec(marked_lines_spec(lines, verdict is Table), *cfg)
        }),
{
    let lines = group_tokens(tokens, cfg);
    let ghost lm = line_models(lines@);
    proof {
        assert(forall|i: int| 0 <= i < lm.len() ==> #[trigger] lm[i] == lines@[i]@);
        crate::group::lemma_total_at_least_len(lm, cfg.line_bucket_height as int);
        lemma_grouped_avgs_ascending(lm, cfg.line_bucket_height as int);
        assert forall|i: int| 0 <= i < lines@.len() implies line_wf((#[trigger] lines@[i])@) by {
            assert(lm[i] == lines@[i]@);
            assert(line_wf(lm[i]));
        }
    }
    let block = Block::new(lines, cfg);
    proof {
        let bm = line_models(block.lines@);
        assert(forall|i: int| 0 <= i < bm.len() ==> #[trigger] bm[i] == block.lines@[i]@);
        assert(bm =~= marked_lines_spec(lm, block.classification is Table));
        assert(forall|i: int| 0 <= i < bm.len() ==> line_wf(#[trigger] bm[i])) by {
            assert(forall|i: int| 0 <= i < lm.len() ==> line_wf(#[trigger] lm[i]));
        }
        assert forall|i: int| 0 <= i < block.lines@.len() implies line_wf(
            (#[trigger] block.lines@[i])@,
        ) by {
            assert(bm[i] == block.lines@[i]@);
            assert(line_wf(bm[i]));
        }
        assert forall|i: int| 0 <= i < block.lines@.len() - 1 implies (
        #[trigger] block.lines@[i])@.avg_v_pos <= block.lines@[i + 1]@.avg_v_pos by {
            assert(bm[i] == block.lines@[i]@);
            assert(bm[i + 1] == block.lines@[i + 1]@);
            assert(lm[i].avg_v_pos <= lm[i + 1].avg_v_pos);
        }
        assert forall|i: int| 0 <= i < block.lines@.len() implies 0 <= (
        #[trigger] block.lines@[i])@.avg_v_pos <= COORD_MAX by {
            assert(bm[i] == block.lines@[i]@);
            assert(0 <= lm[i].avg_v_pos <= COORD_MAX);
        }
    }
    let text = flow_text(&block.lines, cfg);
    (text, block.classification)
}

} // verus!
