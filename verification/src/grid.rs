//! The character grid and the quantizer that fills it.
//!
//! A grid is a fixed-size rectangular buffer of characters approximating
//! the visual layout. Source coordinates map to cells by division with the
//! grid's scale factors, clamped onto the grid, so no coordinate — however
//! far off the canvas — ever reaches outside the buffer. Placement walks a
//! line's tokens left to right: each token starts at its quantized column,
//! at least one space after its predecessor; a run that would pass the
//! right edge wraps to the next row at the line's starting column; a cell
//! already holding a character is never overwritten (first writer wins);
//! a character spanning several display columns leaves a zero-width
//! continuation marker in the extra columns it covers, so nothing lands
//! inside the glyph; what cannot be placed inside the grid is dropped and
//! counted.

use vstd::prelude::*;
use crate::config::COORD_MAX;
use crate::config::GRID_DIM_MAX;
use crate::config::LayoutConfig;
use crate::token::Token;
use crate::token::TokenModel;
use crate::token::Line;
use crate::token::LineModel;
use crate::token::clamp0;
use crate::token::clamp0_exec;
use crate::token::line_wf;
use crate::token::line_models;
use crate::token::token_models;
use crate::token::token_wf;
use crate::config::CONTENT_MAX;
use crate::config::TOKEN_MAX;
use crate::group::total_line_tokens;
use crate::group::lemma_line_len_le_total;
use crate::widths::advance_of;
use crate::widths::cursor_advance;

verus! {

/// A rectangular character buffer free of line breaks.
pub open spec fn cells_wf(cells: Seq<Seq<char>>, gw: int, gh: int) -> bool {
    &&& cells.len() == gh
    &&& forall|r: int| 0 <= r < cells.len() ==> (#[trigger] cells[r]).len() == gw
    &&& forall|r: int, c: int|
        0 <= r < cells.len() && 0 <= c < cells[r].len() ==> (#[trigger] cells[r][c]) != '\n'
}

/// The fixed-resolution character buffer for one page, with the scale
/// factors that map source coordinates onto it.
pub struct Grid {
    pub cells: Vec<Vec<char>>,
    pub width: usize,
    pub height: usize,
    pub char_width: u64,
    pub line_height: u64,
}

/// The rows of a character buffer as sequences.
pub open spec fn rows_model(s: Seq<Vec<char>>) -> Seq<Seq<char>> {
    s.map_values(|r: Vec<char>| r@)
}

impl Grid {
    /// The rows of the grid as character sequences.
    pub open spec fn cells_model(&self) -> Seq<Seq<char>> {
        rows_model(self.cells@)
    }

    /// A well-formed grid: a rectangular buffer of positive bounded
    /// dimensions, positive bounded scale factors, and no line break in
    /// any cell.
    pub open spec fn wf(&self) -> bool {
        &&& cells_wf(self.cells_model(), self.width as int, self.height as int)
        &&& 1 <= self.width <= GRID_DIM_MAX
        &&& 1 <= self.height <= GRID_DIM_MAX
        &&& 1 <= self.char_width <= COORD_MAX
        &&& 1 <= self.line_height <= COORD_MAX
    }

    /// A fresh grid of the given size, entirely blank.
    pub fn new(width: usize, height: usize, char_width: u64, line_height: u64) -> (g: Grid)
        requires
            1 <= width <= GRID_DIM_MAX,
            1 <= height <= GRID_DIM_MAX,
            1 <= char_width <= COORD_MAX,
            1 <= line_height <= COORD_MAX,
        ensures
            g.wf(),
            g.width == width,
            g.height == height,
            g.char_width == char_width,
            g.line_height == line_height,
            forall|r: int, c: int|
                0 <= r < height && 0 <= c < width ==> g.cells_model()[r][c] == ' ',
    {
        let cells = blank_cells(width, height);
        Grid { cells, width, height, char_width, line_height }
    }
}

/// A blank rectangular buffer.
pub fn blank_cells(width: usize, height: usize) -> (cells: Vec<Vec<char>>)
    ensures
        cells@.len() == height,
        forall|r: int| 0 <= r < height ==> (#[trigger] cells@[r])@.len() == width,
        forall|r: int, c: int|
            0 <= r < height && 0 <= c < width ==> (#[trigger] cells@[r]@[c]) == ' ',
{
    let mut row: Vec<char> = Vec::new();
    let mut c: usize = 0;
    while c < width
        invariant
            c <= width,
            row@.len() == c,
            forall|j: int| 0 <= j < c ==> row@[j] == ' ',
        decreases width - c,
    {
        row.push(' ');
        c += 1;
    }
    let mut cells: Vec<Vec<char>> = Vec::new();
    let mut r: usize = 0;
    while r < height
        invariant
            r <= height,
            cells@.len() == r,
            row@.len() == width,
            forall|j: int| 0 <= j < width ==> row@[j] == ' ',
            forall|i: int| 0 <= i < r ==> (#[trigger] cells@[i])@.len() == width,
            forall|i: int, j: int|
                0 <= i < r && 0 <= j < width ==> (#[trigger] cells@[i]@[j]) == ' ',
        decreases height - r,
    {
        let copy = copy_chars(&row);
        cells.push(copy);
        r += 1;
    }
    cells
}

/// A copy of a character row.
fn copy_chars(v: &Vec<char>) -> (r: Vec<char>)
    ensures
        r@ == v@,
{
    let mut out: Vec<char> = Vec::new();
    let mut i: usize = 0;
    while i < v.len()
        invariant
            i <= v@.len(),
            out@ == v@.take(i as int),
        decreases v@.len() - i,
    {
        out.push(v[i]);
        proof {
            assert(out@ =~= v@.take(i + 1));
        }
        i += 1;
    }
    proof {
        assert(v@.take(v@.len() as int) =~= v@);
    }
    out
}

/// The grid cell a source coordinate falls into: division by the scale,
/// clamped onto `[0, limit - 1]`.
pub open spec fn quant_cell(coord: int, scale: int, limit: int) -> int {
    let q = clamp0(coord) / scale;
    if q > limit - 1 {
        limit - 1
    } else {
        q
    }
}

/// Law: quantization is bounds-safe — every coordinate, however far
/// off the canvas or below zero, lands inside `[0, limit)`.
pub proof fn lemma_quantized_cell_in_bounds(coord: int, scale: int, limit: int)
    requires
        scale >= 1,
        limit >= 1,
    ensures
        0 <= quant_cell(coord, scale, limit) < limit,
{
    let v = clamp0(coord);
    assert(v >= 0);
    assert(v / scale >= 0) by (nonlinear_arith)
        requires
            v >= 0 && scale >= 1,
    ;
}

/// The grid cell a source coordinate falls into.
pub fn quant_cell_exec(coord: i64, scale: u64, limit: usize) -> (cell: usize)
    requires
        scale >= 1,
        limit >= 1,
    ensures
        cell as int == quant_cell(coord as int, scale as int, limit as int),
        cell < limit,
{
    proof {
        lemma_quantized_cell_in_bounds(coord as int, scale as int, limit as int);
    }
    let v = clamp0_exec(coord);
    let q = (v as u64) / scale;
    if q > (limit - 1) as u64 {
        limit - 1
    } else {
        q as usize
    }
}

/// The farthest clamped right edge over the tokens, or zero for none.
pub open spec fn max_right_edge(s: Seq<TokenModel>) -> int
    decreases s.len(),
{
    if s.len() == 0 {
        0
    } else {
        let m = max_right_edge(s.drop_last());
        let e = clamp0(s.last().h_pos + s.last().width);
        if e > m {
            e
        } else {
            m
        }
    }
}

/// The farthest clamped bottom edge over the tokens, or zero for none.
pub open spec fn max_bottom_edge(s: Seq<TokenModel>) -> int
    decreases s.len(),
{
    if s.len() == 0 {
        0
    } else {
        let m = max_bottom_edge(s.drop_last());
        let e = clamp0(s.last().v_pos + s.last().height);
        if e > m {
            e
        } else {
            m
        }
    }
}

/// Clamped edges stay on the canvas.
pub proof fn lemma_edge_bounds(s: Seq<TokenModel>)
    requires
        forall|i: int| 0 <= i < s.len() ==> token_wf(#[trigger] s[i]),
    ensures
        0 <= max_right_edge(s) <= 2 * COORD_MAX,
        0 <= max_bottom_edge(s) <= 2 * COORD_MAX,
    decreases s.len(),
{
    if s.len() > 0 {
        let pre = s.drop_last();
        assert(forall|i: int| 0 <= i < pre.len() ==> #[trigger] pre[i] == s[i]);
        lemma_edge_bounds(pre);
        assert(token_wf(s.last()));
    }
}

/// The number of columns a grid sized for these tokens has: enough for the
/// farthest right edge, plus padding, at least the configured floor.
pub open spec fn grid_cols_spec(tokens: Seq<TokenModel>, cfg: LayoutConfig) -> int {
    let need = max_right_edge(tokens) / (cfg.char_width as int) + cfg.grid_pad_cols;
    if need > cfg.grid_min_cols {
        need
    } else {
        cfg.grid_min_cols as int
    }
}

/// The number of rows a grid sized for these tokens has.
pub open spec fn grid_rows_spec(tokens: Seq<TokenModel>, cfg: LayoutConfig) -> int {
    let need = max_bottom_edge(tokens) / (cfg.line_height as int) + cfg.grid_pad_rows;
    if need > cfg.grid_min_rows {
        need
    } else {
        cfg.grid_min_rows as int
    }
}

/// The dimensions a grid sized for these tokens has: enough for the
/// farthest edges plus padding, never below the configured floor.
pub fn grid_dims_for(tokens: &Vec<Token>, cfg: &LayoutConfig) -> (dims: (usize, usize))
    requires
        cfg.wf(),
        forall|i: int| 0 <= i < tokens@.len() ==> token_wf((#[trigger] tokens@[i])@),
    ensures
        dims.0 as int == grid_cols_spec(token_models(tokens@), *cfg),
        dims.1 as int == grid_rows_spec(token_models(tokens@), *cfg),
        1 <= dims.0 <= GRID_DIM_MAX,
        1 <= dims.1 <= GRID_DIM_MAX,
{
    let ghost m = token_models(tokens@);
    proof {
        assert(forall|i: int| 0 <= i < m.len() ==> #[trigger] m[i] == tokens@[i]@);
    }
    let n = tokens.len();
    let mut right: u64 = 0;
    let mut bottom: u64 = 0;
    let mut i: usize = 0;
    while i < n
        invariant
            i <= n,
            n == tokens@.len(),
            m == token_models(tokens@),
            forall|j: int| 0 <= j < m.len() ==> token_wf(#[trigger] m[j]),
            right as int == max_right_edge(m.take(i as int)),
            bottom as int == max_bottom_edge(m.take(i as int)),
            right <= 2 * COORD_MAX,
            bottom <= 2 * COORD_MAX,
        decreases n - i,
    {
        proof {
            assert(token_wf(m[i as int]));
            assert(m[i as int] == tokens@[i as int]@);
            assert(m.take(i + 1).drop_last() =~= m.take(i as int));
            assert(m.take(i + 1).last() == m[i as int]);
        }
        let e = clamp0_exec(tokens[i].h_pos + tokens[i].width) as u64;
        if e > right {
            right = e;
        }
        let b = clamp0_exec(tokens[i].v_pos + tokens[i].height) as u64;
        if b > bottom {
            bottom = b;
        }
        i += 1;
    }
    proof {
        assert(m.take(n as int) =~= m);
    }
    let need_cols = (right / cfg.char_width) as usize + cfg.grid_pad_cols;
    let need_rows = (bottom / cfg.line_height) as usize + cfg.grid_pad_rows;
    proof {
        assert(right as int / (cfg.char_width as int) <= 2 * COORD_MAX) by (nonlinear_arith)
            requires
                0 <= right as int <= 2 * COORD_MAX,
                cfg.char_width as int >= 1,
        ;
        assert(bottom as int / (cfg.line_height as int) <= 2 * COORD_MAX) by (nonlinear_arith)
            requires
                0 <= bottom as int <= 2 * COORD_MAX,
                cfg.line_height as int >= 1,
        ;
    }
    let width = if need_cols > cfg.grid_min_cols {
        need_cols
    } else {
        cfg.grid_min_cols
    };
    let height = if need_rows > cfg.grid_min_rows {
        need_rows
    } else {
        cfg.grid_min_rows
    };
    (width, height)
}

/// Size a fresh blank grid to fit every token plus padding, never below
/// the configured floor.
pub fn grid_for_tokens(tokens: &Vec<Token>, cfg: &LayoutConfig) -> (g: Grid)
    requires
        cfg.wf(),
        forall|i: int| 0 <= i < tokens@.len() ==> token_wf((#[trigger] tokens@[i])@),
    ensures
        g.wf(),
        g.width as int == grid_cols_spec(token_models(tokens@), *cfg),
        g.height as int == grid_rows_spec(token_models(tokens@), *cfg),
        g.char_width == cfg.char_width,
        g.line_height == cfg.line_height,
        forall|r: int, c: int|
            0 <= r < g.height && 0 <= c < g.width ==> g.cells_model()[r][c] == ' ',
{
    let (width, height) = grid_dims_for(tokens, cfg);
    Grid::new(width, height, cfg.char_width, cfg.line_height)
}

/// Size a fresh blank grid for a rebuild: it fits the tokens as a fresh
/// grid would, and it never shrinks below the dimensions the previous
/// grid had.
pub fn grid_for_rebuild(tokens: &Vec<Token>, cfg: &LayoutConfig, prev: &Grid) -> (g: Grid)
    requires
        cfg.wf(),
        prev.wf(),
        forall|i: int| 0 <= i < tokens@.len() ==> token_wf((#[trigger] tokens@[i])@),
    ensures
        g.wf(),
        g.width as int == if grid_cols_spec(token_models(tokens@), *cfg) > prev.width as int {
            grid_cols_spec(token_models(tokens@), *cfg)
        } else {
            prev.width as int
        },
        g.height as int == if grid_rows_spec(token_models(tokens@), *cfg) > prev.height as int {
            grid_rows_spec(token_models(tokens@), *cfg)
        } else {
            prev.height as int
        },
        g.width >= prev.width,
        g.height >= prev.height,
        g.char_width == cfg.char_width,
        g.line_height == cfg.line_height,
        forall|r: int, c: int|
            0 <= r < g.height && 0 <= c < g.width ==> g.cells_model()[r][c] == ' ',
{
    let (need_w, need_h) = grid_dims_for(tokens, cfg);
    let width = if need_w > prev.width {
        need_w
    } else {
        prev.width
    };
    let height = if need_h > prev.height {
        need_h
    } else {
        prev.height
    };
    Grid::new(width, height, cfg.char_width, cfg.line_height)
}


/// Ghost state of a character run being placed: the buffer, the cursor
/// cell, and the count of characters dropped so far.
pub struct PlaceState {
    pub cells: Seq<Seq<char>>,
    pub row: int,
    pub col: int,
    pub dropped: int,
}

/// Ghost state of a line being placed: the buffer, the column after the
/// last placed character, and the drop count.
pub struct LineState {
    pub cells: Seq<Seq<char>>,
    pub cursor: int,
    pub dropped: int,
}

/// One character written into the buffer — only onto a blank cell inside
/// bounds; anything else leaves the buffer unchanged.
pub open spec fn write_cell(cells: Seq<Seq<char>>, r: int, c: int, ch: char) -> Seq<Seq<char>> {
    if 0 <= r < cells.len() && 0 <= c < cells[r].len() && cells[r][c] == ' ' {
        cells.update(r, cells[r].update(c, ch))
    } else {
        cells
    }
}

/// The marker a multi-column character leaves in the continuation cells
/// its glyph spans: a zero-width space, so the rendered row keeps its
/// visual width and no later character lands inside the glyph.
pub const CONTINUATION_MARK: char = '\u{200b}';

/// The continuation marker written into one cell — unconditionally,
/// whatever the cell held, as the glyph covers it either way; outside the
/// buffer nothing changes.
pub open spec fn write_marker(cells: Seq<Seq<char>>, r: int, c: int) -> Seq<Seq<char>> {
    if 0 <= r < cells.len() && 0 <= c < cells[r].len() {
        cells.update(r, cells[r].update(c, CONTINUATION_MARK))
    } else {
        cells
    }
}

/// Continuation markers written into `n` cells from `c` rightward.
pub open spec fn mark_cells(cells: Seq<Seq<char>>, r: int, c: int, n: int) -> Seq<Seq<char>>
    decreases n,
{
    if n <= 0 {
        cells
    } else {
        mark_cells(write_marker(cells, r, c), r, c + 1, n - 1)
    }
}

/// One character advanced over by the placement cursor: it wraps to the
/// line's starting column when it would pass the right edge, is written
/// where a blank cell inside the grid receives it — a wide character then
/// marking the continuation columns of its glyph — and is dropped and
/// counted where the grid ends. A zero-width character occupies no cell.
pub open spec fn place_char_spec(st: PlaceState, ch: char, line_start: int, gw: int, gh: int) -> PlaceState {
    let w = advance_of(ch);
    if w == 0 {
        st
    } else {
        let wrap = st.col + w > gw;
        let r = if wrap {
            st.row + 1
        } else {
            st.row
        };
        let c = if wrap {
            line_start
        } else {
            st.col
        };
        if r < gh && c + w <= gw {
            PlaceState {
                cells: mark_cells(write_cell(st.cells, r, c, ch), r, c + 1, w - 1),
                row: r,
                col: c + w,
                dropped: st.dropped,
            }
        } else {
            PlaceState {
                cells: st.cells,
                row: r,
                col: if c + w <= gw {
                    c + w
                } else {
                    gw
                },
                dropped: st.dropped + 1,
            }
        }
    }
}

/// A whole character run placed left to right.
pub open spec fn place_run_spec(
    st: PlaceState,
    content: Seq<char>,
    line_start: int,
    gw: int,
    gh: int,
) -> PlaceState
    decreases content.len(),
{
    if content.len() == 0 {
        st
    } else {
        place_char_spec(
            place_run_spec(st, content.drop_last(), line_start, gw, gh),
            content.last(),
            line_start,
            gw,
            gh,
        )
    }
}

/// Where a token's run begins: its quantized column, at least one cell
/// after the previous token's end, clamped onto the grid.
pub open spec fn token_start_col(t: TokenModel, cursor: int, cw: int, gw: int) -> int {
    let qc = quant_cell(t.h_pos, cw, gw);
    let after = if qc > cursor + 1 {
        qc
    } else {
        cursor + 1
    };
    if after > gw {
        gw
    } else {
        after
    }
}

/// One token placed: its characters run from its starting column on its
/// quantized row, wrapping at the line's starting column.
pub open spec fn place_token_spec(
    ls: LineState,
    t: TokenModel,
    line_start: int,
    cw: int,
    lh: int,
    gw: int,
    gh: int,
) -> LineState {
    let start = token_start_col(t, ls.cursor, cw, gw);
    let row = quant_cell(t.v_pos, lh, gh);
    let ps = place_run_spec(
        PlaceState { cells: ls.cells, row: row, col: start, dropped: ls.dropped },
        t.content,
        line_start,
        gw,
        gh,
    );
    LineState { cells: ps.cells, cursor: ps.col, dropped: ps.dropped }
}

/// A line's tokens placed left to right.
pub open spec fn place_line_tokens_spec(
    ls: LineState,
    toks: Seq<TokenModel>,
    line_start: int,
    cw: int,
    lh: int,
    gw: int,
    gh: int,
) -> LineState
    decreases toks.len(),
{
    if toks.len() == 0 {
        ls
    } else {
        place_token_spec(
            place_line_tokens_spec(ls, toks.drop_last(), line_start, cw, lh, gw, gh),
            toks.last(),
            line_start,
            cw,
            lh,
            gw,
            gh,
        )
    }
}

/// One line placed: its tokens in order, wrapping at the line's own
/// starting column, the first token's quantized column.
pub open spec fn place_line_spec(
    cells: Seq<Seq<char>>,
    dropped: int,
    l: LineModel,
    cw: int,
    lh: int,
    gw: int,
    gh: int,
) -> LineState {
    let line_start = quant_cell(l.tokens[0].h_pos, cw, gw);
    place_line_tokens_spec(
        LineState { cells: cells, cursor: -1, dropped: dropped },
        l.tokens,
        line_start,
        cw,
        lh,
        gw,
        gh,
    )
}

/// Every line placed, top to bottom.
pub open spec fn place_lines_spec(
    cells: Seq<Seq<char>>,
    dropped: int,
    lines: Seq<LineModel>,
    cw: int,
    lh: int,
    gw: int,
    gh: int,
) -> LineState
    decreases lines.len(),
{
    if lines.len() == 0 {
        LineState { cells: cells, cursor: -1, dropped: dropped }
    } else {
        let prev = place_lines_spec(cells, dropped, lines.drop_last(), cw, lh, gw, gh);
        place_line_spec(prev.cells, prev.dropped, lines.last(), cw, lh, gw, gh)
    }
}

/// The number of characters a token run carries.
pub open spec fn content_total(toks: Seq<TokenModel>) -> int
    decreases toks.len(),
{
    if toks.len() == 0 {
        0
    } else {
        content_total(toks.drop_last()) + toks.last().content.len()
    }
}

/// The number of characters all lines carry.
pub open spec fn lines_content_total(lines: Seq<LineModel>) -> int
    decreases lines.len(),
{
    if lines.len() == 0 {
        0
    } else {
        lines_content_total(lines.drop_last()) + content_total(lines.last().tokens)
    }
}

/// Writing a character keeps the buffer rectangular and break-free.
pub proof fn lemma_write_cell_wf(cells: Seq<Seq<char>>, r: int, c: int, ch: char, gw: int, gh: int)
    requires
        cells_wf(cells, gw, gh),
        ch != '\n',
    ensures
        cells_wf(write_cell(cells, r, c, ch), gw, gh),
{
    let out = write_cell(cells, r, c, ch);
    if 0 <= r < cells.len() && 0 <= c < cells[r].len() && cells[r][c] == ' ' {
        assert(forall|i: int| 0 <= i < out.len() && i != r ==> #[trigger] out[i] == cells[i]);
        assert(out[r] == cells[r].update(c, ch));
    }
}

/// Writing a continuation marker keeps the buffer rectangular and
/// break-free.
pub proof fn lemma_write_marker_wf(cells: Seq<Seq<char>>, r: int, c: int, gw: int, gh: int)
    requires
        cells_wf(cells, gw, gh),
    ensures
        cells_wf(write_marker(cells, r, c), gw, gh),
{
    let out = write_marker(cells, r, c);
    if 0 <= r < cells.len() && 0 <= c < cells[r].len() {
        assert(forall|i: int| 0 <= i < out.len() && i != r ==> #[trigger] out[i] == cells[i]);
        assert(out[r] == cells[r].update(c, CONTINUATION_MARK));
        assert(CONTINUATION_MARK != '\n');
    }
}

/// Marking a span of continuation cells keeps the buffer well formed.
pub proof fn lemma_mark_cells_wf(cells: Seq<Seq<char>>, r: int, c: int, n: int, gw: int, gh: int)
    requires
        cells_wf(cells, gw, gh),
    ensures
        cells_wf(mark_cells(cells, r, c, n), gw, gh),
    decreases n,
{
    if n > 0 {
        lemma_write_marker_wf(cells, r, c, gw, gh);
        lemma_mark_cells_wf(write_marker(cells, r, c), r, c + 1, n - 1, gw, gh);
    }
}

/// Placing one character keeps the buffer well formed, the cursor on the
/// grid, and grows the drop count by at most one.
pub proof fn lemma_place_char_props(st: PlaceState, ch: char, line_start: int, gw: int, gh: int)
    requires
        cells_wf(st.cells, gw, gh),
        ch != '\n',
        0 <= line_start <= gw - 1,
        0 <= st.col <= gw,
        st.row >= 0,
        gw >= 1,
    ensures
        cells_wf(place_char_spec(st, ch, line_start, gw, gh).cells, gw, gh),
        0 <= place_char_spec(st, ch, line_start, gw, gh).col <= gw,
        place_char_spec(st, ch, line_start, gw, gh).row >= 0,
        st.dropped <= place_char_spec(st, ch, line_start, gw, gh).dropped <= st.dropped + 1,
{
    let w = advance_of(ch);
    if w != 0 {
        let wrap = st.col + w > gw;
        let r = if wrap {
            st.row + 1
        } else {
            st.row
        };
        let c = if wrap {
            line_start
        } else {
            st.col
        };
        if r < gh && c + w <= gw {
            lemma_write_cell_wf(st.cells, r, c, ch, gw, gh);
            lemma_mark_cells_wf(write_cell(st.cells, r, c, ch), r, c + 1, w - 1, gw, gh);
        }
    }
}

/// Placing a run keeps the buffer well formed and drops at most one
/// character per character of the run.
pub proof fn lemma_place_run_props(
    st: PlaceState,
    content: Seq<char>,
    line_start: int,
    gw: int,
    gh: int,
)
    requires
        cells_wf(st.cells, gw, gh),
        forall|i: int| 0 <= i < content.len() ==> content[i] != '\n',
        0 <= line_start <= gw - 1,
        0 <= st.col <= gw,
        st.row >= 0,
        gw >= 1,
    ensures
        cells_wf(place_run_spec(st, content, line_start, gw, gh).cells, gw, gh),
        0 <= place_run_spec(st, content, line_start, gw, gh).col <= gw,
        place_run_spec(st, content, line_start, gw, gh).row >= 0,
        st.dropped <= place_run_spec(st, content, line_start, gw, gh).dropped <= st.dropped
            + content.len(),
    decreases content.len(),
{
    if content.len() > 0 {
        let pre = content.drop_last();
        assert(forall|i: int| 0 <= i < pre.len() ==> #[trigger] pre[i] == content[i]);
        lemma_place_run_props(st, pre, line_start, gw, gh);
        assert(content.last() == content[content.len() - 1]);
        lemma_place_char_props(
            place_run_spec(st, pre, line_start, gw, gh),
            content.last(),
            line_start,
            gw,
            gh,
        );
    }
}

/// Placing a token keeps the buffer well formed and the cursor on the
/// grid.
pub proof fn lemma_place_token_props(
    ls: LineState,
    t: TokenModel,
    line_start: int,
    cw: int,
    lh: int,
    gw: int,
    gh: int,
)
    requires
        cells_wf(ls.cells, gw, gh),
        token_wf(t),
        0 <= line_start <= gw - 1,
        -1 <= ls.cursor <= gw,
        cw >= 1,
        lh >= 1,
        gw >= 1,
        gh >= 1,
    ensures
        cells_wf(place_token_spec(ls, t, line_start, cw, lh, gw, gh).cells, gw, gh),
        0 <= place_token_spec(ls, t, line_start, cw, lh, gw, gh).cursor <= gw,
        ls.dropped <= place_token_spec(ls, t, line_start, cw, lh, gw, gh).dropped <= ls.dropped
            + t.content.len(),
{
    let start = token_start_col(t, ls.cursor, cw, gw);
    lemma_quantized_cell_in_bounds(t.h_pos, cw, gw);
    lemma_quantized_cell_in_bounds(t.v_pos, lh, gh);
    lemma_place_run_props(
        PlaceState {
            cells: ls.cells,
            row: quant_cell(t.v_pos, lh, gh),
            col: start,
            dropped: ls.dropped,
        },
        t.content,
        line_start,
        gw,
        gh,
    );
}

/// Placing a line's tokens keeps the buffer well formed and drops no more
/// characters than the line carries.
pub proof fn lemma_place_line_tokens_props(
    ls: LineState,
    toks: Seq<TokenModel>,
    line_start: int,
    cw: int,
    lh: int,
    gw: int,
    gh: int,
)
    requires
        cells_wf(ls.cells, gw, gh),
        forall|i: int| 0 <= i < toks.len() ==> token_wf(#[trigger] toks[i]),
        0 <= line_start <= gw - 1,
        -1 <= ls.cursor <= gw,
        cw >= 1,
        lh >= 1,
        gw >= 1,
        gh >= 1,
    ensures
        cells_wf(place_line_tokens_spec(ls, toks, line_start, cw, lh, gw, gh).cells, gw, gh),
        -1 <= place_line_tokens_spec(ls, toks, line_start, cw, lh, gw, gh).cursor <= gw,
        ls.dropped <= place_line_tokens_spec(ls, toks, line_start, cw, lh, gw, gh).dropped
            <= ls.dropped + content_total(toks),
    decreases toks.len(),
{
    if toks.len() > 0 {
        let pre = toks.drop_last();
        assert(forall|i: int| 0 <= i < pre.len() ==> #[trigger] pre[i] == toks[i]);
        lemma_place_line_tokens_props(ls, pre, line_start, cw, lh, gw, gh);
        assert(token_wf(toks.last()));
        lemma_place_token_props(
            place_line_tokens_spec(ls, pre, line_start, cw, lh, gw, gh),
            toks.last(),
            line_start,
            cw,
            lh,
            gw,
            gh,
        );
        lemma_content_total_nonneg(pre);
    }
}

/// Character totals never go negative.
pub proof fn lemma_content_total_nonneg(toks: Seq<TokenModel>)
    ensures
        content_total(toks) >= 0,
    decreases toks.len(),
{
    if toks.len() > 0 {
        lemma_content_total_nonneg(toks.drop_last());
    }
}

/// Placing every line keeps the buffer well formed and drops no more
/// characters than the lines carry.
pub proof fn lemma_place_lines_props(
    cells: Seq<Seq<char>>,
    dropped: int,
    lines: Seq<LineModel>,
    cw: int,
    lh: int,
    gw: int,
    gh: int,
)
    requires
        cells_wf(cells, gw, gh),
        forall|i: int| 0 <= i < lines.len() ==> line_wf(#[trigger] lines[i]),
        cw >= 1,
        lh >= 1,
        gw >= 1,
        gh >= 1,
    ensures
        cells_wf(place_lines_spec(cells, dropped, lines, cw, lh, gw, gh).cells, gw, gh),
        dropped <= place_lines_spec(cells, dropped, lines, cw, lh, gw, gh).dropped <= dropped
            + lines_content_total(lines),
    decreases lines.len(),
{
    if lines.len() > 0 {
        let pre = lines.drop_last();
        assert(forall|i: int| 0 <= i < pre.len() ==> #[trigger] pre[i] == lines[i]);
        lemma_place_lines_props(cells, dropped, pre, cw, lh, gw, gh);
        let l = lines.last();
        assert(line_wf(l));
        let prev = place_lines_spec(cells, dropped, pre, cw, lh, gw, gh);
        lemma_quantized_cell_in_bounds(l.tokens[0].h_pos, cw, gw);
        assert(forall|i: int| 0 <= i < l.tokens.len() ==> token_wf(#[trigger] l.tokens[i]));
        lemma_place_line_tokens_props(
            LineState { cells: prev.cells, cursor: -1, dropped: prev.dropped },
            l.tokens,
            quant_cell(l.tokens[0].h_pos, cw, gw),
            cw,
            lh,
            gw,
            gh,
        );
        lemma_lines_content_total_nonneg(pre);
    }
}

/// Line character totals never go negative.
pub proof fn lemma_lines_content_total_nonneg(lines: Seq<LineModel>)
    ensures
        lines_content_total(lines) >= 0,
    decreases lines.len(),
{
    if lines.len() > 0 {
        lemma_lines_content_total_nonneg(lines.drop_last());
        lemma_content_total_nonneg(lines.last().tokens);
    }
}

/// A token run carries at most its length times the content cap.
pub proof fn lemma_content_total_le(toks: Seq<TokenModel>)
    requires
        forall|i: int| 0 <= i < toks.len() ==> token_wf(#[trigger] toks[i]),
    ensures
        content_total(toks) <= toks.len() * CONTENT_MAX,
    decreases toks.len(),
{
    if toks.len() > 0 {
        let pre = toks.drop_last();
        assert(forall|i: int| 0 <= i < pre.len() ==> #[trigger] pre[i] == toks[i]);
        lemma_content_total_le(pre);
        assert(token_wf(toks.last()));
        assert((toks.len() - 1) * CONTENT_MAX + CONTENT_MAX == toks.len() * CONTENT_MAX)
            by (nonlinear_arith);
    }
}

/// All lines together carry at most the token total times the content cap.
pub proof fn lemma_lines_content_bounds(lines: Seq<LineModel>)
    requires
        forall|i: int| 0 <= i < lines.len() ==> line_wf(#[trigger] lines[i]),
    ensures
        0 <= lines_content_total(lines) <= total_line_tokens(lines) * CONTENT_MAX,
    decreases lines.len(),
{
    lemma_lines_content_total_nonneg(lines);
    if lines.len() > 0 {
        let pre = lines.drop_last();
        assert(forall|i: int| 0 <= i < pre.len() ==> #[trigger] pre[i] == lines[i]);
        lemma_lines_content_bounds(pre);
        let l = lines.last();
        assert(line_wf(l));
        assert(forall|i: int| 0 <= i < l.tokens.len() ==> token_wf(#[trigger] l.tokens[i]));
        lemma_content_total_le(l.tokens);
        assert(total_line_tokens(pre) * CONTENT_MAX + l.tokens.len() * CONTENT_MAX == (
        total_line_tokens(pre) + l.tokens.len()) * CONTENT_MAX) by (nonlinear_arith);
    }
}

/// Write one character into the buffer: only a blank cell receives it.
fn write_cell_exec(cells: &mut Vec<Vec<char>>, r: usize, c: usize, ch: char)
    requires
        r < old(cells)@.len(),
        c < old(cells)@[r as int]@.len(),
    ensures
        rows_model(final(cells)@) == write_cell(rows_model(old(cells)@), r as int, c as int, ch),
{
    let ghost m0 = rows_model(cells@);
    proof {
        assert(forall|i: int| 0 <= i < m0.len() ==> #[trigger] m0[i] == cells@[i]@);
    }
    let cur = cells[r][c];
    if cur == ' ' {
        let mut row = cells.remove(r);
        row.set(c, ch);
        cells.insert(r, row);
        proof {
            assert(rows_model(cells@) =~= m0.update(r as int, m0[r as int].update(c as int, ch)))
                by {
                assert(forall|i: int|
                    0 <= i < cells@.len() ==> #[trigger] rows_model(cells@)[i] == cells@[i]@);
                assert(cells@[r as int]@ =~= m0[r as int].update(c as int, ch));
            }
        }
    } else {
        proof {
            assert(rows_model(cells@) == m0);
        }
    }
}

/// Write the continuation marker into one cell, whatever it held.
fn write_marker_exec(cells: &mut Vec<Vec<char>>, r: usize, c: usize)
    requires
        r < old(cells)@.len(),
        c < old(cells)@[r as int]@.len(),
    ensures
        rows_model(final(cells)@) == write_marker(rows_model(old(cells)@), r as int, c as int),
{
    let ghost m0 = rows_model(cells@);
    proof {
        assert(forall|i: int| 0 <= i < m0.len() ==> #[trigger] m0[i] == cells@[i]@);
    }
    let mut row = cells.remove(r);
    row.set(c, CONTINUATION_MARK);
    cells.insert(r, row);
    proof {
        assert(rows_model(cells@) =~= m0.update(
            r as int,
            m0[r as int].update(c as int, CONTINUATION_MARK),
        )) by {
            assert(forall|i: int|
                0 <= i < cells@.len() ==> #[trigger] rows_model(cells@)[i] == cells@[i]@);
            assert(cells@[r as int]@ =~= m0[r as int].update(c as int, CONTINUATION_MARK));
        }
    }
}

/// Place one character run from the given cursor, wrapping at the line's
/// starting column, dropping what the grid cannot hold.
#[verifier::rlimit(100)]
fn place_run_exec(
    cells: &mut Vec<Vec<char>>,
    content: &Vec<char>,
    row0: usize,
    col0: usize,
    line_start: usize,
    gw: usize,
    gh: usize,
    dropped0: u64,
) -> (r: (usize, usize, u64))
    requires
        cells_wf(rows_model(old(cells)@), gw as int, gh as int),
        forall|i: int| 0 <= i < content@.len() ==> content@[i] != '\n',
        content@.len() <= CONTENT_MAX,
        1 <= gw <= GRID_DIM_MAX,
        1 <= gh <= GRID_DIM_MAX,
        line_start <= gw - 1,
        col0 <= gw,
        row0 <= GRID_DIM_MAX,
        dropped0 <= 2_000_000_000_000_000_000,
    ensures
        ({
            let ps = place_run_spec(
                PlaceState {
                    cells: rows_model(old(cells)@),
                    row: row0 as int,
                    col: col0 as int,
                    dropped: dropped0 as int,
                },
                content@,
                line_start as int,
                gw as int,
                gh as int,
            );
            &&& rows_model(final(cells)@) == ps.cells
            &&& r.0 as int == ps.row
            &&& r.1 as int == ps.col
            &&& r.2 as int == ps.dropped
        }),
        cells_wf(rows_model(final(cells)@), gw as int, gh as int),
        r.1 <= gw,
        r.2 <= dropped0 + content@.len(),
{
    let ghost st0 = PlaceState {
        cells: rows_model(old(cells)@),
        row: row0 as int,
        col: col0 as int,
        dropped: dropped0 as int,
    };
    let mut row = row0;
    let mut col = col0;
    let mut dropped = dropped0;
    let mut i: usize = 0;
    let n = content.len();
    while i < n
        invariant
            i <= n,
            n == content@.len(),
            n <= CONTENT_MAX,
            forall|j: int| 0 <= j < content@.len() ==> content@[j] != '\n',
            1 <= gw <= GRID_DIM_MAX,
            1 <= gh <= GRID_DIM_MAX,
            line_start <= gw - 1,
            row0 <= GRID_DIM_MAX,
            dropped0 <= 2_000_000_000_000_000_000,
            st0 == (PlaceState {
                cells: rows_model(old(cells)@),
                row: row0 as int,
                col: col0 as int,
                dropped: dropped0 as int,
            }),
            ({
                let ps = place_run_spec(st0, content@.take(i as int), line_start as int, gw as int, gh as int);
                &&& rows_model(cells@) == ps.cells
                &&& row as int == ps.row
                &&& col as int == ps.col
                &&& dropped as int == ps.dropped
            }),
            cells_wf(rows_model(cells@), gw as int, gh as int),
            col <= gw,
            row <= row0 + i,
            dropped <= dropped0 + i,
        decreases n - i,
    {
        let ch = content[i];
        proof {
            assert(content@.take(i + 1).drop_last() =~= content@.take(i as int));
            assert(content@.take(i + 1).last() == content@[i as int]);
            lemma_place_char_props(
                place_run_spec(st0, content@.take(i as int), line_start as int, gw as int, gh as int),
                content@[i as int],
                line_start as int,
                gw as int,
                gh as int,
            );
        }
        let w = cursor_advance(ch);
        if w > 0 {
            let wrap = col + w > gw;
            let r2 = if wrap {
                row + 1
            } else {
                row
            };
            let c2 = if wrap {
                line_start
            } else {
                col
            };
            if r2 < gh && c2 + w <= gw {
                let ghost prev = rows_model(cells@);
                write_cell_exec(cells, r2, c2, ch);
                let ghost base = rows_model(cells@);
                proof {
                    lemma_write_cell_wf(prev, r2 as int, c2 as int, ch, gw as int, gh as int);
                }
                let mut k: usize = 1;
                while k < w
                    invariant
                        1 <= k <= w,
                        w <= 3,
                        r2 < gh,
                        c2 + w <= gw,
                        1 <= gw <= GRID_DIM_MAX,
                        1 <= gh <= GRID_DIM_MAX,
                        cells_wf(rows_model(cells@), gw as int, gh as int),
                        mark_cells(base, r2 as int, c2 as int + 1, w as int - 1) == mark_cells(
                            rows_model(cells@),
                            r2 as int,
                            c2 as int + k as int,
                            w as int - k as int,
                        ),
                    decreases w - k,
                {
                    let ghost pre = rows_model(cells@);
                    proof {
                        assert(pre.len() == gh as int);
                        assert(pre[r2 as int].len() == gw as int);
                        assert(pre[r2 as int] == cells@[r2 as int]@);
                    }
                    write_marker_exec(cells, r2, c2 + k);
                    proof {
                        lemma_write_marker_wf(
                            pre,
                            r2 as int,
                            c2 as int + k as int,
                            gw as int,
                            gh as int,
                        );
                        assert(mark_cells(pre, r2 as int, c2 as int + k as int, w as int - k as int)
                            == mark_cells(
                            write_marker(pre, r2 as int, c2 as int + k as int),
                            r2 as int,
                            c2 as int + k as int + 1,
                            w as int - k as int - 1,
                        ));
                    }
                    k += 1;
                }
                proof {
                    assert(mark_cells(
                        rows_model(cells@),
                        r2 as int,
                        c2 as int + w as int,
                        0,
                    ) == rows_model(cells@));
                }
                row = r2;
                col = c2 + w;
            } else {
                row = r2;
                col = if c2 + w <= gw {
                    c2 + w
                } else {
                    gw
                };
                dropped = dropped + 1;
            }
        }
        i += 1;
    }
    proof {
        assert(content@.take(n as int) =~= content@);
    }
    (row, col, dropped)
}

/// Place one token: its run starts at its quantized column, at least one
/// cell after the previous token.
fn place_token_exec(
    cells: &mut Vec<Vec<char>>,
    t: &Token,
    cursor: i64,
    line_start: usize,
    cw: u64,
    lh: u64,
    gw: usize,
    gh: usize,
    dropped0: u64,
) -> (r: (i64, u64))
    requires
        cells_wf(rows_model(old(cells)@), gw as int, gh as int),
        token_wf(t@),
        -1 <= cursor <= gw,
        1 <= gw <= GRID_DIM_MAX,
        1 <= gh <= GRID_DIM_MAX,
        line_start <= gw - 1,
        cw >= 1,
        lh >= 1,
        dropped0 <= 2_000_000_000_000_000_000,
    ensures
        ({
            let ls = place_token_spec(
                LineState {
                    cells: rows_model(old(cells)@),
                    cursor: cursor as int,
                    dropped: dropped0 as int,
                },
                t@,
                line_start as int,
                cw as int,
                lh as int,
                gw as int,
                gh as int,
            );
            &&& rows_model(final(cells)@) == ls.cells
            &&& r.0 as int == ls.cursor
            &&& r.1 as int == ls.dropped
        }),
        cells_wf(rows_model(final(cells)@), gw as int, gh as int),
        0 <= r.0 <= gw,
        r.1 <= dropped0 + t@.content.len(),
{
    let qc = quant_cell_exec(t.h_pos, cw, gw);
    let after = if (qc as i64) > cursor + 1 {
        qc as i64
    } else {
        cursor + 1
    };
    let start = if after > (gw as i64) {
        gw
    } else {
        after as usize
    };
    proof {
        assert(start as int == token_start_col(t@, cursor as int, cw as int, gw as int));
    }
    let row = quant_cell_exec(t.v_pos, lh, gh);
    let (r2, c2, d2) = place_run_exec(cells, &t.content, row, start, line_start, gw, gh, dropped0);
    ((c2 as i64), d2)
}

/// Place one line: its tokens left to right, wrapping at the first
/// token's quantized column.
fn place_line_exec(
    cells: &mut Vec<Vec<char>>,
    l: &Line,
    dropped0: u64,
    cw: u64,
    lh: u64,
    gw: usize,
    gh: usize,
) -> (d: u64)
    requires
        cells_wf(rows_model(old(cells)@), gw as int, gh as int),
        line_wf(l@),
        l@.tokens.len() <= TOKEN_MAX,
        1 <= gw <= GRID_DIM_MAX,
        1 <= gh <= GRID_DIM_MAX,
        cw >= 1,
        lh >= 1,
        dropped0 <= 1_000_000_000_000_000_000,
    ensures
        ({
            let ls = place_line_spec(
                rows_model(old(cells)@),
                dropped0 as int,
                l@,
                cw as int,
                lh as int,
                gw as int,
                gh as int,
            );
            &&& rows_model(final(cells)@) == ls.cells
            &&& d as int == ls.dropped
        }),
        cells_wf(rows_model(final(cells)@), gw as int, gh as int),
        d <= dropped0 + content_total(l@.tokens),
{
    let ghost toks = l@.tokens;
    proof {
        assert(forall|i: int| 0 <= i < toks.len() ==> #[trigger] toks[i] == l.tokens@[i]@);
        assert(forall|i: int| 0 <= i < toks.len() ==> token_wf(#[trigger] toks[i]));
        assert(token_wf(toks[0]));
    }
    let line_start = quant_cell_exec(l.tokens[0].h_pos, cw, gw);
    let ghost ls0 = LineState {
        cells: rows_model(cells@),
        cursor: -1int,
        dropped: dropped0 as int,
    };
    let n = l.tokens.len();
    let mut cursor: i64 = -1;
    let mut dropped = dropped0;
    let mut k: usize = 0;
    proof {
        lemma_content_total_nonneg(toks);
    }
    while k < n
        invariant
            k <= n,
            n == toks.len(),
            n <= TOKEN_MAX,
            toks == l@.tokens,
            line_wf(l@),
            forall|i: int| 0 <= i < toks.len() ==> #[trigger] toks[i] == l.tokens@[i]@,
            1 <= gw <= GRID_DIM_MAX,
            1 <= gh <= GRID_DIM_MAX,
            cw >= 1,
            lh >= 1,
            dropped0 <= 1_000_000_000_000_000_000,
            line_start as int == quant_cell(toks[0].h_pos, cw as int, gw as int),
            line_start <= gw - 1,
            ls0 == (LineState {
                cells: rows_model(old(cells)@),
                cursor: -1int,
                dropped: dropped0 as int,
            }),
            ({
                let ls = place_line_tokens_spec(
                    ls0,
                    toks.take(k as int),
                    line_start as int,
                    cw as int,
                    lh as int,
                    gw as int,
                    gh as int,
                );
                &&& rows_model(cells@) == ls.cells
                &&& cursor as int == ls.cursor
                &&& dropped as int == ls.dropped
            }),
            cells_wf(rows_model(cells@), gw as int, gh as int),
            -1 <= cursor <= gw,
            dropped as int <= dropped0 + content_total(toks.take(k as int)),
            content_total(toks.take(k as int)) <= k as int * CONTENT_MAX,
        decreases n - k,
    {
        proof {
            assert(toks.take(k + 1).drop_last() =~= toks.take(k as int));
            assert(toks.take(k + 1).last() == toks[k as int]);
            assert(token_wf(toks[k as int]));
            assert(forall|i: int|
                0 <= i < toks.take(k as int).len() ==> token_wf(#[trigger] toks.take(k as int)[i]));
            lemma_content_total_le(toks.take(k as int));
            assert(k as int * CONTENT_MAX <= TOKEN_MAX * CONTENT_MAX) by (nonlinear_arith)
                requires
                    0 <= k as int <= TOKEN_MAX as int,
            ;
            assert(TOKEN_MAX * CONTENT_MAX == 1000000000000000) by (nonlinear_arith);
            assert((k + 1) * CONTENT_MAX == k as int * CONTENT_MAX + CONTENT_MAX)
                by (nonlinear_arith);
        }
        let (c2, d2) = place_token_exec(
            cells,
            &l.tokens[k],
            cursor,
            line_start,
            cw,
            lh,
            gw,
            gh,
            dropped,
        );
        cursor = c2;
        dropped = d2;
        k += 1;
    }
    proof {
        assert(toks.take(n as int) =~= toks);
    }
    dropped
}

impl Grid {
    /// Quantize every line's tokens into the grid. Returns how many
    /// characters fell outside the grid and were dropped.
    pub fn place_lines(&mut self, lines: &Vec<Line>) -> (dropped: u64)
        requires
            old(self).wf(),
            forall|i: int| 0 <= i < lines@.len() ==> line_wf((#[trigger] lines@[i])@),
            total_line_tokens(line_models(lines@)) <= TOKEN_MAX,
        ensures
            final(self).wf(),
            final(self).width == old(self).width,
            final(self).height == old(self).height,
            final(self).char_width == old(self).char_width,
            final(self).line_height == old(self).line_height,
            ({
                let ls = place_lines_spec(
                    old(self).cells_model(),
                    0,
                    line_models(lines@),
                    old(self).char_width as int,
                    old(self).line_height as int,
                    old(self).width as int,
                    old(self).height as int,
                );
                &&& final(self).cells_model() == ls.cells
                &&& dropped as int == ls.dropped
            }),
    {
        let ghost lm = line_models(lines@);
        let ghost cells0 = self.cells_model();
        proof {
            assert(forall|i: int| 0 <= i < lm.len() ==> #[trigger] lm[i] == lines@[i]@);
        }
        let gw = self.width;
        let gh = self.height;
        let cw = self.char_width;
        let lh = self.line_height;
        let n = lines.len();
        let mut dropped: u64 = 0;
        let mut i: usize = 0;
        while i < n
            invariant
                i <= n,
                n == lines@.len(),
                lm == line_models(lines@),
                forall|j: int| 0 <= j < lm.len() ==> line_wf(#[trigger] lm[j]),
                forall|j: int| 0 <= j < lm.len() ==> #[trigger] lm[j] == lines@[j]@,
                total_line_tokens(lm) <= TOKEN_MAX,
                gw == self.width,
                gh == self.height,
                cw == self.char_width,
                lh == self.line_height,
                1 <= gw <= GRID_DIM_MAX,
                1 <= gh <= GRID_DIM_MAX,
                1 <= cw <= COORD_MAX,
                1 <= lh <= COORD_MAX,
                cells0 == old(self).cells_model(),
                self.width == old(self).width,
                self.height == old(self).height,
                self.char_width == old(self).char_width,
                self.line_height == old(self).line_height,
                ({
                    let ls = place_lines_spec(
                        cells0,
                        0,
                        lm.take(i as int),
                        cw as int,
                        lh as int,
                        gw as int,
                        gh as int,
                    );
                    &&& self.cells_model() == ls.cells
                    &&& dropped as int == ls.dropped
                }),
                cells_wf(self.cells_model(), gw as int, gh as int),
                dropped as int <= lines_content_total(lm.take(i as int)),
                lines_content_total(lm.take(i as int)) <= total_line_tokens(lm.take(i as int))
                    * CONTENT_MAX,
            decreases n - i,
        {
            proof {
                assert(lm.take(i + 1).drop_last() =~= lm.take(i as int));
                assert(lm.take(i + 1).last() == lm[i as int]);
                assert(line_wf(lm[i as int]));
                assert(forall|j: int|
                    0 <= j < lm.take(i as int).len() ==> line_wf(#[trigger] lm.take(i as int)[j]));
                assert(forall|j: int|
                    0 <= j < lm.take(i + 1).len() ==> line_wf(#[trigger] lm.take(i + 1)[j]));
                lemma_line_len_le_total(lm, i as int);
                lemma_total_take_le(lm, i as int);
                assert(total_line_tokens(lm.take(i as int)) * CONTENT_MAX <= TOKEN_MAX
                    * CONTENT_MAX) by (nonlinear_arith)
                    requires
                        0 <= total_line_tokens(lm.take(i as int)) <= TOKEN_MAX as int,
                ;
                assert(TOKEN_MAX * CONTENT_MAX == 1000000000000000) by (nonlinear_arith);
                lemma_lines_content_bounds(lm.take(i + 1));
                lemma_total_take_le(lm, i + 1);
            }
            let d = place_line_exec(&mut self.cells, &lines[i], dropped, cw, lh, gw, gh);
            dropped = d;
            i += 1;
            proof {
                lemma_lines_content_bounds(lm.take(i as int));
            }
        }
        proof {
            assert(lm.take(n as int) =~= lm);
        }
        dropped
    }
}

/// A prefix of the lines holds no more tokens than the whole, and at
/// least none.
pub proof fn lemma_total_take_le(lines: Seq<LineModel>, k: int)
    requires
        0 <= k <= lines.len(),
    ensures
        0 <= total_line_tokens(lines.take(k)),
        total_line_tokens(lines.take(k)) <= total_line_tokens(lines),
    decreases lines.len() - k,
{
    crate::group::lemma_total_nonneg(lines.take(k));
    if k < lines.len() {
        assert(lines.take(k + 1).drop_last() =~= lines.take(k));
        assert(lines.take(k + 1).last() == lines[k]);
        lemma_total_take_le(lines, k + 1);
        assert(lines.take(lines.len() as int) =~= lines);
    } else {
        assert(lines.take(k) =~= lines);
    }
}

} // verus!
