//! The bridge between the grid and linear text.
//!
//! `to_text` renders the grid as linear text: each row loses its trailing
//! spaces, rows join with line breaks, and fully blank rows at the top and
//! bottom fall away (interior blank rows survive exactly). `from_text`
//! writes edited linear text back onto the grid, clearing it first and
//! dropping whatever lies beyond the grid's bounds. `viewport_text` copies
//! a bounded window out of the grid, rendering anything beyond the grid as
//! blank, whatever the offsets.

use vstd::prelude::*;
use crate::grid::Grid;
use crate::grid::cells_wf;
use crate::grid::rows_model;

verus! {

/// A row without its trailing spaces.
pub open spec fn trim_row(row: Seq<char>) -> Seq<char>
    decreases row.len(),
{
    if row.len() == 0 {
        row
    } else if row.last() == ' ' {
        trim_row(row.drop_last())
    } else {
        row
    }
}

/// A row holding nothing but spaces.
pub open spec fn row_blank(row: Seq<char>) -> bool {
    forall|i: int| 0 <= i < row.len() ==> row[i] == ' '
}

/// The first row holding a non-space character, or the row count if none
/// does.
pub open spec fn first_nonblank(cells: Seq<Seq<char>>) -> int
    decreases cells.len(),
{
    if cells.len() == 0 {
        0
    } else if !row_blank(cells[0]) {
        0
    } else {
        1 + first_nonblank(cells.drop_first())
    }
}

/// The last row holding a non-space character, or minus one if none does.
pub open spec fn last_nonblank(cells: Seq<Seq<char>>) -> int
    decreases cells.len(),
{
    if cells.len() == 0 {
        -1
    } else if !row_blank(cells.last()) {
        cells.len() - 1
    } else {
        last_nonblank(cells.drop_last())
    }
}

/// Rows joined with single line breaks.
pub open spec fn join_rows(rows: Seq<Seq<char>>) -> Seq<char>
    decreases rows.len(),
{
    if rows.len() == 0 {
        Seq::<char>::empty()
    } else if rows.len() == 1 {
        rows[0]
    } else {
        rows[0] + seq!['\n'] + join_rows(rows.drop_first())
    }
}

/// The grid rendered as linear text: trimmed rows from the first to the
/// last non-blank one, joined with line breaks; an entirely blank grid
/// renders as empty text.
pub open spec fn to_text_spec(cells: Seq<Seq<char>>) -> Seq<char> {
    let f = first_nonblank(cells);
    let l = last_nonblank(cells);
    if l < 0 {
        Seq::<char>::empty()
    } else {
        join_rows(cells.subrange(f, l + 1).map_values(|r: Seq<char>| trim_row(r)))
    }
}

/// The position of the first line break, or the length if none occurs.
pub open spec fn find_nl(t: Seq<char>) -> int
    decreases t.len(),
{
    if t.len() == 0 {
        0
    } else if t[0] == '\n' {
        0
    } else {
        1 + find_nl(t.drop_first())
    }
}

/// Text split at its line breaks. Empty text is one empty line.
pub open spec fn split_lines(t: Seq<char>) -> Seq<Seq<char>>
    decreases t.len() via split_lines_decreases
{
    let i = find_nl(t);
    if i == t.len() {
        seq![t]
    } else {
        seq![t.take(i)] + split_lines(t.subrange(i + 1, t.len() as int))
    }
}

#[via_fn]
proof fn split_lines_decreases(t: Seq<char>) {
    lemma_find_nl_shape(t);
}

/// What a grid cell holds after text is written onto a cleared grid: the
/// text's character at that position, or a space where the text does not
/// reach.
pub open spec fn from_text_cell(lines: Seq<Seq<char>>, r: int, c: int) -> char {
    if 0 <= r < lines.len() && 0 <= c < lines[r].len() {
        lines[r][c]
    } else {
        ' '
    }
}

/// The grid a text writes: every cell per [`from_text_cell`].
pub open spec fn from_text_cells(lines: Seq<Seq<char>>, gw: int, gh: int) -> Seq<Seq<char>> {
    Seq::new(gh as nat, |r: int| Seq::new(gw as nat, |c: int| from_text_cell(lines, r, c)))
}

/// One viewport cell: the grid's character under the offset window, or a
/// space beyond the grid.
pub open spec fn viewport_cell(cells: Seq<Seq<char>>, ox: int, oy: int, r: int, c: int) -> char {
    if oy + r < cells.len() && ox + c < cells[oy + r].len() {
        cells[oy + r][ox + c]
    } else {
        ' '
    }
}

/// The viewport window rendered as text: each visible row copied and
/// trimmed, rows joined with line breaks.
pub open spec fn viewport_text_spec(
    cells: Seq<Seq<char>>,
    ox: int,
    oy: int,
    vw: int,
    vh: int,
) -> Seq<char> {
    join_rows(
        Seq::new(
            vh as nat,
            |r: int| trim_row(Seq::new(vw as nat, |c: int| viewport_cell(cells, ox, oy, r, c))),
        ),
    )
}

/// Trimming never lengthens a row.
pub proof fn lemma_trim_len_le(row: Seq<char>)
    ensures
        trim_row(row).len() <= row.len(),
    decreases row.len(),
{
    if row.len() > 0 && row.last() == ' ' {
        lemma_trim_len_le(row.drop_last());
    }
}

/// A trimmed row never ends in a space, and trimming drops only spaces:
/// the trimmed row is a prefix of the original.
pub proof fn lemma_trim_shape(row: Seq<char>)
    ensures
        trim_row(row).len() > 0 ==> trim_row(row).last() != ' ',
        trim_row(row) == row.take(trim_row(row).len() as int),
        forall|i: int| trim_row(row).len() <= i < row.len() ==> row[i] == ' ',
    decreases row.len(),
{
    if row.len() == 0 {
        assert(row.take(0) =~= row);
    } else if row.last() == ' ' {
        lemma_trim_shape(row.drop_last());
        lemma_trim_len_le(row.drop_last());
        assert(row.drop_last().take(trim_row(row).len() as int) =~= row.take(
            trim_row(row).len() as int,
        ));
        assert(forall|i: int|
            trim_row(row).len() <= i < row.len() - 1 ==> row.drop_last()[i] == row[i]);
    } else {
        assert(row.take(row.len() as int) =~= row);
    }
}

/// A row trims to nothing exactly when it is blank.
pub proof fn lemma_trim_blank(row: Seq<char>)
    ensures
        trim_row(row).len() == 0 <==> row_blank(row),
    decreases row.len(),
{
    lemma_trim_shape(row);
    if row.len() > 0 {
        lemma_trim_blank(row.drop_last());
        if row.last() == ' ' {
            assert(forall|i: int| 0 <= i < row.len() - 1 ==> row.drop_last()[i] == row[i]);
            if row_blank(row.drop_last()) {
                assert(row_blank(row));
            }
        } else {
            assert(!row_blank(row)) by {
                assert(row[row.len() - 1] != ' ');
            }
        }
    }
}

/// A row already free of trailing spaces trims to itself.
pub proof fn lemma_trim_fixed(row: Seq<char>)
    requires
        row.len() == 0 || row.last() != ' ',
    ensures
        trim_row(row) == row,
{
}

/// Padding a row with spaces changes nothing about its trimmed form.
pub proof fn lemma_trim_pad(row: Seq<char>, pad: Seq<char>)
    requires
        row.len() == 0 || row.last() != ' ',
        forall|i: int| 0 <= i < pad.len() ==> pad[i] == ' ',
    ensures
        trim_row(row + pad) == row,
    decreases pad.len(),
{
    if pad.len() == 0 {
        assert(row + pad =~= row);
        lemma_trim_fixed(row);
    } else {
        let whole = row + pad;
        assert(whole.last() == pad.last());
        assert(whole.last() == ' ');
        assert(whole.drop_last() =~= row + pad.drop_last());
        assert(forall|i: int| 0 <= i < pad.len() - 1 ==> pad.drop_last()[i] == pad[i]);
        lemma_trim_pad(row, pad.drop_last());
    }
}

/// Text without a line break holds its break at the end.
pub proof fn lemma_find_nl_none(t: Seq<char>)
    requires
        forall|i: int| 0 <= i < t.len() ==> t[i] != '\n',
    ensures
        find_nl(t) == t.len(),
    decreases t.len(),
{
    if t.len() > 0 {
        assert(forall|i: int| 0 <= i < t.len() - 1 ==> t.drop_first()[i] == t[i + 1]);
        lemma_find_nl_none(t.drop_first());
    }
}

/// The first break of `a + '\n' + b` sits right after `a`, when `a`
/// holds none.
pub proof fn lemma_find_nl_concat(a: Seq<char>, b: Seq<char>)
    requires
        forall|i: int| 0 <= i < a.len() ==> a[i] != '\n',
    ensures
        find_nl(a + seq!['\n'] + b) == a.len(),
    decreases a.len(),
{
    let whole = a + seq!['\n'] + b;
    if a.len() == 0 {
        assert(whole[0] == '\n');
    } else {
        assert(whole[0] == a[0]);
        assert(whole[0] != '\n');
        assert(whole.drop_first() =~= a.drop_first() + seq!['\n'] + b);
        assert(forall|i: int| 0 <= i < a.len() - 1 ==> a.drop_first()[i] == a[i + 1]);
        lemma_find_nl_concat(a.drop_first(), b);
    }
}

/// Splitting undoes joining: rows free of line breaks come back exactly.
pub proof fn lemma_split_join(rows: Seq<Seq<char>>)
    requires
        rows.len() >= 1,
        forall|r: int, i: int|
            0 <= r < rows.len() && 0 <= i < rows[r].len() ==> (#[trigger] rows[r][i]) != '\n',
    ensures
        split_lines(join_rows(rows)) == rows,
    decreases rows.len(),
{
    if rows.len() == 1 {
        assert(join_rows(rows) == rows[0]);
        lemma_find_nl_none(rows[0]);
        assert(split_lines(rows[0]) =~= seq![rows[0]]);
        assert(seq![rows[0]] =~= rows);
    } else {
        let rest = rows.drop_first();
        let whole = rows[0] + seq!['\n'] + join_rows(rest);
        assert(join_rows(rows) == whole);
        lemma_find_nl_concat(rows[0], join_rows(rest));
        assert(find_nl(whole) == rows[0].len());
        assert(find_nl(whole) < whole.len()) by {
            assert(whole.len() == rows[0].len() + 1 + join_rows(rest).len());
        }
        assert(whole.take(rows[0].len() as int) =~= rows[0]);
        assert(whole.subrange(rows[0].len() as int + 1, whole.len() as int) =~= join_rows(rest));
        assert(forall|r: int, i: int|
            0 <= r < rest.len() && 0 <= i < rest[r].len() ==> (#[trigger] rest[r][i]) != '\n') by {
            assert(forall|r: int| 0 <= r < rest.len() ==> #[trigger] rest[r] == rows[r + 1]);
        }
        lemma_split_join(rest);
        assert(split_lines(whole) == seq![rows[0]] + rest);
        assert(seq![rows[0]] + rest =~= rows);
    }
}

/// Joining the split lines restores the text exactly: the line model is
/// lossless.
pub proof fn lemma_join_split(t: Seq<char>)
    ensures
        join_rows(split_lines(t)) == t,
    decreases t.len(),
{
    lemma_find_nl_shape(t);
    let i = find_nl(t);
    if i == t.len() {
        assert(split_lines(t) == seq![t]);
        assert(join_rows(seq![t]) == t);
    } else {
        let rest = t.subrange(i + 1, t.len() as int);
        lemma_join_split(rest);
        lemma_split_lines_size(rest);
        assert(split_lines(t) == seq![t.take(i)] + split_lines(rest));
        assert(split_lines(t).len() >= 2);
        assert(split_lines(t)[0] == t.take(i));
        assert(split_lines(t).drop_first() =~= split_lines(rest));
        assert(join_rows(split_lines(t)) == t.take(i) + seq!['\n'] + join_rows(
            split_lines(rest),
        ));
        assert(t.take(i) + seq!['\n'] + rest =~= t) by {
            assert(t[i] == '\n');
        }
    }
}

/// Joining one more row appends a line break and the row.
pub proof fn lemma_join_push(rows: Seq<Seq<char>>, x: Seq<char>)
    requires
        rows.len() >= 1,
    ensures
        join_rows(rows.push(x)) == join_rows(rows) + seq!['\n'] + x,
    decreases rows.len(),
{
    let whole = rows.push(x);
    if rows.len() == 1 {
        assert(whole.len() == 2);
        assert(whole[0] == rows[0]);
        assert(whole.drop_first() =~= seq![x]);
        assert(join_rows(seq![x]) == x);
        assert(join_rows(whole) == rows[0] + seq!['\n'] + x);
        assert(join_rows(rows) == rows[0]);
    } else {
        assert(whole[0] == rows[0]);
        assert(whole.drop_first() =~= rows.drop_first().push(x));
        lemma_join_push(rows.drop_first(), x);
        assert(join_rows(whole) == rows[0] + seq!['\n'] + (join_rows(rows.drop_first())
            + seq!['\n'] + x));
        assert(rows[0] + seq!['\n'] + (join_rows(rows.drop_first()) + seq!['\n'] + x) =~= (rows[0]
            + seq!['\n'] + join_rows(rows.drop_first())) + seq!['\n'] + x);
    }
}

/// Split lines carry no line break.
pub proof fn lemma_split_no_nl(t: Seq<char>)
    ensures
        forall|r: int, i: int|
            0 <= r < split_lines(t).len() && 0 <= i < split_lines(t)[r].len() ==> (
            #[trigger] split_lines(t)[r][i]) != '\n',
    decreases t.len(),
{
    let i = find_nl(t);
    lemma_find_nl_shape(t);
    if i == t.len() {
        assert(split_lines(t) == seq![t]);
        assert(forall|j: int| 0 <= j < t.len() ==> t[j] != '\n');
    } else {
        lemma_split_no_nl(t.subrange(i + 1, t.len() as int));
        let head = t.take(i);
        assert(forall|j: int| 0 <= j < head.len() ==> head[j] == t[j]);
        assert(forall|r: int|
            0 <= r < split_lines(t.subrange(i + 1, t.len() as int)).len() ==> #[trigger] split_lines(
                t,
            )[r + 1] == split_lines(t.subrange(i + 1, t.len() as int))[r]);
    }
}

/// What the break finder promises: no break before it, and a break at it
/// unless it reached the end.
pub proof fn lemma_find_nl_shape(t: Seq<char>)
    ensures
        0 <= find_nl(t) <= t.len(),
        forall|i: int| 0 <= i < find_nl(t) ==> t[i] != '\n',
        find_nl(t) < t.len() ==> t[find_nl(t)] == '\n',
    decreases t.len(),
{
    if t.len() > 0 && t[0] != '\n' {
        lemma_find_nl_shape(t.drop_first());
        assert forall|i: int| 0 <= i < find_nl(t) implies t[i] != '\n' by {
            if i > 0 {
                assert(t.drop_first()[i - 1] == t[i]);
            }
        }
        if find_nl(t) < t.len() {
            assert(t.drop_first()[find_nl(t) - 1] == t[find_nl(t)]);
        }
    }
}

/// Rows past the last non-blank one are blank, and the last non-blank
/// one is not.
pub proof fn lemma_last_nonblank_props(cells: Seq<Seq<char>>)
    ensures
        -1 <= last_nonblank(cells) < cells.len(),
        forall|r: int| last_nonblank(cells) < r < cells.len() ==> row_blank(#[trigger] cells[r]),
        last_nonblank(cells) >= 0 ==> !row_blank(cells[last_nonblank(cells)]),
    decreases cells.len(),
{
    if cells.len() > 0 && row_blank(cells.last()) {
        let pre = cells.drop_last();
        lemma_last_nonblank_props(pre);
        assert forall|r: int| last_nonblank(cells) < r < cells.len() implies row_blank(
            #[trigger] cells[r],
        ) by {
            if r < cells.len() - 1 {
                assert(pre[r] == cells[r]);
                assert(row_blank(pre[r]));
            }
        }
        if last_nonblank(cells) >= 0 {
            assert(pre[last_nonblank(pre)] == cells[last_nonblank(cells)]);
        }
    }
}

/// Rows before the first non-blank one are blank, and the first
/// non-blank one is not.
pub proof fn lemma_first_nonblank_props(cells: Seq<Seq<char>>)
    ensures
        0 <= first_nonblank(cells) <= cells.len(),
        forall|r: int| 0 <= r < first_nonblank(cells) ==> row_blank(#[trigger] cells[r]),
        first_nonblank(cells) < cells.len() ==> !row_blank(cells[first_nonblank(cells)]),
    decreases cells.len(),
{
    if cells.len() > 0 && row_blank(cells[0]) {
        let rest = cells.drop_first();
        lemma_first_nonblank_props(rest);
        assert forall|r: int| 0 <= r < first_nonblank(cells) implies row_blank(
            #[trigger] cells[r],
        ) by {
            if r > 0 {
                assert(rest[r - 1] == cells[r]);
                assert(row_blank(rest[r - 1]));
            }
        }
        if first_nonblank(cells) < cells.len() {
            assert(rest[first_nonblank(rest)] == cells[first_nonblank(cells)]);
        }
    }
}

/// The two ends agree: where anything is non-blank the first such row
/// sits at or before the last; where nothing is, the first finder runs
/// off the end.
pub proof fn lemma_nonblank_ends(cells: Seq<Seq<char>>)
    ensures
        last_nonblank(cells) >= 0 ==> 0 <= first_nonblank(cells) <= last_nonblank(cells),
        last_nonblank(cells) < 0 ==> first_nonblank(cells) == cells.len(),
        last_nonblank(cells) < 0 ==> forall|r: int|
            0 <= r < cells.len() ==> row_blank(#[trigger] cells[r]),
{
    lemma_last_nonblank_props(cells);
    lemma_first_nonblank_props(cells);
    let f = first_nonblank(cells);
    let l = last_nonblank(cells);
    if l >= 0 {
        if f > l {
            assert(row_blank(cells[l]));
            assert(false);
        }
    } else {
        if f < cells.len() {
            assert(row_blank(cells[f]));
            assert(false);
        }
    }
}


/// Whether a row holds only spaces.
fn row_blank_exec(row: &Vec<char>) -> (b: bool)
    ensures
        b == row_blank(row@),
{
    let mut i: usize = 0;
    while i < row.len()
        invariant
            i <= row@.len(),
            forall|j: int| 0 <= j < i ==> row@[j] == ' ',
        decreases row@.len() - i,
    {
        if row[i] != ' ' {
            return false;
        }
        i += 1;
    }
    true
}

/// A copy of a row without its trailing spaces.
fn trim_copy(row: &Vec<char>) -> (out: Vec<char>)
    ensures
        out@ == trim_row(row@),
{
    let mut out: Vec<char> = Vec::new();
    let mut i: usize = 0;
    while i < row.len()
        invariant
            i <= row@.len(),
            out@ == row@.take(i as int),
        decreases row@.len() - i,
    {
        out.push(row[i]);
        proof {
            assert(out@ =~= row@.take(i + 1));
        }
        i += 1;
    }
    proof {
        assert(row@.take(row@.len() as int) =~= row@);
    }
    while out.len() > 0 && out[out.len() - 1] == ' '
        invariant
            trim_row(out@) == trim_row(row@),
        decreases out@.len(),
    {
        proof {
            assert(out@.last() == ' ');
        }
        out.pop();
    }
    proof {
        lemma_trim_fixed(out@);
    }
    out
}

/// Append one row's characters to a buffer.
pub fn append_chars(out: &mut Vec<char>, src: &Vec<char>)
    ensures
        final(out)@ == old(out)@ + src@,
{
    let ghost base = out@;
    let mut i: usize = 0;
    while i < src.len()
        invariant
            i <= src@.len(),
            out@ == base + src@.take(i as int),
        decreases src@.len() - i,
    {
        out.push(src[i]);
        proof {
            assert(out@ =~= base + src@.take(i + 1));
        }
        i += 1;
    }
    proof {
        assert(src@.take(src@.len() as int) =~= src@);
    }
}

/// The first row index at which the scan stopped is the first non-blank
/// row.
proof fn lemma_first_at(cells: Seq<Seq<char>>, f: int)
    requires
        0 <= f <= cells.len(),
        forall|r: int| 0 <= r < f ==> row_blank(#[trigger] cells[r]),
        f == cells.len() || !row_blank(cells[f]),
    ensures
        first_nonblank(cells) == f,
{
    lemma_first_nonblank_props(cells);
    let ff = first_nonblank(cells);
    if ff < f {
        assert(row_blank(cells[ff]));
        assert(!row_blank(cells[ff]));
    }
    if ff > f {
        assert(f < cells.len());
        assert(row_blank(cells[f]));
    }
}

/// The last row index at which the downward scan stopped is the last
/// non-blank row.
proof fn lemma_last_at(cells: Seq<Seq<char>>, l: int)
    requires
        -1 <= l < cells.len(),
        forall|r: int| l < r < cells.len() ==> row_blank(#[trigger] cells[r]),
        l == -1 || !row_blank(cells[l]),
    ensures
        last_nonblank(cells) == l,
{
    lemma_last_nonblank_props(cells);
    let ll = last_nonblank(cells);
    if ll > l {
        assert(row_blank(cells[ll]));
        assert(!row_blank(cells[ll]));
    }
    if ll < l {
        assert(l >= 0);
        assert(row_blank(cells[l]));
    }
}

impl Grid {
    /// Render the grid as linear text: rows trimmed of trailing spaces and
    /// joined with line breaks, leading and trailing blank rows dropped,
    /// interior blank rows kept. An entirely blank grid renders as empty
    /// text.
    pub fn to_text(&self) -> (text: Vec<char>)
        requires
            self.wf(),
        ensures
            text@ == to_text_spec(self.cells_model()),
    {
        let ghost cm = self.cells_model();
        proof {
            assert(forall|r: int| 0 <= r < cm.len() ==> #[trigger] cm[r] == self.cells@[r]@);
        }
        let h = self.height;
        let mut f: usize = 0;
        while f < h
            invariant
                f <= h,
                h == cm.len(),
                cm == self.cells_model(),
                forall|r: int| 0 <= r < cm.len() ==> #[trigger] cm[r] == self.cells@[r]@,
                forall|r: int| 0 <= r < f ==> row_blank(#[trigger] cm[r]),
            ensures
                f <= h,
                forall|r: int| 0 <= r < f ==> row_blank(#[trigger] cm[r]),
                f < h ==> !row_blank(cm[f as int]),
            decreases h - f,
        {
            if !row_blank_exec(&self.cells[f]) {
                break ;
            }
            f += 1;
        }
        proof {
            lemma_first_at(cm, f as int);
        }
        if f == h {
            proof {
                lemma_nonblank_ends(cm);
                lemma_last_nonblank_props(cm);
                if last_nonblank(cm) >= 0 {
                    assert(!row_blank(cm[last_nonblank(cm)]));
                }
            }
            let empty: Vec<char> = Vec::new();
            proof {
                assert(empty@ =~= to_text_spec(cm));
            }
            return empty;
        }
        let mut l: usize = h - 1;
        while l > f
            invariant
                f <= l < h,
                h == cm.len(),
                cm == self.cells_model(),
                forall|r: int| 0 <= r < cm.len() ==> #[trigger] cm[r] == self.cells@[r]@,
                forall|r: int| l < r < cm.len() ==> row_blank(#[trigger] cm[r]),
            ensures
                f <= l < h,
                forall|r: int| l < r < cm.len() ==> row_blank(#[trigger] cm[r]),
                l == f || !row_blank(cm[l as int]),
            decreases l,
        {
            if !row_blank_exec(&self.cells[l]) {
                break ;
            }
            l -= 1;
        }
        proof {
            assert(!row_blank(cm[l as int]));
            lemma_last_at(cm, l as int);
        }
        let ghost rows = cm.subrange(f as int, l + 1).map_values(|r: Seq<char>| trim_row(r));
        let mut out = trim_copy(&self.cells[f]);
        proof {
            assert(rows[0] == trim_row(cm[f as int]));
            assert(join_rows(rows.take(1)) == rows[0]) by {
                assert(rows.take(1).len() == 1);
                assert(rows.take(1)[0] == rows[0]);
            }
            assert(out@ == join_rows(rows.take(1)));
        }
        let mut r = f + 1;
        while r <= l
            invariant
                f < r <= l + 1,
                l < h,
                h == cm.len(),
                cm == self.cells_model(),
                forall|rr: int| 0 <= rr < cm.len() ==> #[trigger] cm[rr] == self.cells@[rr]@,
                rows == cm.subrange(f as int, l + 1).map_values(|x: Seq<char>| trim_row(x)),
                out@ == join_rows(rows.take(r - f)),
            decreases l + 1 - r,
        {
            out.push('\n');
            let t = trim_copy(&self.cells[r]);
            append_chars(&mut out, &t);
            proof {
                assert(rows[r - f] == trim_row(cm[r as int]));
                lemma_join_push(rows.take(r - f), rows[r - f]);
                assert(rows.take(r - f).push(rows[r - f]) =~= rows.take(r - f + 1));
                assert(out@ == join_rows(rows.take(r - f)) + seq!['\n'] + trim_row(cm[r as int]));
            }
            r += 1;
        }
        proof {
            assert(rows.take(l + 1 - f) =~= rows);
        }
        out
    }
}

/// Split text at its line breaks.
pub fn split_text_exec(text: &Vec<char>) -> (parts: Vec<Vec<char>>)
    ensures
        rows_model(parts@) == split_lines(text@),
{
    let n = text.len();
    let mut parts: Vec<Vec<char>> = Vec::new();
    let mut cur: Vec<char> = Vec::new();
    let mut i: usize = 0;
    proof {
        assert(rows_model(parts@) =~= Seq::<Seq<char>>::empty());
        assert(cur@ + text@.subrange(0, n as int) =~= text@);
        assert(Seq::<Seq<char>>::empty() + split_lines(text@) =~= split_lines(text@));
    }
    while i < n
        invariant
            i <= n,
            n == text@.len(),
            forall|j: int| 0 <= j < cur@.len() ==> cur@[j] != '\n',
            split_lines(text@) == rows_model(parts@) + split_lines(
                cur@ + text@.subrange(i as int, n as int),
            ),
        decreases n - i,
    {
        let c = text[i];
        if c == '\n' {
            proof {
                let rest = text@.subrange(i + 1, n as int);
                assert(cur@ + text@.subrange(i as int, n as int) =~= cur@ + seq!['\n'] + rest);
                lemma_find_nl_concat(cur@, rest);
                let whole = cur@ + seq!['\n'] + rest;
                assert(whole.take(cur@.len() as int) =~= cur@);
                assert(whole.subrange(cur@.len() as int + 1, whole.len() as int) =~= rest);
                assert(find_nl(whole) < whole.len());
                assert(split_lines(whole) == seq![cur@] + split_lines(rest));
            }
            let done = cur;
            parts.push(done);
            cur = Vec::new();
            proof {
                assert(forall|j: int|
                    0 <= j < parts@.len() ==> #[trigger] rows_model(parts@)[j] == parts@[j]@);
                assert(rows_model(parts@) =~= rows_model(parts@.drop_last()) + seq![
                    parts@.last()@,
                ]) by {
                    assert(forall|j: int|
                        0 <= j < parts@.len() - 1 ==> #[trigger] rows_model(parts@.drop_last())[j]
                            == parts@.drop_last()[j]@);
                }
                assert(rows_model(parts@.drop_last()) + seq![parts@.last()@] + split_lines(
                    cur@ + text@.subrange(i + 1, n as int),
                ) =~= rows_model(parts@) + split_lines(cur@ + text@.subrange(i + 1, n as int)));
                assert(cur@ + text@.subrange(i + 1, n as int) =~= text@.subrange(i + 1, n as int));
            }
        } else {
            let ghost oldcur = cur@;
            cur.push(c);
            proof {
                assert(cur@ + text@.subrange(i + 1, n as int) =~= oldcur + text@.subrange(
                    i as int,
                    n as int,
                ));
            }
        }
        i += 1;
    }
    proof {
        assert(cur@ + text@.subrange(n as int, n as int) =~= cur@);
        lemma_find_nl_none(cur@);
        assert(split_lines(cur@) == seq![cur@]);
    }
    parts.push(cur);
    proof {
        assert(rows_model(parts@) =~= rows_model(parts@.drop_last()) + seq![parts@.last()@]) by {
            assert(forall|j: int|
                0 <= j < parts@.len() ==> #[trigger] rows_model(parts@)[j] == parts@[j]@);
            assert(forall|j: int|
                0 <= j < parts@.len() - 1 ==> #[trigger] rows_model(parts@.drop_last())[j]
                    == parts@.drop_last()[j]@);
        }
        assert(rows_model(parts@) =~= split_lines(text@));
    }
    parts
}

impl Grid {
    /// Write edited linear text back onto the grid: every cell is cleared,
    /// then each text line fills its row left to right; characters beyond
    /// the grid's bounds are dropped. Writing empty text blanks the whole
    /// grid.
    pub fn from_text(&mut self, text: &Vec<char>)
        requires
            old(self).wf(),
        ensures
            final(self).wf(),
            final(self).width == old(self).width,
            final(self).height == old(self).height,
            final(self).char_width == old(self).char_width,
            final(self).line_height == old(self).line_height,
            final(self).cells_model() == from_text_cells(
                split_lines(text@),
                old(self).width as int,
                old(self).height as int,
            ),
    {
        let parts = split_text_exec(text);
        let ghost lines = split_lines(text@);
        proof {
            lemma_split_no_nl(text@);
            assert(forall|j: int|
                0 <= j < parts@.len() ==> #[trigger] rows_model(parts@)[j] == parts@[j]@);
        }
        let gw = self.width;
        let gh = self.height;
        let mut cells: Vec<Vec<char>> = Vec::new();
        let mut r: usize = 0;
        while r < gh
            invariant
                r <= gh,
                lines == split_lines(text@),
                rows_model(parts@) == lines,
                forall|j: int|
                    0 <= j < parts@.len() ==> #[trigger] rows_model(parts@)[j] == parts@[j]@,
                cells@.len() == r,
                forall|rr: int|
                    0 <= rr < r ==> (#[trigger] cells@[rr])@ == from_text_cells(
                        lines,
                        gw as int,
                        gh as int,
                    )[rr],
            decreases gh - r,
        {
            let mut row: Vec<char> = Vec::new();
            let mut c: usize = 0;
            while c < gw
                invariant
                    c <= gw,
                    r < gh,
                    lines == split_lines(text@),
                    rows_model(parts@) == lines,
                    forall|j: int|
                        0 <= j < parts@.len() ==> #[trigger] rows_model(parts@)[j] == parts@[j]@,
                    row@.len() == c,
                    forall|cc: int|
                        0 <= cc < c ==> #[trigger] row@[cc] == from_text_cell(
                            lines,
                            r as int,
                            cc,
                        ),
                decreases gw - c,
            {
                let ch = if r < parts.len() && c < parts[r].len() {
                    parts[r][c]
                } else {
                    ' '
                };
                row.push(ch);
                c += 1;
            }
            proof {
                assert(row@ =~= from_text_cells(lines, gw as int, gh as int)[r as int]);
            }
            cells.push(row);
            r += 1;
        }
        self.cells = cells;
        proof {
            lemma_split_no_nl(text@);
            assert(self.cells_model() =~= from_text_cells(lines, gw as int, gh as int)) by {
                assert(forall|rr: int|
                    0 <= rr < self.cells@.len() ==> #[trigger] self.cells_model()[rr]
                        == self.cells@[rr]@);
            }
            assert(cells_wf(self.cells_model(), gw as int, gh as int)) by {
                assert(forall|rr: int, cc: int|
                    0 <= rr < gh && 0 <= cc < gw ==> #[trigger] from_text_cells(
                        lines,
                        gw as int,
                        gh as int,
                    )[rr][cc] == from_text_cell(lines, rr, cc));
            }
        }
    }

    /// Copy a bounded window out of the grid: each visible row trimmed of
    /// trailing spaces, rows joined with line breaks; rows and columns
    /// beyond the grid render blank, whatever the offsets.
    pub fn viewport_text(&self, off_x: usize, off_y: usize, view_w: usize, view_h: usize) -> (text:
        Vec<char>)
        requires
            self.wf(),
        ensures
            text@ == viewport_text_spec(
                self.cells_model(),
                off_x as int,
                off_y as int,
                view_w as int,
                view_h as int,
            ),
    {
        let ghost cm = self.cells_model();
        let ghost vrows = Seq::new(
            view_h as nat,
            |r: int|
                trim_row(
                    Seq::new(
                        view_w as nat,
                        |c: int| viewport_cell(cm, off_x as int, off_y as int, r, c),
                    ),
                ),
        );
        proof {
            assert(forall|r: int| 0 <= r < cm.len() ==> #[trigger] cm[r] == self.cells@[r]@);
        }
        if view_h == 0 {
            let empty: Vec<char> = Vec::new();
            proof {
                assert(vrows =~= Seq::<Seq<char>>::empty());
            }
            return empty;
        }
        let first = self.viewport_row(off_x, off_y, view_w, 0);
        let mut out = trim_copy(&first);
        proof {
            assert(out@ == vrows[0]);
            assert(join_rows(vrows.take(1)) == vrows[0]) by {
                assert(vrows.take(1).len() == 1);
                assert(vrows.take(1)[0] == vrows[0]);
            }
        }
        let mut r: usize = 1;
        while r < view_h
            invariant
                1 <= r <= view_h,
                cm == self.cells_model(),
                self.wf(),
                vrows == Seq::new(
                    view_h as nat,
                    |rr: int|
                        trim_row(
                            Seq::new(
                                view_w as nat,
                                |c: int| viewport_cell(cm, off_x as int, off_y as int, rr, c),
                            ),
                        ),
                ),
                out@ == join_rows(vrows.take(r as int)),
            decreases view_h - r,
        {
            out.push('\n');
            let rowv = self.viewport_row(off_x, off_y, view_w, r);
            let t = trim_copy(&rowv);
            append_chars(&mut out, &t);
            proof {
                assert(t@ == vrows[r as int]);
                lemma_join_push(vrows.take(r as int), vrows[r as int]);
                assert(vrows.take(r as int).push(vrows[r as int]) =~= vrows.take(r + 1));
            }
            r += 1;
        }
        proof {
            assert(vrows.take(view_h as int) =~= vrows);
        }
        out
    }

    /// One untrimmed viewport row.
    fn viewport_row(&self, off_x: usize, off_y: usize, view_w: usize, r: usize) -> (row: Vec<char>)
        requires
            self.wf(),
        ensures
            row@ == Seq::new(
                view_w as nat,
                |c: int| viewport_cell(self.cells_model(), off_x as int, off_y as int, r as int, c),
            ),
    {
        let ghost cm = self.cells_model();
        proof {
            assert(forall|rr: int| 0 <= rr < cm.len() ==> #[trigger] cm[rr] == self.cells@[rr]@);
        }
        let mut row: Vec<char> = Vec::new();
        let mut c: usize = 0;
        while c < view_w
            invariant
                c <= view_w,
                cm == self.cells_model(),
                self.wf(),
                forall|rr: int| 0 <= rr < cm.len() ==> #[trigger] cm[rr] == self.cells@[rr]@,
                row@.len() == c,
                forall|cc: int|
                    0 <= cc < c ==> #[trigger] row@[cc] == viewport_cell(
                        cm,
                        off_x as int,
                        off_y as int,
                        r as int,
                        cc,
                    ),
            decreases view_w - c,
        {
            let mut ch = ' ';
            if off_y < self.height && r < self.height - off_y && off_x < self.width && c
                < self.width - off_x {
                let gy = off_y + r;
                let gx = off_x + c;
                proof {
                    assert(cm[gy as int] == self.cells@[gy as int]@);
                    assert(cm[gy as int].len() == self.width as int);
                }
                ch = self.cells[gy][gx];
            }
            row.push(ch);
            c += 1;
        }
        proof {
            assert(row@ =~= Seq::new(
                view_w as nat,
                |cc: int| viewport_cell(cm, off_x as int, off_y as int, r as int, cc),
            ));
        }
        row
    }
}

/// Splitting yields at least one line, never more than one per
/// character plus one, and no line longer than the text.
pub proof fn lemma_split_lines_size(t: Seq<char>)
    ensures
        1 <= split_lines(t).len() <= t.len() + 1,
        forall|r: int|
            0 <= r < split_lines(t).len() ==> (#[trigger] split_lines(t)[r]).len() <= t.len(),
    decreases t.len(),
{
    lemma_find_nl_shape(t);
    let i = find_nl(t);
    if i < t.len() {
        let rest = t.subrange(i + 1, t.len() as int);
        lemma_split_lines_size(rest);
        assert(split_lines(t) == seq![t.take(i)] + split_lines(rest));
        assert forall|r: int| 0 <= r < split_lines(t).len() implies (
        #[trigger] split_lines(t)[r]).len() <= t.len() by {
            if r == 0 {
                assert(split_lines(t)[0] == t.take(i));
            } else {
                assert(split_lines(t)[r] == split_lines(rest)[r - 1]);
                assert(split_lines(rest)[r - 1].len() <= rest.len());
            }
        }
    }
}

/// Joining blank rows yields nothing but the separating line breaks.
pub proof fn lemma_join_blank(rows: Seq<Seq<char>>)
    requires
        rows.len() >= 1,
        forall|r: int| 0 <= r < rows.len() ==> (#[trigger] rows[r]).len() == 0,
    ensures
        join_rows(rows).len() == rows.len() - 1,
        forall|i: int| 0 <= i < rows.len() - 1 ==> #[trigger] join_rows(rows)[i] == '\n',
    decreases rows.len(),
{
    if rows.len() > 1 {
        let rest = rows.drop_first();
        assert(forall|r: int| 0 <= r < rest.len() ==> #[trigger] rest[r] == rows[r + 1]);
        lemma_join_blank(rest);
        assert(rows[0].len() == 0);
        let whole = rows[0] + seq!['\n'] + join_rows(rest);
        assert forall|i: int| 0 <= i < rows.len() - 1 implies #[trigger] join_rows(rows)[i]
            == '\n' by {
            if i == 0 {
                assert(whole[0] == '\n');
            } else {
                assert(whole[i] == join_rows(rest)[i - 1]);
            }
        }
    }
}

/// Law: the viewport is safe at any offset — a window opened entirely
/// below the grid renders as blank rows, only the separating breaks.
pub proof fn lemma_viewport_blank_beyond(
    cells: Seq<Seq<char>>,
    ox: int,
    oy: int,
    vw: int,
    vh: int,
)
    requires
        oy >= cells.len(),
        vh >= 1,
    ensures
        viewport_text_spec(cells, ox, oy, vw, vh).len() == vh - 1,
        forall|i: int|
            0 <= i < vh - 1 ==> #[trigger] viewport_text_spec(cells, ox, oy, vw, vh)[i] == '\n',
{
    let vrows = Seq::new(
        vh as nat,
        |r: int| trim_row(Seq::new(vw as nat, |c: int| viewport_cell(cells, ox, oy, r, c))),
    );
    assert forall|r: int| 0 <= r < vrows.len() implies (#[trigger] vrows[r]).len() == 0 by {
        let raw = Seq::new(vw as nat, |c: int| viewport_cell(cells, ox, oy, r, c));
        assert(forall|c: int| 0 <= c < raw.len() ==> #[trigger] raw[c] == ' ');
        lemma_trim_blank(raw);
    }
    lemma_join_blank(vrows);
}

/// Law: the grid/text round trip preserves every row's visible content.
/// Writing `to_text`'s rendering back with `from_text` reproduces each
/// row up to trailing spaces, provided the grid carries no leading blank
/// rows (to_text drops those, so a grid whose content starts further down
/// comes back shifted to the top).
pub proof fn lemma_grid_text_round_trip(cells: Seq<Seq<char>>, gw: int, gh: int)
    requires
        cells_wf(cells, gw, gh),
        gw >= 1,
        gh >= 1,
        row_blank(cells[0]) ==> forall|r: int|
            0 <= r < cells.len() ==> row_blank(#[trigger] cells[r]),
    ensures
        forall|r: int|
            0 <= r < gh ==> trim_row(
                #[trigger] from_text_cells(split_lines(to_text_spec(cells)), gw, gh)[r],
            ) == trim_row(cells[r]),
{
    let text = to_text_spec(cells);
    let lines = split_lines(text);
    let out = from_text_cells(lines, gw, gh);
    lemma_last_nonblank_props(cells);
    lemma_nonblank_ends(cells);
    let l = last_nonblank(cells);
    if row_blank(cells[0]) {
        assert(l < 0) by {
            if l >= 0 {
                assert(row_blank(cells[l]));
                assert(!row_blank(cells[l]));
            }
        }
        assert(text =~= Seq::<char>::empty());
        assert(find_nl(text) == 0);
        assert(lines == seq![text]);
        assert forall|r: int| 0 <= r < gh implies trim_row(#[trigger] out[r]) == trim_row(
            cells[r],
        ) by {
            assert(forall|c: int| 0 <= c < gw ==> #[trigger] out[r][c] == ' ');
            assert(row_blank(out[r]));
            lemma_trim_blank(out[r]);
            lemma_trim_blank(cells[r]);
            assert(row_blank(cells[r]));
            assert(trim_row(out[r]) =~= trim_row(cells[r]));
        }
    } else {
        assert(first_nonblank(cells) == 0);
        assert(l >= 0) by {
            if l < 0 {
                assert(first_nonblank(cells) == cells.len());
            }
        }
        let rows = cells.subrange(0, l + 1).map_values(|x: Seq<char>| trim_row(x));
        assert(text == join_rows(rows));
        assert(rows.len() == l + 1);
        assert forall|r: int, i: int|
            0 <= r < rows.len() && 0 <= i < rows[r].len() implies (#[trigger] rows[r][i])
            != '\n' by {
            assert(rows[r] == trim_row(cells[r]));
            lemma_trim_shape(cells[r]);
            lemma_trim_len_le(cells[r]);
            assert(rows[r][i] == cells[r][i]);
        }
        lemma_split_join(rows);
        assert(lines == rows);
        assert forall|r: int| 0 <= r < gh implies trim_row(#[trigger] out[r]) == trim_row(
            cells[r],
        ) by {
            if r <= l {
                assert(lines[r] == trim_row(cells[r]));
                lemma_trim_shape(cells[r]);
                lemma_trim_len_le(cells[r]);
                let tr = trim_row(cells[r]);
                let pad = Seq::new((gw - tr.len()) as nat, |i: int| ' ');
                assert(out[r] =~= tr + pad);
                lemma_trim_pad(tr, pad);
            } else {
                assert(row_blank(cells[r]));
                assert(lines.len() == l + 1);
                assert(forall|c: int| 0 <= c < gw ==> #[trigger] out[r][c] == ' ');
                assert(row_blank(out[r]));
                lemma_trim_blank(out[r]);
                lemma_trim_blank(cells[r]);
                assert(trim_row(out[r]) =~= trim_row(cells[r]));
            }
        }
    }
}

/// Join lines with single line breaks, the inverse of splitting.
pub fn join_lines_exec(parts: &Vec<Vec<char>>) -> (out: Vec<char>)
    requires
        parts@.len() >= 1,
    ensures
        out@ == join_rows(rows_model(parts@)),
{
    let ghost rows = rows_model(parts@);
    proof {
        assert(forall|j: int| 0 <= j < rows.len() ==> #[trigger] rows[j] == parts@[j]@);
    }
    let n = parts.len();
    let mut out: Vec<char> = Vec::new();
    append_chars(&mut out, &parts[0]);
    proof {
        assert(out@ =~= rows[0]);
        assert(rows.take(1).len() == 1 && rows.take(1)[0] == rows[0]);
        assert(out@ == join_rows(rows.take(1)));
    }
    let mut r: usize = 1;
    while r < n
        invariant
            1 <= r <= n,
            n == rows.len(),
            rows == rows_model(parts@),
            forall|j: int| 0 <= j < rows.len() ==> #[trigger] rows[j] == parts@[j]@,
            out@ == join_rows(rows.take(r as int)),
        decreases n - r,
    {
        out.push('\n');
        append_chars(&mut out, &parts[r]);
        proof {
            lemma_join_push(rows.take(r as int), rows[r as int]);
            assert(rows.take(r as int).push(rows[r as int]) =~= rows.take(r + 1));
        }
        r += 1;
    }
    proof {
        assert(rows.take(n as int) =~= rows);
    }
    out
}

} // verus!
