//! Cursor edits on linear text.
//!
//! An editor host owns a cursor as a row and a display column over the
//! flattened text. These functions apply its edits: inserting one
//! character (a line break splits the line), deleting the character
//! before the cursor, and pasting a multi-line snippet. The text is
//! treated as lines split at its breaks; a cursor beyond the existing
//! text first grows it with blank lines and spaces, so an edit can land
//! anywhere on the virtual canvas. Pasting an empty snippet is no edit
//! at all: the text stays exactly as it was.

use vstd::prelude::*;
use crate::bridge::split_lines;
use crate::bridge::split_text_exec;
use crate::bridge::join_rows;
use crate::bridge::join_lines_exec;
use crate::flow::spaces;
use crate::grid::rows_model;

verus! {

/// Cursor coordinates are capped so edits at any reachable position stay
/// inside machine arithmetic.
pub const CURSOR_MAX: usize = 1_000_000_000;

/// The lines grown with empty lines until the cursor's row exists.
pub open spec fn pad_rows(lines: Seq<Seq<char>>, row: int) -> Seq<Seq<char>> {
    if row < lines.len() {
        lines
    } else {
        lines + Seq::new((row + 1 - lines.len()) as nat, |i: int| Seq::<char>::empty())
    }
}

/// A line grown with spaces until the cursor's column exists.
pub open spec fn pad_cols(l: Seq<char>, col: int) -> Seq<char> {
    if col <= l.len() {
        l
    } else {
        l + spaces(col - l.len())
    }
}

/// The lines after one character is inserted at the cursor: a line break
/// splits the cursor's line in two; any other character lands inside it.
pub open spec fn insert_char_lines(lines: Seq<Seq<char>>, row: int, col: int, c: char) -> Seq<
    Seq<char>,
> {
    let ls = pad_rows(lines, row);
    let l = pad_cols(ls[row], col);
    if c == '\n' {
        ls.update(row, l.take(col)).insert(row + 1, l.skip(col))
    } else {
        ls.update(row, l.take(col) + seq![c] + l.skip(col))
    }
}

/// The lines after the character before the cursor is deleted. Only a
/// cursor inside an existing line removes anything; past the line's end
/// it only moves.
pub open spec fn delete_char_lines(lines: Seq<Seq<char>>, row: int, col: int) -> Seq<Seq<char>> {
    if 0 <= row < lines.len() {
        let l = lines[row];
        if col - 1 < l.len() {
            lines.update(row, l.take(col - 1) + l.skip(col))
        } else {
            lines
        }
    } else {
        lines
    }
}

/// The lines after a snippet is pasted at the cursor. An empty snippet
/// changes nothing: pasting nothing is no edit, and the text is not even
/// padded. Otherwise a one-line snippet lands inside the cursor's line; a
/// multi-line snippet splits it, its first line joining the head, its
/// last joining the tail, the middle lines standing on their own.
pub open spec fn insert_text_lines(
    lines: Seq<Seq<char>>,
    row: int,
    col: int,
    clip_text: Seq<char>,
) -> Seq<Seq<char>> {
    if clip_text.len() == 0 {
        lines
    } else {
        let clip = split_lines(clip_text);
        let ls = pad_rows(lines, row);
        let l = pad_cols(ls[row], col);
        if clip.len() <= 1 {
            ls.update(row, l.take(col) + clip[0] + l.skip(col))
        } else {
            ls.take(row) + seq![l.take(col) + clip[0]] + clip.subrange(1, clip.len() - 1) + seq![
                clip.last() + l.skip(col),
            ] + ls.skip(row + 1)
        }
    }
}

/// Grow the parts with empty lines until `row` exists.
fn pad_rows_exec(parts: &mut Vec<Vec<char>>, row: usize)
    requires
        row <= CURSOR_MAX,
    ensures
        rows_model(final(parts)@) == pad_rows(rows_model(old(parts)@), row as int),
        final(parts)@.len() > row,
{
    let ghost lines0 = rows_model(parts@);
    proof {
        assert(forall|j: int| 0 <= j < lines0.len() ==> #[trigger] lines0[j] == parts@[j]@);
    }
    while parts.len() <= row
        invariant
            row <= CURSOR_MAX,
            parts@.len() >= lines0.len(),
            parts@.len() <= row + 1 || parts@.len() == lines0.len(),
            rows_model(parts@) == lines0 + Seq::new(
                (parts@.len() - lines0.len()) as nat,
                |i: int| Seq::<char>::empty(),
            ),
        decreases row + 1 - parts@.len(),
    {
        let ghost op = parts@;
        let blank: Vec<char> = Vec::new();
        proof {
            assert(blank@ =~= Seq::<char>::empty());
        }
        parts.push(blank);
        proof {
            let rhs = lines0 + Seq::new(
                (parts@.len() - lines0.len()) as nat,
                |i: int| Seq::<char>::empty(),
            );
            assert(forall|j: int| 0 <= j < op.len() ==> #[trigger] rows_model(op)[j] == op[j]@);
            assert(forall|j: int|
                0 <= j < parts@.len() ==> #[trigger] rows_model(parts@)[j] == parts@[j]@);
            assert forall|j: int| 0 <= j < parts@.len() implies #[trigger] rows_model(parts@)[j]
                == rhs[j] by {
                if j < op.len() {
                    assert(parts@[j] == op[j]);
                    assert(rows_model(op)[j] == op[j]@);
                } else {
                    assert(parts@[j] == blank);
                    assert(rhs[j] == Seq::<char>::empty());
                }
            }
            assert(rows_model(parts@) =~= rhs);
        }
    }
    proof {
        if lines0.len() > row {
            assert(rows_model(parts@) =~= lines0);
        }
    }
}

/// Grow a line with spaces until `col` exists.
fn pad_cols_exec(l: &mut Vec<char>, col: usize)
    requires
        col <= CURSOR_MAX,
    ensures
        final(l)@ == pad_cols(old(l)@, col as int),
        final(l)@.len() >= col,
{
    let ghost l0 = l@;
    while l.len() < col
        invariant
            col <= CURSOR_MAX,
            l@.len() >= l0.len(),
            l@.len() <= col || l@ == l0,
            l@ == pad_cols(l0, l@.len() as int),
        decreases col - l@.len(),
    {
        l.push(' ');
        proof {
            assert(l@ =~= l0 + spaces(l@.len() - l0.len()));
        }
    }
    proof {
        if l0.len() >= col {
            assert(l@ == l0);
            assert(pad_cols(l0, col as int) == l0);
        } else {
            assert(l@.len() == col);
        }
    }
}

/// Insert one character at the cursor. Returns the new text and the new
/// cursor: after a line break the cursor opens the next line; after any
/// other character it sits one column further right.
pub fn insert_char(text: &Vec<char>, row: usize, col: usize, c: char) -> (r: (
    Vec<char>,
    usize,
    usize,
))
    requires
        row <= CURSOR_MAX,
        col <= CURSOR_MAX,
    ensures
        r.0@ == join_rows(insert_char_lines(split_lines(text@), row as int, col as int, c)),
        c == '\n' ==> r.1 == row + 1 && r.2 == 0,
        c != '\n' ==> r.1 == row && r.2 == col + 1,
{
    let mut parts = split_text_exec(text);
    pad_rows_exec(&mut parts, row);
    let ghost ls = rows_model(parts@);
    let ghost pv = parts@;
    proof {
        assert(forall|j: int| 0 <= j < pv.len() ==> #[trigger] ls[j] == pv[j]@);
    }
    let mut l = parts.remove(row);
    proof {
        assert(l@ == ls[row as int]);
    }
    pad_cols_exec(&mut l, col);
    let ghost lp = l@;
    if c == '\n' {
        let tail = l.split_off(col);
        parts.insert(row, tail);
        parts.insert(row, l);
        proof {
            assert(rows_model(parts@) =~= insert_char_lines(
                split_lines(text@),
                row as int,
                col as int,
                c,
            )) by {
                assert(forall|j: int|
                    0 <= j < parts@.len() ==> #[trigger] rows_model(parts@)[j] == parts@[j]@);
                assert(lp.take(col as int) =~= lp.subrange(0, col as int));
                assert(lp.skip(col as int) =~= lp.subrange(col as int, lp.len() as int));
                assert(insert_char_lines(split_lines(text@), row as int, col as int, c) =~= ls.update(
                    row as int,
                    lp.take(col as int),
                ).insert(row as int + 1, lp.skip(col as int)));
            }
        }
        let out = join_lines_exec(&parts);
        (out, row + 1, 0)
    } else {
        l.insert(col, c);
        parts.insert(row, l);
        proof {
            assert(rows_model(parts@) =~= insert_char_lines(
                split_lines(text@),
                row as int,
                col as int,
                c,
            )) by {
                assert(forall|j: int|
                    0 <= j < parts@.len() ==> #[trigger] rows_model(parts@)[j] == parts@[j]@);
                assert(lp.insert(col as int, c) =~= lp.take(col as int) + seq![c] + lp.skip(
                    col as int,
                ));
            }
        }
        let out = join_lines_exec(&parts);
        (out, row, col + 1)
    }
}

/// Delete the character before the cursor. Returns the new text and the
/// new column: a cursor at the line's start deletes nothing; one past the
/// line's end only moves left.
pub fn delete_char(text: &Vec<char>, row: usize, col: usize) -> (r: (Vec<char>, usize))
    requires
        row <= CURSOR_MAX,
        col <= CURSOR_MAX,
    ensures
        col == 0 ==> r.0@ == text@ && r.1 == 0,
        col > 0 ==> r.0@ == join_rows(
            delete_char_lines(split_lines(text@), row as int, col as int),
        ),
        col > 0 && (row as int) < split_lines(text@).len() ==> r.1 == col - 1,
        col > 0 && (row as int) >= split_lines(text@).len() ==> r.1 == col,
{
    if col == 0 {
        let copy = copy_text(text);
        return (copy, 0);
    }
    let mut parts = split_text_exec(text);
    let ghost ls = rows_model(parts@);
    let ghost pv = parts@;
    proof {
        assert(forall|j: int| 0 <= j < pv.len() ==> #[trigger] ls[j] == pv[j]@);
    }
    if row >= parts.len() {
        proof {
            assert(delete_char_lines(ls, row as int, col as int) == ls);
        }
        let out = join_lines_exec(&parts);
        return (out, col);
    }
    let mut l = parts.remove(row);
    proof {
        assert(l@ == ls[row as int]);
    }
    let ghost lp = l@;
    if col - 1 < l.len() {
        l.remove(col - 1);
        proof {
            assert(l@ =~= lp.take(col - 1) + lp.skip(col as int));
        }
    }
    parts.insert(row, l);
    proof {
        assert(rows_model(parts@) =~= delete_char_lines(ls, row as int, col as int)) by {
            assert(forall|j: int|
                0 <= j < parts@.len() ==> #[trigger] rows_model(parts@)[j] == parts@[j]@);
            if col - 1 < lp.len() {
                assert(delete_char_lines(ls, row as int, col as int) == ls.update(
                    row as int,
                    lp.take(col - 1) + lp.skip(col as int),
                ));
            } else {
                assert(delete_char_lines(ls, row as int, col as int) == ls);
            }
        }
    }
    let out = join_lines_exec(&parts);
    (out, col - 1)
}

/// Paste a snippet at the cursor. Returns the new text and the new
/// cursor, which lands after the pasted material. Pasting an empty
/// snippet returns the text and the cursor unchanged.
pub fn insert_text(text: &Vec<char>, row: usize, col: usize, clip: &Vec<char>) -> (r: (
    Vec<char>,
    usize,
    usize,
))
    requires
        row <= CURSOR_MAX,
        col <= CURSOR_MAX,
        clip@.len() <= CURSOR_MAX,
    ensures
        r.0@ == join_rows(insert_text_lines(split_lines(text@), row as int, col as int, clip@)),
        clip@.len() == 0 ==> r.0@ == text@ && r.1 == row && r.2 == col,
        ({
            let clip_lines = split_lines(clip@);
            &&& (clip@.len() > 0 && clip_lines.len() == 1 ==> r.1 == row && r.2 == col
                + clip_lines[0].len())
            &&& (clip_lines.len() > 1 ==> r.1 == row + clip_lines.len() - 1 && r.2
                == clip_lines.last().len())
        }),
{
    if clip.len() == 0 {
        proof {
            crate::bridge::lemma_join_split(text@);
        }
        let out = copy_text(text);
        return (out, row, col);
    }
    let clip_parts = split_text_exec(clip);
    let ghost cl = split_lines(clip@);
    proof {
        assert(forall|j: int|
            0 <= j < clip_parts@.len() ==> #[trigger] rows_model(clip_parts@)[j]
                == clip_parts@[j]@);
        crate::bridge::lemma_split_lines_size(clip@);
    }
    let mut parts = split_text_exec(text);
    pad_rows_exec(&mut parts, row);
    let ghost ls = rows_model(parts@);
    let ghost pv = parts@;
    proof {
        assert(forall|j: int| 0 <= j < pv.len() ==> #[trigger] ls[j] == pv[j]@);
    }
    let mut l = parts.remove(row);
    proof {
        assert(l@ == ls[row as int]);
    }
    pad_cols_exec(&mut l, col);
    let ghost lp = l@;
    if clip_parts.len() <= 1 {
        if clip_parts.len() == 1 {
            let mut k: usize = 0;
            let m = clip_parts[0].len();
            proof {
                assert(cl[0].len() <= clip@.len());
            }
            while k < m
                invariant
                    k <= m,
                    m == cl[0].len(),
                    m <= CURSOR_MAX,
                    col <= CURSOR_MAX,
                    cl.len() == 1,
                    cl == split_lines(clip@),
                    clip_parts@.len() == 1,
                    clip_parts@[0]@ == cl[0],
                    col <= l@.len(),
                    lp == pad_cols(ls[row as int], col as int),
                    l@ == lp.take(col as int) + cl[0].take(k as int) + lp.skip(col as int),
                decreases m - k,
            {
                l.insert(col + k, clip_parts[0][k]);
                proof {
                    assert(l@ =~= lp.take(col as int) + cl[0].take(k + 1) + lp.skip(col as int));
                }
                k += 1;
            }
            proof {
                assert(cl[0].take(m as int) =~= cl[0]);
            }
        } else {
            // splitting always yields at least one line, so no snippet
            // reaches this arm
            proof {
                assert(rows_model(clip_parts@).len() == split_lines(clip@).len());
                assert(false);
            }
        }
        parts.insert(row, l);
        proof {
            assert(rows_model(parts@) =~= insert_text_lines(
                split_lines(text@),
                row as int,
                col as int,
                clip@,
            )) by {
                assert(clip@.len() > 0);
                assert(forall|j: int|
                    0 <= j < parts@.len() ==> #[trigger] rows_model(parts@)[j] == parts@[j]@);
            }
        }
        let out = join_lines_exec(&parts);
        let ins_len = clip_parts[0].len();
        (out, row, col + ins_len)
    } else {
        let tail = l.split_off(col);
        // head: the cursor line's start joined to the snippet's first line
        let mut head = l;
        append_chars_vec(&mut head, &clip_parts[0]);
        // last: the snippet's last line joined to the cursor line's rest
        let mut last = copy_text(&clip_parts[clip_parts.len() - 1]);
        append_chars_vec(&mut last, &tail);
        let last_len = clip_parts[clip_parts.len() - 1].len();
        let ghost pr = parts@;
        parts.insert(row, last);
        let mut k = clip_parts.len() - 1;
        proof {
            assert(tail@ =~= lp.skip(col as int));
            assert(last@ == cl.last() + lp.skip(col as int)) by {
                assert(clip_parts@[clip_parts@.len() - 1]@ == cl.last());
            }
            let rhs = ls.take(row as int) + cl.subrange(k as int, cl.len() - 1) + seq![
                cl.last() + lp.skip(col as int),
            ] + ls.skip(row as int + 1);
            assert(pr == pv.remove(row as int));
            assert(parts@ == pr.insert(row as int, last));
            assert(forall|j: int|
                0 <= j < parts@.len() ==> #[trigger] rows_model(parts@)[j] == parts@[j]@);
            assert forall|j: int| 0 <= j < parts@.len() implies #[trigger] rows_model(parts@)[j]
                == rhs[j] by {
                if j < row {
                    assert(parts@[j] == pr[j]);
                    assert(pr[j] == pv[j]);
                } else if j == row {
                    assert(parts@[j] == last);
                } else {
                    assert(parts@[j] == pr[j - 1]);
                    assert(pr[j - 1] == pv[j]);
                }
            }
            assert(rows_model(parts@) =~= rhs);
        }
        while k > 1
            invariant
                1 <= k <= cl.len() - 1,
                cl.len() >= 2,
                cl == split_lines(clip@),
                rows_model(clip_parts@) == cl,
                forall|j: int|
                    0 <= j < clip_parts@.len() ==> #[trigger] rows_model(clip_parts@)[j]
                        == clip_parts@[j]@,
                row < parts@.len(),
                row < ls.len(),
                row <= CURSOR_MAX,
                rows_model(parts@) == ls.take(row as int) + cl.subrange(k as int, cl.len() - 1)
                    + seq![cl.last() + lp.skip(col as int)] + ls.skip(row as int + 1),
            decreases k,
        {
            k -= 1;
            let line_copy = copy_text(&clip_parts[k]);
            let ghost mk = rows_model(parts@);
            let ghost pk = parts@;
            parts.insert(row, line_copy);
            proof {
                let rhs = ls.take(row as int) + cl.subrange(k as int, cl.len() - 1) + seq![
                    cl.last() + lp.skip(col as int),
                ] + ls.skip(row as int + 1);
                assert(line_copy@ == cl[k as int]);
                assert(0 <= (k as int) && (k as int) < cl.len() - 1);
                assert(ls.take(row as int).len() == row as int);
                assert(cl.subrange(k as int, cl.len() - 1)[0] == cl[k as int]);
                assert(parts@ == pk.insert(row as int, line_copy));
                assert(forall|j: int| 0 <= j < mk.len() ==> #[trigger] mk[j] == pk[j]@);
                assert(forall|j: int|
                    0 <= j < parts@.len() ==> #[trigger] rows_model(parts@)[j] == parts@[j]@);
                assert forall|j: int| 0 <= j < parts@.len() implies #[trigger] rows_model(
                    parts@,
                )[j] == rhs[j] by {
                    if j < row {
                        assert(parts@[j] == pk[j]);
                        assert(mk[j] == pk[j]@);
                    } else if j == row {
                        assert(parts@[j] == line_copy);
                        assert(rhs[j] == cl[k as int]);
                    } else {
                        assert(parts@[j] == pk[j - 1]);
                        assert(mk[j - 1] == pk[j - 1]@);
                    }
                }
                assert(rows_model(parts@) =~= rhs);
            }
        }
        let ghost pk2 = parts@;
        let ghost mk2 = rows_model(parts@);
        parts.insert(row, head);
        proof {
            assert(clip@.len() > 0);
            let rhs = insert_text_lines(split_lines(text@), row as int, col as int, clip@);
            assert(lp.take(col as int) =~= lp.subrange(0, col as int));
            assert(lp.skip(col as int) =~= lp.subrange(col as int, lp.len() as int));
            assert(head@ == lp.take(col as int) + cl[0]);
            assert(parts@ == pk2.insert(row as int, head));
            assert(forall|j: int| 0 <= j < mk2.len() ==> #[trigger] mk2[j] == pk2[j]@);
            assert(forall|j: int|
                0 <= j < parts@.len() ==> #[trigger] rows_model(parts@)[j] == parts@[j]@);
            assert forall|j: int| 0 <= j < parts@.len() implies #[trigger] rows_model(parts@)[j]
                == rhs[j] by {
                if j < row {
                    assert(parts@[j] == pk2[j]);
                    assert(mk2[j] == pk2[j]@);
                    assert(mk2[j] == ls[j]);
                } else if j == row {
                    assert(parts@[j] == head);
                } else {
                    assert(parts@[j] == pk2[j - 1]);
                    assert(mk2[j - 1] == pk2[j - 1]@);
                }
            }
            assert(rows_model(parts@) =~= rhs);
        }
        let out = join_lines_exec(&parts);
        (out, row + (clip_parts.len() - 1), last_len)
    }
}

/// A copy of a character buffer.
fn copy_text(v: &Vec<char>) -> (r: Vec<char>)
    ensures
        r@ == v@,
{
    let mut out: Vec<char> = Vec::new();
    append_chars_vec(&mut out, v);
    proof {
        assert(out@ =~= v@);
    }
    out
}

/// Append one buffer to another.
fn append_chars_vec(out: &mut Vec<char>, src: &Vec<char>)
    ensures
        final(out)@ == old(out)@ + src@,
{
    crate::bridge::append_chars(out, src);
}

} // verus!
