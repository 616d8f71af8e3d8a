//! Classifying a run of lines as table, paragraph or unknown material.
//!
//! Four measurements feed the decision: the variance of the lines' left
//! margins, the average content width, the number of vertical column bins
//! the tokens' horizontal positions merge into, and the fraction of lines
//! holding a big gap between consecutive right edges. The decision rule,
//! first match winning: no lines at all is `Empty`; two or more column bins
//! with big gaps on more than a quarter of the lines is `Table`; a steady
//! left margin with wide content is `Paragraph`; anything else is
//! `Unknown`. The rule is a heuristic: `Unknown` is an expected outcome,
//! not an error.

use vstd::prelude::*;
use crate::config::COORD_MAX;
use crate::config::TOKEN_MAX;
use crate::config::LayoutConfig;
use crate::token::Line;
use crate::token::LineModel;
use crate::token::TokenModel;
use crate::token::token_wf;
use crate::token::line_wf;
use crate::token::line_models;

verus! {

/// The category a block of lines falls into. A closed set: every block is
/// exactly one of these.
#[derive(Debug, Clone, Copy, PartialEq, Eq, Structural)]
pub enum Classification {
    Table,
    Paragraph,
    Unknown,
    Empty,
}

/// A token's right edge.
pub open spec fn edge_of(t: TokenModel) -> int {
    t.h_pos + t.width
}

/// The left margin of a line: its leftmost token's position.
pub open spec fn left_margin(l: LineModel) -> int {
    l.tokens[0].h_pos
}

/// The rightmost edge over a token run.
pub open spec fn max_right(s: Seq<TokenModel>) -> int
    decreases s.len(),
{
    if s.len() <= 1 {
        if s.len() == 1 {
            edge_of(s[0])
        } else {
            0
        }
    } else {
        let m = max_right(s.drop_last());
        let e = edge_of(s.last());
        if e > m {
            e
        } else {
            m
        }
    }
}

/// The visual width of a line's content.
pub open spec fn content_width(l: LineModel) -> int {
    max_right(l.tokens) - left_margin(l)
}

/// Sum of the lines' left margins.
pub open spec fn sum_margins(lines: Seq<LineModel>) -> int
    decreases lines.len(),
{
    if lines.len() == 0 {
        0
    } else {
        sum_margins(lines.drop_last()) + left_margin(lines.last())
    }
}

/// Sum of the squares of the lines' left margins.
pub open spec fn sum_margin_squares(lines: Seq<LineModel>) -> int
    decreases lines.len(),
{
    if lines.len() == 0 {
        0
    } else {
        sum_margin_squares(lines.drop_last()) + left_margin(lines.last()) * left_margin(
            lines.last(),
        )
    }
}

/// The left margins vary less than `limit`: the variance comparison
/// `sum((m - mean)^2) / n < limit` cleared of divisions,
/// `n * sum(m^2) - sum(m)^2 < limit * n^2`.
pub open spec fn margins_steady(lines: Seq<LineModel>, limit: int) -> bool {
    let n = lines.len() as int;
    n * sum_margin_squares(lines) - sum_margins(lines) * sum_margins(lines) < limit * n * n
}

/// Sum of the lines' content widths.
pub open spec fn sum_widths(lines: Seq<LineModel>) -> int
    decreases lines.len(),
{
    if lines.len() == 0 {
        0
    } else {
        sum_widths(lines.drop_last()) + content_width(lines.last())
    }
}

/// The lines' average content width exceeds `min_width`.
pub open spec fn body_wide(lines: Seq<LineModel>, min_width: int) -> bool {
    sum_widths(lines) > min_width * lines.len()
}

/// Distance between two values.
pub open spec fn dist(a: int, b: int) -> int {
    if a >= b {
        a - b
    } else {
        b - a
    }
}

/// One horizontal position folded into the column bins: it joins the first
/// bin whose centroid lies within `thresh`, moving that centroid to the
/// midpoint; otherwise it founds a new bin at the end.
pub open spec fn bin_step(bins: Seq<int>, h: int, thresh: int) -> Seq<int>
    decreases bins.len(),
{
    if bins.len() == 0 {
        seq![h]
    } else if dist(bins[0], h) <= thresh {
        bins.update(0, (bins[0] + h) / 2)
    } else {
        seq![bins[0]] + bin_step(bins.drop_first(), h, thresh)
    }
}

/// The column bins after folding in every position, in order.
pub open spec fn bins_of(hs: Seq<int>, thresh: int) -> Seq<int>
    decreases hs.len(),
{
    if hs.len() == 0 {
        Seq::<int>::empty()
    } else {
        bin_step(bins_of(hs.drop_last(), thresh), hs.last(), thresh)
    }
}

/// The horizontal positions of a line's tokens, shifted onto a nonnegative
/// scale so the midpoint arithmetic stays in unsigned range.
pub open spec fn line_shifted_hs(l: LineModel) -> Seq<int> {
    l.tokens.map_values(|t: TokenModel| t.h_pos + COORD_MAX)
}

/// Every token position across the lines, shifted, in line order.
pub open spec fn all_shifted_hs(lines: Seq<LineModel>) -> Seq<int>
    decreases lines.len(),
{
    if lines.len() == 0 {
        Seq::<int>::empty()
    } else {
        all_shifted_hs(lines.drop_last()) + line_shifted_hs(lines.last())
    }
}

/// How many column bins the block's token positions merge into.
pub open spec fn column_bin_count(lines: Seq<LineModel>, thresh: int) -> int {
    bins_of(all_shifted_hs(lines), thresh).len() as int
}

/// Whether position `i` of the line opens a big gap: some right edge lies
/// beyond it, and none within `gap` of it.
pub open spec fn gap_at(l: LineModel, i: int, gap: int) -> bool {
    &&& forall|j: int|
        0 <= j < l.tokens.len() ==> edge_of(#[trigger] l.tokens[j]) <= edge_of(l.tokens[i])
            || edge_of(l.tokens[j]) > edge_of(l.tokens[i]) + gap
    &&& exists|j: int| 0 <= j < l.tokens.len() && edge_of(#[trigger] l.tokens[j]) > edge_of(
        l.tokens[i],
    )
}

/// Whether the line's sorted right edges leave a gap wider than `gap`
/// somewhere: some edge has a successor, and none within `gap`.
pub open spec fn has_big_gap(l: LineModel, gap: int) -> bool {
    exists|i: int| 0 <= i < l.tokens.len() && #[trigger] gap_at(l, i, gap)
}

/// How many lines hold a big gap.
pub open spec fn big_gap_count(lines: Seq<LineModel>, gap: int) -> int
    decreases lines.len(),
{
    if lines.len() == 0 {
        0
    } else {
        big_gap_count(lines.drop_last(), gap) + if has_big_gap(lines.last(), gap) {
            1int
        } else {
            0int
        }
    }
}

/// Big gaps on more than a quarter of the lines.
pub open spec fn big_gap_quarter(lines: Seq<LineModel>, gap: int) -> bool {
    4 * big_gap_count(lines, gap) > lines.len()
}

/// The classifier's decision rule, first match winning.
pub open spec fn classify_spec(lines: Seq<LineModel>, cfg: LayoutConfig) -> Classification {
    if lines.len() == 0 {
        Classification::Empty
    } else if column_bin_count(lines, cfg.col_bin_threshold as int) >= 2 && big_gap_quarter(
        lines,
        cfg.big_gap_threshold as int,
    ) {
        Classification::Table
    } else if margins_steady(lines, cfg.margin_var_limit as int) && body_wide(
        lines,
        cfg.body_width_min as int,
    ) {
        Classification::Paragraph
    } else {
        Classification::Unknown
    }
}

/// Law: classification is total over a closed set of categories, and a
/// block with no lines is always — and only — `Empty`.
pub proof fn lemma_classification_total(lines: Seq<LineModel>, cfg: LayoutConfig)
    ensures
        classify_spec(lines, cfg) is Table || classify_spec(lines, cfg) is Paragraph
            || classify_spec(lines, cfg) is Unknown || classify_spec(lines, cfg) is Empty,
        classify_spec(lines, cfg) is Empty <==> lines.len() == 0,
{
}


/// The integer images of a vector of unsigned values.
pub open spec fn to_ints(s: Seq<u64>) -> Seq<int> {
    s.map_values(|x: u64| x as int)
}

/// The left margin of a line.
fn left_margin_exec(l: &Line) -> (m: i64)
    requires
        l@.tokens.len() >= 1,
    ensures
        m as int == left_margin(l@),
{
    proof {
        assert(l@.tokens[0] == l.tokens@[0]@);
    }
    l.tokens[0].h_pos
}

/// The rightmost edge over a line's tokens.
fn max_right_exec(l: &Line) -> (e: i64)
    requires
        line_wf(l@),
    ensures
        e as int == max_right(l@.tokens),
        -2 * COORD_MAX <= e <= 2 * COORD_MAX,
{
    let ghost toks = l@.tokens;
    proof {
        assert(forall|i: int| 0 <= i < toks.len() ==> #[trigger] toks[i] == l.tokens@[i]@);
        assert(toks.take(1).len() == 1 && toks.take(1)[0] == toks[0]);
    }
    let n = l.tokens.len();
    let mut e: i64 = l.tokens[0].h_pos + l.tokens[0].width;
    let mut i: usize = 1;
    while i < n
        invariant
            1 <= i <= n,
            n == toks.len(),
            toks == l@.tokens,
            line_wf(l@),
            forall|j: int| 0 <= j < toks.len() ==> #[trigger] toks[j] == l.tokens@[j]@,
            e as int == max_right(toks.take(i as int)),
            -2 * COORD_MAX <= e <= 2 * COORD_MAX,
        decreases n - i,
    {
        proof {
            assert(token_wf(toks[i as int]));
            assert(toks.take(i + 1).drop_last() =~= toks.take(i as int));
            assert(toks.take(i + 1).last() == toks[i as int]);
        }
        let edge = l.tokens[i].h_pos + l.tokens[i].width;
        if edge > e {
            e = edge;
        }
        i += 1;
    }
    proof {
        assert(toks.take(n as int) =~= toks);
    }
    e
}

/// Whether the line's right edges leave a gap wider than `gap` somewhere.
fn has_big_gap_exec(l: &Line, gap: u64) -> (b: bool)
    requires
        line_wf(l@),
        gap <= COORD_MAX,
    ensures
        b == has_big_gap(l@, gap as int),
{
    let ghost toks = l@.tokens;
    proof {
        assert(forall|i: int| 0 <= i < toks.len() ==> #[trigger] toks[i] == l.tokens@[i]@);
    }
    let n = l.tokens.len();
    let g = gap as i64;
    let mut i: usize = 0;
    while i < n
        invariant
            i <= n,
            n == toks.len(),
            toks == l@.tokens,
            line_wf(l@),
            g == gap as i64,
            gap <= COORD_MAX,
            forall|j: int| 0 <= j < toks.len() ==> #[trigger] toks[j] == l.tokens@[j]@,
            forall|ii: int| 0 <= ii < i ==> !#[trigger] gap_at(l@, ii, gap as int),
        decreases n - i,
    {
        proof {
            assert(token_wf(toks[i as int]));
        }
        let ei = l.tokens[i].h_pos + l.tokens[i].width;
        let mut any_greater = false;
        let mut none_between = true;
        let mut j: usize = 0;
        while j < n
            invariant
                j <= n,
                n == toks.len(),
                toks == l@.tokens,
                line_wf(l@),
                i < n,
                g == gap as i64,
                gap <= COORD_MAX,
                ei as int == edge_of(toks[i as int]),
                -2 * COORD_MAX <= ei <= 2 * COORD_MAX,
                forall|jj: int| 0 <= jj < toks.len() ==> #[trigger] toks[jj] == l.tokens@[jj]@,
                any_greater == exists|jj: int|
                    0 <= jj < j && edge_of(#[trigger] toks[jj]) > edge_of(toks[i as int]),
                none_between == forall|jj: int|
                    0 <= jj < j ==> edge_of(#[trigger] toks[jj]) <= edge_of(toks[i as int])
                        || edge_of(toks[jj]) > edge_of(toks[i as int]) + gap,
            decreases n - j,
        {
            proof {
                assert(token_wf(toks[j as int]));
            }
            let ej = l.tokens[j].h_pos + l.tokens[j].width;
            if ej > ei {
                any_greater = true;
                proof {
                    assert(edge_of(toks[j as int]) > edge_of(toks[i as int]));
                }
            }
            if ej > ei && ej <= ei + g {
                none_between = false;
            }
            j += 1;
        }
        if any_greater && none_between {
            proof {
                assert(gap_at(l@, i as int, gap as int));
            }
            return true;
        }
        proof {
            assert(!gap_at(l@, i as int, gap as int));
        }
        i += 1;
    }
    proof {
        assert(!has_big_gap(l@, gap as int));
    }
    false
}

/// The left-margin sum and square sum over the lines.
fn margin_sums_exec(lines: &Vec<Line>) -> (r: (i128, i128))
    requires
        lines@.len() <= TOKEN_MAX,
        forall|i: int| 0 <= i < lines@.len() ==> line_wf((#[trigger] lines@[i])@),
    ensures
        r.0 == sum_margins(line_models(lines@)),
        r.1 == sum_margin_squares(line_models(lines@)),
{
    let ghost lm = line_models(lines@);
    proof {
        assert(forall|i: int| 0 <= i < lm.len() ==> #[trigger] lm[i] == lines@[i]@);
    }
    let n = lines.len();
    let mut sm: i128 = 0;
    let mut sq: i128 = 0;
    let mut i: usize = 0;
    while i < n
        invariant
            i <= n,
            n == lines@.len(),
            n <= TOKEN_MAX,
            lm == line_models(lines@),
            forall|j: int| 0 <= j < lm.len() ==> line_wf(#[trigger] lm[j]),
            sm == sum_margins(lm.take(i as int)),
            sq == sum_margin_squares(lm.take(i as int)),
            -(i as int) * COORD_MAX <= sm <= i as int * COORD_MAX,
            0 <= sq <= i as int * COORD_MAX * COORD_MAX,
        decreases n - i,
    {
        proof {
            assert(line_wf(lm[i as int]));
            assert(lm[i as int] == lines@[i as int]@);
            assert(lm.take(i + 1).drop_last() =~= lm.take(i as int));
            assert(lm.take(i + 1).last() == lm[i as int]);
        }
        let m = left_margin_exec(&lines[i]);
        proof {
            assert(lm[i as int].tokens[0] == lines@[i as int]@.tokens[0]);
            assert(token_wf(lm[i as int].tokens[0]));
            assert(-COORD_MAX <= m as int <= COORD_MAX);
            assert(0 <= (m as i128) * (m as i128) <= COORD_MAX * COORD_MAX) by (nonlinear_arith)
                requires
                    -COORD_MAX <= m as i128 <= COORD_MAX,
            ;
            assert((i as int) * COORD_MAX + COORD_MAX == (i + 1) * COORD_MAX) by (nonlinear_arith);
            assert((i + 1) * COORD_MAX <= TOKEN_MAX * COORD_MAX) by (nonlinear_arith)
                requires
                    0 <= i + 1 <= TOKEN_MAX as int,
            ;
            assert((i as int) * COORD_MAX * COORD_MAX + COORD_MAX * COORD_MAX == (i + 1) * COORD_MAX
                * COORD_MAX) by (nonlinear_arith);
            assert((i + 1) * COORD_MAX * COORD_MAX <= TOKEN_MAX * COORD_MAX * COORD_MAX)
                by (nonlinear_arith)
                requires
                    0 <= i + 1 <= TOKEN_MAX as int,
            ;
        }
        sm = sm + (m as i128);
        sq = sq + (m as i128) * (m as i128);
        i += 1;
    }
    proof {
        assert(lm.take(n as int) =~= lm);
    }
    (sm, sq)
}

/// Content widths are bounded by the canvas, so their sums stay small.
pub proof fn lemma_sum_widths_bounds(lines: Seq<LineModel>)
    requires
        forall|i: int| 0 <= i < lines.len() ==> line_wf(#[trigger] lines[i]),
    ensures
        sum_widths(lines) <= (lines.len() as int) * (3 * COORD_MAX),
        sum_widths(lines) >= -((lines.len() as int) * (3 * COORD_MAX)),
    decreases lines.len(),
{
    if lines.len() > 0 {
        let pre = lines.drop_last();
        assert(forall|i: int| 0 <= i < pre.len() ==> #[trigger] pre[i] == lines[i]);
        lemma_sum_widths_bounds(pre);
        let l = lines.last();
        assert(line_wf(l));
        lemma_max_right_bounds(l.tokens);
        assert(token_wf(l.tokens[0]));
        assert(-3 * COORD_MAX <= content_width(l) <= 3 * COORD_MAX);
        assert((lines.len() as int - 1) * (3 * COORD_MAX) + 3 * COORD_MAX == (lines.len() as int)
            * (3 * COORD_MAX)) by (nonlinear_arith);
    }
}

/// The rightmost edge over well-formed tokens stays on the canvas.
pub proof fn lemma_max_right_bounds(s: Seq<TokenModel>)
    requires
        forall|i: int| 0 <= i < s.len() ==> token_wf(#[trigger] s[i]),
        s.len() >= 1,
    ensures
        -2 * COORD_MAX <= max_right(s) <= 2 * COORD_MAX,
    decreases s.len(),
{
    if s.len() > 1 {
        let pre = s.drop_last();
        assert(forall|i: int| 0 <= i < pre.len() ==> #[trigger] pre[i] == s[i]);
        lemma_max_right_bounds(pre);
        assert(token_wf(s.last()));
    } else {
        assert(token_wf(s[0]));
    }
}

/// The content-width sum over the lines.
fn width_sum_exec(lines: &Vec<Line>) -> (w: i128)
    requires
        lines@.len() <= TOKEN_MAX,
        forall|i: int| 0 <= i < lines@.len() ==> line_wf((#[trigger] lines@[i])@),
    ensures
        w == sum_widths(line_models(lines@)),
{
    let ghost lm = line_models(lines@);
    proof {
        assert(forall|i: int| 0 <= i < lm.len() ==> #[trigger] lm[i] == lines@[i]@);
    }
    let n = lines.len();
    let mut w: i128 = 0;
    let mut i: usize = 0;
    while i < n
        invariant
            i <= n,
            n == lines@.len(),
            n <= TOKEN_MAX,
            lm == line_models(lines@),
            forall|j: int| 0 <= j < lm.len() ==> line_wf(#[trigger] lm[j]),
            w == sum_widths(lm.take(i as int)),
        decreases n - i,
    {
        proof {
            assert(line_wf(lm[i as int]));
            assert(lm[i as int] == lines@[i as int]@);
            assert(lm.take(i + 1).drop_last() =~= lm.take(i as int));
            assert(lm.take(i + 1).last() == lm[i as int]);
        }
        let r = max_right_exec(&lines[i]);
        let m = left_margin_exec(&lines[i]);
        proof {
            assert(lm[i as int].tokens[0] == lines@[i as int]@.tokens[0]);
            assert(token_wf(lm[i as int].tokens[0]));
            assert(-COORD_MAX <= m as int <= COORD_MAX);
            assert(forall|j: int|
                0 <= j < lm.take(i as int).len() ==> line_wf(#[trigger] lm.take(i as int)[j]));
            lemma_sum_widths_bounds(lm.take(i as int));
            assert((i as int) * (3 * COORD_MAX) <= TOKEN_MAX * (3 * COORD_MAX))
                by (nonlinear_arith)
                requires
                    0 <= i as int <= TOKEN_MAX as int,
            ;
            assert(-2 * COORD_MAX <= r as int <= 2 * COORD_MAX);
            assert(-3 * COORD_MAX <= (r as i128) - (m as i128) <= 3 * COORD_MAX);
            assert(lm.take(i as int).len() == i as int);
        }
        let cw = (r as i128) - (m as i128);
        w = w + cw;
        i += 1;
    }
    proof {
        assert(lm.take(n as int) =~= lm);
    }
    w
}

/// Where the scan found no bin within reach before position `b`, the fold
/// touches exactly the bin at `b`, or opens a new one at the end.
pub proof fn lemma_bin_step_at(bins: Seq<int>, h: int, thresh: int, b: int)
    requires
        0 <= b <= bins.len(),
        forall|i: int| 0 <= i < b ==> dist(#[trigger] bins[i], h) > thresh,
        b == bins.len() || dist(bins[b], h) <= thresh,
    ensures
        bin_step(bins, h, thresh) == if b < bins.len() {
            bins.update(b, (bins[b] + h) / 2)
        } else {
            bins + seq![h]
        },
    decreases b,
{
    if b == 0 {
        if bins.len() == 0 {
            assert(bin_step(bins, h, thresh) == seq![h]);
            assert(bins + seq![h] =~= seq![h]);
        }
    } else {
        let rest = bins.drop_first();
        assert(dist(bins[0], h) > thresh);
        assert(bin_step(bins, h, thresh) == seq![bins[0]] + bin_step(rest, h, thresh));
        assert(forall|i: int| 0 <= i < rest.len() ==> #[trigger] rest[i] == bins[i + 1]);
        lemma_bin_step_at(rest, h, thresh, b - 1);
        if b < bins.len() {
            assert(rest[b - 1] == bins[b]);
            assert(seq![bins[0]] + rest.update(b - 1, (bins[b] + h) / 2) =~= bins.update(
                b,
                (bins[b] + h) / 2,
            ));
        } else {
            assert(seq![bins[0]] + (rest + seq![h]) =~= bins + seq![h]);
        }
    }
}

/// Every token position across the lines, shifted onto the nonnegative
/// scale, gathered in line order.
#[verifier::rlimit(100)]
fn collect_shifted_hs(lines: &Vec<Line>) -> (v: Vec<u64>)
    requires
        forall|i: int| 0 <= i < lines@.len() ==> line_wf((#[trigger] lines@[i])@),
    ensures
        to_ints(v@) == all_shifted_hs(line_models(lines@)),
        forall|i: int| 0 <= i < v@.len() ==> #[trigger] v@[i] <= 2 * COORD_MAX,
{
    let ghost lm = line_models(lines@);
    proof {
        assert(forall|i: int| 0 <= i < lm.len() ==> #[trigger] lm[i] == lines@[i]@);
    }
    let n = lines.len();
    let mut v: Vec<u64> = Vec::new();
    let mut i: usize = 0;
    proof {
        assert(to_ints(v@) =~= all_shifted_hs(lm.take(0)));
    }
    while i < n
        invariant
            i <= n,
            n == lines@.len(),
            lm == line_models(lines@),
            forall|j: int| 0 <= j < lm.len() ==> line_wf(#[trigger] lm[j]),
            to_ints(v@) == all_shifted_hs(lm.take(i as int)),
            forall|j: int| 0 <= j < v@.len() ==> #[trigger] v@[j] <= 2 * COORD_MAX,
        decreases n - i,
    {
        let ghost l = lm[i as int];
        proof {
            assert(line_wf(l));
            assert(l == lines@[i as int]@);
        }
        let m = lines[i].tokens.len();
        let mut j: usize = 0;
        while j < m
            invariant
                j <= m,
                i < n,
                n == lines@.len(),
                lm == line_models(lines@),
                l == lm[i as int],
                line_wf(l),
                l == lines@[i as int]@,
                m == l.tokens.len(),
                forall|jj: int| 0 <= jj < lm.len() ==> line_wf(#[trigger] lm[jj]),
                to_ints(v@) == all_shifted_hs(lm.take(i as int)) + line_shifted_hs(l).take(
                    j as int,
                ),
                forall|jj: int| 0 <= jj < v@.len() ==> #[trigger] v@[jj] <= 2 * COORD_MAX,
            decreases m - j,
        {
            proof {
                assert(l.tokens[j as int] == lines@[i as int].tokens@[j as int]@);
                assert(token_wf(l.tokens[j as int]));
            }
            let h = lines[i].tokens[j].h_pos + COORD_MAX;
            let ghost oldv = v@;
            v.push(h as u64);
            proof {
                assert(v@ == oldv.push(h as u64));
                assert(forall|x: int|
                    0 <= x < oldv.len() ==> #[trigger] to_ints(oldv)[x] == oldv[x] as int);
                assert(line_shifted_hs(l).len() == l.tokens.len());
                assert(line_shifted_hs(l)[j as int] == l.tokens[j as int].h_pos + COORD_MAX);
                assert(0 <= l.tokens[j as int].h_pos + COORD_MAX);
                assert((h as u64) as int == l.tokens[j as int].h_pos + COORD_MAX);
                assert(line_shifted_hs(l).take(j + 1) =~= line_shifted_hs(l).take(j as int).push(
                    line_shifted_hs(l)[j as int],
                ));
                let acc = all_shifted_hs(lm.take(i as int));
                let rhs = acc + line_shifted_hs(l).take(j + 1);
                assert(to_ints(oldv).len() == oldv.len());
                assert(oldv.len() == acc.len() + j);
                assert(to_ints(v@).len() == rhs.len());
                assert forall|x: int| 0 <= x < v@.len() implies #[trigger] to_ints(v@)[x]
                    == rhs[x] by {
                    assert(to_ints(v@)[x] == v@[x] as int);
                    if x < oldv.len() {
                        assert(v@[x] == oldv[x]);
                        assert(oldv[x] as int == to_ints(oldv)[x]);
                        assert(to_ints(oldv)[x] == (acc + line_shifted_hs(l).take(j as int))[x]);
                        if x < acc.len() {
                            assert(rhs[x] == acc[x]);
                        } else {
                            assert(rhs[x] == line_shifted_hs(l).take(j + 1)[x - acc.len()]);
                            assert(line_shifted_hs(l).take(j + 1)[x - acc.len()]
                                == line_shifted_hs(l)[x - acc.len()]);
                            assert((acc + line_shifted_hs(l).take(j as int))[x]
                                == line_shifted_hs(l)[x - acc.len()]);
                        }
                    } else {
                        assert(x == oldv.len());
                        assert(v@[x] == h as u64);
                        assert(rhs[x] == line_shifted_hs(l)[j as int]);
                    }
                }
                assert(to_ints(v@) =~= rhs);
            }
            j += 1;
        }
        proof {
            assert(line_shifted_hs(l).take(m as int) =~= line_shifted_hs(l));
            assert(lm.take(i + 1).drop_last() =~= lm.take(i as int));
            assert(lm.take(i + 1).last() == l);
        }
        i += 1;
    }
    proof {
        assert(lm.take(n as int) =~= lm);
    }
    v
}

/// Merge the shifted positions into column bins by the greedy centroid
/// rule.
fn bins_exec(hs: &Vec<u64>, thresh: u64) -> (bins: Vec<u64>)
    requires
        forall|i: int| 0 <= i < hs@.len() ==> #[trigger] hs@[i] <= 2 * COORD_MAX,
    ensures
        to_ints(bins@) == bins_of(to_ints(hs@), thresh as int),
{
    let ghost his = to_ints(hs@);
    proof {
        assert(forall|i: int| 0 <= i < his.len() ==> #[trigger] his[i] == hs@[i] as int);
    }
    let n = hs.len();
    let mut bins: Vec<u64> = Vec::new();
    let mut i: usize = 0;
    proof {
        assert(to_ints(bins@) =~= bins_of(his.take(0), thresh as int));
    }
    while i < n
        invariant
            i <= n,
            n == hs@.len(),
            his == to_ints(hs@),
            forall|j: int| 0 <= j < his.len() ==> #[trigger] his[j] == hs@[j] as int,
            forall|j: int| 0 <= j < hs@.len() ==> #[trigger] hs@[j] <= 2 * COORD_MAX,
            to_ints(bins@) == bins_of(his.take(i as int), thresh as int),
            forall|j: int| 0 <= j < bins@.len() ==> #[trigger] bins@[j] <= 2 * COORD_MAX,
        decreases n - i,
    {
        let h = hs[i];
        let ghost bs = to_ints(bins@);
        proof {
            assert(forall|j: int| 0 <= j < bs.len() ==> #[trigger] bs[j] == bins@[j] as int);
        }
        let m = bins.len();
        let mut b: usize = 0;
        while b < m
            invariant
                b <= m,
                m == bins@.len(),
                bs == to_ints(bins@),
                h == hs@[i as int],
                h <= 2 * COORD_MAX,
                forall|j: int| 0 <= j < bs.len() ==> #[trigger] bs[j] == bins@[j] as int,
                forall|j: int| 0 <= j < bins@.len() ==> #[trigger] bins@[j] <= 2 * COORD_MAX,
                forall|j: int| 0 <= j < b ==> dist(#[trigger] bs[j], h as int) > thresh as int,
            ensures
                b <= m,
                m == bins@.len(),
                bs == to_ints(bins@),
                forall|j: int| 0 <= j < b ==> dist(#[trigger] bs[j], h as int) > thresh as int,
                b < m ==> dist(bs[b as int], h as int) <= thresh as int,
            decreases m - b,
        {
            let c = bins[b];
            let d = if c >= h {
                c - h
            } else {
                h - c
            };
            if d <= thresh {
                break ;
            }
            b += 1;
        }
        proof {
            lemma_bin_step_at(bs, h as int, thresh as int, b as int);
            assert(his.take(i + 1).drop_last() =~= his.take(i as int));
            assert(his.take(i + 1).last() == his[i as int]);
            assert(his[i as int] == h as int);
        }
        if b < m {
            let c = bins[b];
            bins.set(b, (c + h) / 2);
            proof {
                assert(to_ints(bins@) =~= bs.update(b as int, (bs[b as int] + h as int) / 2)) by {
                    assert(forall|x: int|
                        0 <= x < bins@.len() ==> #[trigger] to_ints(bins@)[x] == bins@[x] as int);
                }
            }
        } else {
            bins.push(h);
            proof {
                assert(to_ints(bins@) =~= bs + seq![h as int]) by {
                    assert(forall|x: int|
                        0 <= x < bins@.len() ==> #[trigger] to_ints(bins@)[x] == bins@[x] as int);
                }
            }
        }
        i += 1;
    }
    proof {
        assert(his.take(n as int) =~= his);
    }
    bins
}

/// How many lines hold a big gap.
fn big_gap_count_exec(lines: &Vec<Line>, gap: u64) -> (c: usize)
    requires
        gap <= COORD_MAX,
        forall|i: int| 0 <= i < lines@.len() ==> line_wf((#[trigger] lines@[i])@),
    ensures
        c as int == big_gap_count(line_models(lines@), gap as int),
{
    let ghost lm = line_models(lines@);
    proof {
        assert(forall|i: int| 0 <= i < lm.len() ==> #[trigger] lm[i] == lines@[i]@);
        assert(big_gap_count(lm.take(0), gap as int) == 0);
    }
    let n = lines.len();
    let mut c: usize = 0;
    let mut i: usize = 0;
    while i < n
        invariant
            i <= n,
            n == lines@.len(),
            lm == line_models(lines@),
            gap <= COORD_MAX,
            forall|j: int| 0 <= j < lm.len() ==> line_wf(#[trigger] lm[j]),
            c as int == big_gap_count(lm.take(i as int), gap as int),
            c <= i,
        decreases n - i,
    {
        proof {
            assert(line_wf(lm[i as int]));
            assert(lm[i as int] == lines@[i as int]@);
            assert(lm.take(i + 1).drop_last() =~= lm.take(i as int));
            assert(lm.take(i + 1).last() == lm[i as int]);
        }
        if has_big_gap_exec(&lines[i], gap) {
            c += 1;
        }
        i += 1;
    }
    proof {
        assert(lm.take(n as int) =~= lm);
    }
    c
}

/// No more lines hold a big gap than there are lines.
pub proof fn lemma_big_gap_count_bounds(lines: Seq<LineModel>, gap: int)
    ensures
        0 <= big_gap_count(lines, gap) <= lines.len(),
    decreases lines.len(),
{
    if lines.len() > 0 {
        lemma_big_gap_count_bounds(lines.drop_last(), gap);
    }
}

/// The measurements the classifier weighs.
pub struct BlockMetrics {
    /// How many column bins the token positions merge into.
    pub column_bins: usize,
    /// How many lines hold a big right-edge gap.
    pub big_gap_lines: usize,
}

/// Classify a block of lines and report the measurements behind the
/// decision.
pub fn classify_with_metrics(lines: &Vec<Line>, cfg: &LayoutConfig) -> (r: (
    Classification,
    BlockMetrics,
))
    requires
        cfg.wf(),
        lines@.len() <= TOKEN_MAX,
        forall|i: int| 0 <= i < lines@.len() ==> line_wf((#[trigger] lines@[i])@),
    ensures
        r.0 == classify_spec(line_models(lines@), *cfg),
        r.1.column_bins as int == column_bin_count(line_models(lines@), cfg.col_bin_threshold as int),
        r.1.big_gap_lines as int == big_gap_count(line_models(lines@), cfg.big_gap_threshold as int),
{
    let ghost lm = line_models(lines@);
    let hs = collect_shifted_hs(lines);
    let bins = bins_exec(&hs, cfg.col_bin_threshold);
    let bin_count = bins.len();
    let gap_lines = big_gap_count_exec(lines, cfg.big_gap_threshold);
    let metrics = BlockMetrics { column_bins: bin_count, big_gap_lines: gap_lines };
    let n = lines.len();
    if n == 0 {
        return (Classification::Empty, metrics);
    }
    let multi = bin_count >= 2;
    proof {
        lemma_big_gap_count_bounds(lm, cfg.big_gap_threshold as int);
        assert(gap_lines <= n);
    }
    let gappy = 4 * (gap_lines as u64) > (n as u64);
    if multi && gappy {
        return (Classification::Table, metrics);
    }
    let (sm, sq) = margin_sums_exec(lines);
    let w = width_sum_exec(lines);
    let ni = n as i128;
    proof {
        lemma_margin_sums_bounds(lm);
        assert((ni as int) * (ni as int) <= (TOKEN_MAX as int) * (TOKEN_MAX as int))
            by (nonlinear_arith)
            requires
                0 <= ni as int <= TOKEN_MAX as int,
        ;
        lemma_variance_products_bounded(ni as int, sm as int, sq as int, cfg.margin_var_limit as int);
    }
    let lhs = ni * sq - sm * sm;
    let limit = cfg.margin_var_limit as i128;
    let rhs = limit * ni * ni;
    let steady = lhs < rhs;
    let min_w = cfg.body_width_min as i128;
    proof {
        assert((min_w as int) * (ni as int) <= (COORD_MAX as int) * (TOKEN_MAX as int))
            by (nonlinear_arith)
            requires
                0 <= min_w as int <= COORD_MAX as int,
                0 <= ni as int <= TOKEN_MAX as int,
        ;
        assert((min_w as int) * (ni as int) >= 0) by (nonlinear_arith)
            requires
                0 <= min_w as int,
                0 <= ni as int,
        ;
    }
    let wide = w > min_w * ni;
    if steady && wide {
        (Classification::Paragraph, metrics)
    } else {
        (Classification::Unknown, metrics)
    }
}

/// Classify a block of lines.
pub fn classify(lines: &Vec<Line>, cfg: &LayoutConfig) -> (c: Classification)
    requires
        cfg.wf(),
        lines@.len() <= TOKEN_MAX,
        forall|i: int| 0 <= i < lines@.len() ==> line_wf((#[trigger] lines@[i])@),
    ensures
        c == classify_spec(line_models(lines@), *cfg),
{
    let (c, _) = classify_with_metrics(lines, cfg);
    c
}

/// Margin sums are bounded by the canvas and the token cap.
proof fn lemma_margin_sums_bounds(lines: Seq<LineModel>)
    requires
        forall|i: int| 0 <= i < lines.len() ==> line_wf(#[trigger] lines[i]),
        lines.len() <= TOKEN_MAX,
    ensures
        sum_margins(lines) <= (lines.len() as int) * COORD_MAX,
        sum_margins(lines) >= -((lines.len() as int) * COORD_MAX),
        sum_margin_squares(lines) >= 0,
        sum_margin_squares(lines) <= (lines.len() as int) * (COORD_MAX * COORD_MAX),
    decreases lines.len(),
{
    if lines.len() > 0 {
        let pre = lines.drop_last();
        assert(forall|i: int| 0 <= i < pre.len() ==> #[trigger] pre[i] == lines[i]);
        lemma_margin_sums_bounds(pre);
        let l = lines.last();
        assert(line_wf(l));
        assert(token_wf(l.tokens[0]));
        let m = left_margin(l);
        assert(0 <= m * m <= COORD_MAX * COORD_MAX) by (nonlinear_arith)
            requires
                -COORD_MAX <= m <= COORD_MAX,
        ;
        assert((lines.len() as int - 1) * COORD_MAX + COORD_MAX == (lines.len() as int)
            * COORD_MAX) by (nonlinear_arith);
        assert((lines.len() as int - 1) * (COORD_MAX * COORD_MAX) + COORD_MAX * COORD_MAX == (
        lines.len() as int) * (COORD_MAX * COORD_MAX)) by (nonlinear_arith);
    }
}

/// The variance comparison's products stay far inside the 128-bit range.
proof fn lemma_variance_products_bounded(n: int, sm: int, sq: int, limit: int)
    requires
        1 <= n <= TOKEN_MAX,
        sm <= n * COORD_MAX,
        sm >= -(n * COORD_MAX),
        0 <= sq <= n * (COORD_MAX * COORD_MAX),
        0 <= limit <= 1_000_000_000_000,
    ensures
        n * sq <= 0x10000000000000000000000000000,
        n * sq >= 0,
        sm * sm <= 0x10000000000000000000000000000,
        sm * sm >= 0,
        0 <= limit * n <= 0x10000000000000000000000000000,
        0 <= limit * n * n <= 0x10000000000000000000000000000,
    decreases n,
{
    assert(TOKEN_MAX * (TOKEN_MAX * (COORD_MAX * COORD_MAX)) == 1000000000000000000000000000000)
        by (nonlinear_arith);
    assert((TOKEN_MAX * COORD_MAX) * (TOKEN_MAX * COORD_MAX) == 1000000000000000000000000000000)
        by (nonlinear_arith);
    assert(1_000_000_000_000 * TOKEN_MAX == 1000000000000000000000) by (nonlinear_arith);
    assert((1_000_000_000_000 * TOKEN_MAX) * TOKEN_MAX == 1000000000000000000000000000000)
        by (nonlinear_arith);
    assert(1000000000000000000000000000000 < 0x10000000000000000000000000000);
    assert(n * sq >= 0 && n * sq <= TOKEN_MAX * (TOKEN_MAX * (COORD_MAX * COORD_MAX)))
        by (nonlinear_arith)
        requires
            1 <= n <= TOKEN_MAX,
            0 <= sq <= n * (COORD_MAX * COORD_MAX),
    ;
    assert(sm * sm >= 0 && sm * sm <= (TOKEN_MAX * COORD_MAX) * (TOKEN_MAX * COORD_MAX))
        by (nonlinear_arith)
        requires
            1 <= n <= TOKEN_MAX,
            sm <= n * COORD_MAX,
            sm >= -(n * COORD_MAX),
    ;
    assert(0 <= limit * n <= 1_000_000_000_000 * TOKEN_MAX) by (nonlinear_arith)
        requires
            1 <= n <= TOKEN_MAX,
            0 <= limit <= 1_000_000_000_000,
    ;
    assert(0 <= limit * n * n <= (1_000_000_000_000 * TOKEN_MAX) * TOKEN_MAX)
        by (nonlinear_arith)
        requires
            1 <= n <= TOKEN_MAX,
            0 <= limit * n <= 1_000_000_000_000 * TOKEN_MAX,
            0 <= limit <= 1_000_000_000_000,
    ;
}


/// Mark every line's table flag according to a classification, leaving
/// tokens and averages alone. Only the classifier calls this.
pub fn apply_classification(lines: &mut Vec<Line>, c: Classification)
    ensures
        final(lines)@.len() == old(lines)@.len(),
        forall|i: int|
            0 <= i < old(lines)@.len() ==> {
                &&& (#[trigger] final(lines)@[i])@.tokens == old(lines)@[i]@.tokens
                &&& final(lines)@[i]@.avg_v_pos == old(lines)@[i]@.avg_v_pos
                &&& final(lines)@[i]@.is_table == (c is Table)
            },
{
    let flag = match c {
        Classification::Table => true,
        _ => false,
    };
    let n = lines.len();
    let mut i: usize = 0;
    while i < n
        invariant
            i <= n,
            n == lines@.len(),
            n == old(lines)@.len(),
            flag == (c is Table),
            forall|j: int| i <= j < n ==> #[trigger] lines@[j] == old(lines)@[j],
            forall|j: int|
                0 <= j < i ==> {
                    &&& (#[trigger] lines@[j])@.tokens == old(lines)@[j]@.tokens
                    &&& lines@[j]@.avg_v_pos == old(lines)@[j]@.avg_v_pos
                    &&& lines@[j]@.is_table == (c is Table)
                },
        decreases n - i,
    {
        let mut ln = lines.remove(i);
        ln.is_table = flag;
        lines.insert(i, ln);
        i += 1;
    }
}

/// A contiguous run of lines judged to belong together, with its category.
/// Derived entirely from the lines; rebuilt on demand.
pub struct Block {
    pub lines: Vec<Line>,
    pub classification: Classification,
}

impl Block {
    /// Classify a run of lines and mark each line's table flag to match.
    pub fn new(lines: Vec<Line>, cfg: &LayoutConfig) -> (b: Block)
        requires
            cfg.wf(),
            lines@.len() <= TOKEN_MAX,
            forall|i: int| 0 <= i < lines@.len() ==> line_wf((#[trigger] lines@[i])@),
        ensures
            b.classification == classify_spec(line_models(lines@), *cfg),
            b.lines@.len() == lines@.len(),
            forall|i: int|
                0 <= i < lines@.len() ==> {
                    &&& (#[trigger] b.lines@[i])@.tokens == lines@[i]@.tokens
                    &&& b.lines@[i]@.avg_v_pos == lines@[i]@.avg_v_pos
                    &&& b.lines@[i]@.is_table == (b.classification is Table)
                },
    {
        let c = classify(&lines, cfg);
        let mut marked = lines;
        apply_classification(&mut marked, c);
        Block { lines: marked, classification: c }
    }
}

} // verus!\n