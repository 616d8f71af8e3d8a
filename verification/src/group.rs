//! Grouping tokens into lines by vertical proximity.
//!
//! Every token falls into the vertical bucket `clamp0(v_pos) / bucket_height`;
//! all tokens sharing a bucket form one line. Lines are ordered by ascending
//! bucket, and tokens within a line by ascending horizontal position, ties
//! keeping their arrival order (a stable insertion). The whole grouping is a
//! fold of single-token insertions, so its result is a function of the input
//! sequence alone.

use vstd::prelude::*;
use crate::config::COORD_MAX;
use crate::config::TOKEN_MAX;
use crate::config::LayoutConfig;
use crate::token::Token;
use crate::token::TokenModel;
use crate::token::Line;
use crate::token::LineModel;
use crate::token::clamp0;
use crate::token::clamp0_exec;
use crate::token::copy_token;
use crate::token::line_wf;
use crate::token::line_models;
use crate::token::token_models;
use crate::token::token_wf;
use crate::token::sum_clamped_v;
use crate::token::lemma_sum_clamped_v_bounds;

verus! {

/// The vertical bucket a token falls into.
pub open spec fn bucket_of(t: TokenModel, bh: int) -> int {
    clamp0(t.v_pos) / bh
}

/// The bucket shared by a line's tokens, read off its first member.
pub open spec fn line_key(l: LineModel, bh: int) -> int {
    bucket_of(l.tokens[0], bh)
}

/// Stable insertion by horizontal position: the new token lands after every
/// token whose position is less than or equal to its own.
pub open spec fn insert_by_h(s: Seq<TokenModel>, t: TokenModel) -> Seq<TokenModel>
    decreases s.len(),
{
    if s.len() == 0 {
        seq![t]
    } else if s[0].h_pos <= t.h_pos {
        seq![s[0]] + insert_by_h(s.drop_first(), t)
    } else {
        seq![t] + s
    }
}

/// The line a lone token founds.
pub open spec fn line_of(t: TokenModel) -> LineModel {
    LineModel { tokens: seq![t], avg_v_pos: clamp0(t.v_pos), is_table: false }
}

/// A line extended by one token, its average recomputed.
pub open spec fn line_add(l: LineModel, t: TokenModel) -> LineModel {
    let toks = insert_by_h(l.tokens, t);
    LineModel {
        tokens: toks,
        avg_v_pos: sum_clamped_v(toks) / toks.len() as int,
        is_table: l.is_table,
    }
}

/// One token inserted into a bucket-ordered sequence of lines: it joins the
/// line of its bucket, or founds a new line at the bucket's place.
pub open spec fn insert_token_spec(lines: Seq<LineModel>, t: TokenModel, bh: int) -> Seq<
    LineModel,
>
    decreases lines.len(),
{
    if lines.len() == 0 {
        seq![line_of(t)]
    } else if bucket_of(t, bh) < line_key(lines[0], bh) {
        seq![line_of(t)] + lines
    } else if bucket_of(t, bh) == line_key(lines[0], bh) {
        seq![line_add(lines[0], t)] + lines.drop_first()
    } else {
        seq![lines[0]] + insert_token_spec(lines.drop_first(), t, bh)
    }
}

/// The grouping of a token sequence: tokens inserted one by one, in order.
pub open spec fn group_spec(tokens: Seq<TokenModel>, bh: int) -> Seq<LineModel>
    decreases tokens.len(),
{
    if tokens.len() == 0 {
        Seq::<LineModel>::empty()
    } else {
        insert_token_spec(group_spec(tokens.drop_last(), bh), tokens.last(), bh)
    }
}

/// Every token of the line sits in the line's bucket.
pub open spec fn line_uniform(l: LineModel, bh: int) -> bool {
    forall|i: int|
        0 <= i < l.tokens.len() ==> bucket_of(#[trigger] l.tokens[i], bh) == line_key(l, bh)
}

/// What grouping guarantees of its result: well-formed lines, one bucket per
/// line, buckets strictly ascending, and no table marks yet.
pub open spec fn grouped_wf(lines: Seq<LineModel>, bh: int) -> bool {
    &&& forall|i: int| 0 <= i < lines.len() ==> line_wf(#[trigger] lines[i])
    &&& forall|i: int| 0 <= i < lines.len() ==> line_uniform(#[trigger] lines[i], bh)
    &&& forall|i: int|
        0 <= i < lines.len() - 1 ==> #[trigger] line_key(lines[i], bh) < line_key(lines[i + 1], bh)
    &&& forall|i: int| 0 <= i < lines.len() ==> !(#[trigger] lines[i]).is_table
}

/// The number of tokens held across a sequence of lines.
pub open spec fn total_line_tokens(lines: Seq<LineModel>) -> int
    decreases lines.len(),
{
    if lines.len() == 0 {
        0
    } else {
        total_line_tokens(lines.drop_last()) + lines.last().tokens.len()
    }
}

/// Sums of clamped vertical positions add over concatenation.
pub proof fn lemma_sum_clamped_v_append(a: Seq<TokenModel>, b: Seq<TokenModel>)
    ensures
        sum_clamped_v(a + b) == sum_clamped_v(a) + sum_clamped_v(b),
    decreases b.len(),
{
    if b.len() == 0 {
        assert(a + b =~= a);
    } else {
        lemma_sum_clamped_v_append(a, b.drop_last());
        assert((a + b).drop_last() =~= a + b.drop_last());
        assert((a + b).last() == b.last());
    }
}

/// What stable insertion does: one element longer, drawn from the old
/// members plus the new one, order kept, and the position sum grown by the
/// new token's clamped vertical position.
#[verifier::rlimit(60)]
pub proof fn lemma_insert_by_h_props(s: Seq<TokenModel>, t: TokenModel)
    requires
        forall|i: int| 0 <= i < s.len() - 1 ==> (#[trigger] s[i]).h_pos <= s[i + 1].h_pos,
    ensures
        insert_by_h(s, t).len() == s.len() + 1,
        forall|i: int|
            0 <= i < insert_by_h(s, t).len() ==> (#[trigger] insert_by_h(s, t)[i] == t
                || s.contains(insert_by_h(s, t)[i])),
        forall|i: int|
            0 <= i < insert_by_h(s, t).len() - 1 ==> (#[trigger] insert_by_h(s, t)[i]).h_pos
                <= insert_by_h(s, t)[i + 1].h_pos,
        sum_clamped_v(insert_by_h(s, t)) == sum_clamped_v(s) + clamp0(t.v_pos),
    decreases s.len(),
{
    let r = insert_by_h(s, t);
    if s.len() == 0 {
        assert(r =~= seq![t]);
        assert(seq![t].drop_last() =~= Seq::<TokenModel>::empty());
        assert(seq![t].last() == t);
        assert(sum_clamped_v(Seq::<TokenModel>::empty()) == 0);
        assert(s =~= Seq::<TokenModel>::empty());
    } else if s[0].h_pos <= t.h_pos {
        let s1 = s.drop_first();
        assert(forall|i: int|
            0 <= i < s1.len() - 1 ==> (#[trigger] s1[i]).h_pos <= s1[i + 1].h_pos) by {
            assert(forall|i: int|
                0 <= i < s1.len() ==> #[trigger] s1[i] == s[i + 1]);
        }
        lemma_insert_by_h_props(s1, t);
        let r1 = insert_by_h(s1, t);
        assert(r == seq![s[0]] + r1);
        assert(forall|i: int| 0 <= i < r1.len() ==> #[trigger] r[i + 1] == r1[i]);
        assert(r[0] == s[0]);
        // the head stays least: the next member is either the new token or a
        // former member, both at or beyond the head's position
        assert(r1.len() > 0);
        assert(r[0].h_pos <= r[1].h_pos) by {
            if r1[0] == t {
            } else {
                assert(s1.contains(r1[0]));
                let j = choose|j: int| 0 <= j < s1.len() && s1[j] == r1[0];
                lemma_sorted_head_least(s);
                assert(s1[j] == s[j + 1]);
            }
        }
        lemma_sum_clamped_v_append(seq![s[0]], r1);
        assert(sum_clamped_v(seq![s[0]]) == clamp0(s[0].v_pos)) by {
            assert(seq![s[0]].drop_last() =~= Seq::<TokenModel>::empty());
            assert(seq![s[0]].last() == s[0]);
            assert(sum_clamped_v(Seq::<TokenModel>::empty()) == 0);
        }
        lemma_sum_clamped_v_append(seq![s[0]], s1);
        assert(seq![s[0]] + s1 =~= s);
        assert(forall|i: int|
            1 <= i < s.len() ==> s.contains(#[trigger] s[i]));
        assert(forall|i: int|
            0 <= i < r.len() ==> (#[trigger] r[i] == t || s.contains(r[i]))) by {
            assert(s.contains(s[0]));
            assert(forall|x: TokenModel| s1.contains(x) ==> s.contains(x)) by {
                assert(forall|j: int|
                    0 <= j < s1.len() ==> #[trigger] s1[j] == s[j + 1]);
            }
        }
    } else {
        assert(r == seq![t] + s);
        assert(forall|i: int| 0 <= i < s.len() ==> #[trigger] r[i + 1] == s[i]);
        assert(forall|i: int| 0 <= i < s.len() ==> s.contains(#[trigger] s[i]));
        lemma_sum_clamped_v_append(seq![t], s);
        assert(sum_clamped_v(seq![t]) == clamp0(t.v_pos)) by {
            assert(seq![t].drop_last() =~= Seq::<TokenModel>::empty());
            assert(seq![t].last() == t);
            assert(sum_clamped_v(Seq::<TokenModel>::empty()) == 0);
        }
    }
}

/// Token totals add over concatenation.
pub proof fn lemma_total_append(a: Seq<LineModel>, b: Seq<LineModel>)
    ensures
        total_line_tokens(a + b) == total_line_tokens(a) + total_line_tokens(b),
    decreases b.len(),
{
    if b.len() == 0 {
        assert(a + b =~= a);
    } else {
        lemma_total_append(a, b.drop_last());
        assert((a + b).drop_last() =~= a + b.drop_last());
        assert((a + b).last() == b.last());
    }
}

/// A lone token's line is well formed and sits in the token's bucket.
proof fn lemma_line_of_wf(t: TokenModel, bh: int)
    requires
        token_wf(t),
        bh >= 1,
    ensures
        line_wf(line_of(t)),
        line_uniform(line_of(t), bh),
        line_key(line_of(t), bh) == bucket_of(t, bh),
        total_line_tokens(seq![line_of(t)]) == 1,
        !line_of(t).is_table,
{
    assert(seq![t].drop_last() =~= Seq::<TokenModel>::empty());
    assert(seq![t].last() == t);
    assert(sum_clamped_v(Seq::<TokenModel>::empty()) == 0);
    assert(sum_clamped_v(seq![t]) == clamp0(t.v_pos));
    assert(clamp0(t.v_pos) / 1 == clamp0(t.v_pos));
    assert(seq![line_of(t)].drop_last() =~= Seq::<LineModel>::empty());
    assert(seq![line_of(t)].last() == line_of(t));
    assert(total_line_tokens(Seq::<LineModel>::empty()) == 0);
}

/// Inserting a token into a bucket-ordered line sequence keeps it well
/// formed, grows the token total by one, and puts the head line's bucket at
/// the least of the old head's bucket and the token's own.
#[verifier::rlimit(100)]
pub proof fn lemma_insert_token_props(lines: Seq<LineModel>, t: TokenModel, bh: int)
    requires
        grouped_wf(lines, bh),
        token_wf(t),
        bh >= 1,
    ensures
        grouped_wf(insert_token_spec(lines, t, bh), bh),
        insert_token_spec(lines, t, bh).len() >= 1,
        total_line_tokens(insert_token_spec(lines, t, bh)) == total_line_tokens(lines) + 1,
        line_key(insert_token_spec(lines, t, bh)[0], bh) == if lines.len() == 0 {
            bucket_of(t, bh)
        } else if bucket_of(t, bh) < line_key(lines[0], bh) {
            bucket_of(t, bh)
        } else {
            line_key(lines[0], bh)
        },
    decreases lines.len(),
{
    let k = bucket_of(t, bh);
    let r = insert_token_spec(lines, t, bh);
    lemma_line_of_wf(t, bh);
    if lines.len() == 0 {
        assert(r == seq![line_of(t)]);
        assert(r[0] == line_of(t));
    } else {
        let key0 = line_key(lines[0], bh);
        let rest = lines.drop_first();
        assert(forall|i: int| 0 <= i < rest.len() ==> #[trigger] rest[i] == lines[i + 1]);
        assert(lines =~= seq![lines[0]] + rest);
        if k < key0 {
            assert(r == seq![line_of(t)] + lines);
            assert(r[0] == line_of(t));
            assert(forall|i: int| 0 <= i < lines.len() ==> #[trigger] r[i + 1] == lines[i]);
            lemma_total_append(seq![line_of(t)], lines);
            assert(forall|i: int|
                0 <= i < r.len() - 1 ==> #[trigger] line_key(r[i], bh) < line_key(
                    r[i + 1],
                    bh,
                )) by {
                assert(forall|i: int| 1 <= i < r.len() ==> r[i] == lines[i - 1]);
            }
        } else if k == key0 {
            let l0 = lines[0];
            assert(line_wf(l0) && line_uniform(l0, bh));
            lemma_insert_by_h_props(l0.tokens, t);
            let nl = line_add(l0, t);
            let toks = insert_by_h(l0.tokens, t);
            assert forall|i: int| 0 <= i < toks.len() implies token_wf(#[trigger] toks[i])
                && bucket_of(toks[i], bh) == k by {
                if toks[i] == t {
                } else {
                    assert(l0.tokens.contains(toks[i]));
                    let j = choose|j: int| 0 <= j < l0.tokens.len() && l0.tokens[j] == toks[i];
                    assert(token_wf(l0.tokens[j]));
                    assert(bucket_of(l0.tokens[j], bh) == key0);
                }
            }
            assert(line_wf(nl));
            assert(line_key(nl, bh) == k);
            assert(line_uniform(nl, bh));
            assert(r == seq![nl] + rest);
            assert(r[0] == nl);
            assert(forall|i: int| 0 <= i < rest.len() ==> #[trigger] r[i + 1] == rest[i]);
            lemma_total_append(seq![nl], rest);
            lemma_total_append(seq![l0], rest);
            assert(total_line_tokens(seq![nl]) == nl.tokens.len()) by {
                assert(seq![nl].drop_last() =~= Seq::<LineModel>::empty());
                assert(seq![nl].last() == nl);
                assert(total_line_tokens(Seq::<LineModel>::empty()) == 0);
            }
            assert(total_line_tokens(seq![l0]) == l0.tokens.len()) by {
                assert(seq![l0].drop_last() =~= Seq::<LineModel>::empty());
                assert(seq![l0].last() == l0);
                assert(total_line_tokens(Seq::<LineModel>::empty()) == 0);
            }
            assert(forall|i: int|
                0 <= i < r.len() - 1 ==> #[trigger] line_key(r[i], bh) < line_key(
                    r[i + 1],
                    bh,
                )) by {
                assert(forall|i: int| 1 <= i < r.len() ==> r[i] == lines[i]);
            }
        } else {
            assert(grouped_wf(rest, bh));
            lemma_insert_token_props(rest, t, bh);
            let r1 = insert_token_spec(rest, t, bh);
            assert(r == seq![lines[0]] + r1);
            assert(r[0] == lines[0]);
            assert(forall|i: int| 0 <= i < r1.len() ==> #[trigger] r[i + 1] == r1[i]);
            lemma_total_append(seq![lines[0]], r1);
            lemma_total_append(seq![lines[0]], rest);
            assert(key0 < line_key(r1[0], bh)) by {
                if rest.len() > 0 {
                    assert(line_key(rest[0], bh) == line_key(lines[1], bh));
                }
            }
            assert(forall|i: int|
                0 <= i < r.len() - 1 ==> #[trigger] line_key(r[i], bh) < line_key(
                    r[i + 1],
                    bh,
                )) by {
                assert(forall|i: int|
                    1 <= i < r.len() - 1 ==> #[trigger] line_key(r[i], bh) < line_key(
                        r[i + 1],
                        bh,
                    )) by {
                    assert(forall|i: int| 1 <= i < r.len() ==> #[trigger] r[i] == r1[i - 1]);
                }
            }
        }
    }
}

/// Grouping yields a well-formed, bucket-ordered line sequence holding
/// exactly the tokens given to it.
pub proof fn lemma_group_spec_props(tokens: Seq<TokenModel>, bh: int)
    requires
        forall|i: int| 0 <= i < tokens.len() ==> token_wf(#[trigger] tokens[i]),
        bh >= 1,
    ensures
        grouped_wf(group_spec(tokens, bh), bh),
        total_line_tokens(group_spec(tokens, bh)) == tokens.len(),
    decreases tokens.len(),
{
    if tokens.len() == 0 {
        assert(total_line_tokens(Seq::<LineModel>::empty()) == 0);
    } else {
        let pre = tokens.drop_last();
        assert(forall|i: int| 0 <= i < pre.len() ==> #[trigger] pre[i] == tokens[i]);
        lemma_group_spec_props(pre, bh);
        assert(token_wf(tokens.last()));
        lemma_insert_token_props(group_spec(pre, bh), tokens.last(), bh);
    }
}

/// A grouped sequence holds at least one token per line.
pub proof fn lemma_total_at_least_len(lines: Seq<LineModel>, bh: int)
    requires
        grouped_wf(lines, bh),
    ensures
        lines.len() <= total_line_tokens(lines),
    decreases lines.len(),
{
    if lines.len() > 0 {
        let pre = lines.drop_last();
        assert(forall|i: int| 0 <= i < pre.len() ==> #[trigger] pre[i] == lines[i]);
        assert(grouped_wf(pre, bh));
        lemma_total_at_least_len(pre, bh);
        assert(line_wf(lines.last()));
        assert(lines.last().tokens.len() >= 1);
    }
}

/// Token totals never go negative.
pub proof fn lemma_total_nonneg(lines: Seq<LineModel>)
    ensures
        total_line_tokens(lines) >= 0,
    decreases lines.len(),
{
    if lines.len() > 0 {
        lemma_total_nonneg(lines.drop_last());
    }
}

/// No single line holds more tokens than the whole sequence.
pub proof fn lemma_line_len_le_total(lines: Seq<LineModel>, j: int)
    requires
        0 <= j < lines.len(),
    ensures
        lines[j].tokens.len() <= total_line_tokens(lines),
    decreases lines.len(),
{
    let pre = lines.drop_last();
    if j == lines.len() - 1 {
        lemma_total_nonneg(pre);
    } else {
        lemma_line_len_le_total(pre, j);
        assert(pre[j] == lines[j]);
    }
}

/// Where every line before position `p` sits below the token's bucket,
/// insertion leaves that prefix alone.
pub proof fn lemma_insert_token_at(lines: Seq<LineModel>, t: TokenModel, bh: int, j: int)
    requires
        0 <= j <= lines.len(),
        forall|i: int| 0 <= i < j ==> #[trigger] line_key(lines[i], bh) < bucket_of(t, bh),
    ensures
        insert_token_spec(lines, t, bh) == lines.take(j) + insert_token_spec(
            lines.skip(j),
            t,
            bh,
        ),
    decreases j,
{
    if j == 0 {
        assert(lines.skip(0) =~= lines);
        assert(lines.take(0) + insert_token_spec(lines, t, bh) =~= insert_token_spec(
            lines,
            t,
            bh,
        ));
    } else {
        let rest = lines.drop_first();
        assert(line_key(lines[0], bh) < bucket_of(t, bh));
        assert(insert_token_spec(lines, t, bh) == seq![lines[0]] + insert_token_spec(
            rest,
            t,
            bh,
        ));
        assert(forall|i: int|
            0 <= i < j - 1 ==> #[trigger] line_key(rest[i], bh) < bucket_of(t, bh)) by {
            assert(forall|i: int| 0 <= i < rest.len() ==> #[trigger] rest[i] == lines[i + 1]);
        }
        lemma_insert_token_at(rest, t, bh, j - 1);
        assert(rest.skip(j - 1) =~= lines.skip(j));
        assert(seq![lines[0]] + (rest.take(j - 1) + insert_token_spec(lines.skip(j), t, bh))
            =~= lines.take(j) + insert_token_spec(lines.skip(j), t, bh));
    }
}

/// Where the scan stopped before a line of a later bucket (or past the
/// end), the token founds a new line exactly at that position.
pub proof fn lemma_insert_token_shape_new(lines: Seq<LineModel>, t: TokenModel, bh: int, j: int)
    requires
        0 <= j <= lines.len(),
        forall|i: int| 0 <= i < j ==> #[trigger] line_key(lines[i], bh) < bucket_of(t, bh),
        j == lines.len() || line_key(lines[j], bh) > bucket_of(t, bh),
    ensures
        insert_token_spec(lines, t, bh) == lines.take(j) + seq![line_of(t)] + lines.skip(j),
{
    lemma_insert_token_at(lines, t, bh, j);
    let tail = lines.skip(j);
    if j == lines.len() {
        assert(tail =~= Seq::<LineModel>::empty());
        assert(insert_token_spec(tail, t, bh) == seq![line_of(t)]);
    } else {
        assert(tail[0] == lines[j]);
        assert(insert_token_spec(tail, t, bh) == seq![line_of(t)] + tail);
    }
    assert(lines.take(j) + insert_token_spec(tail, t, bh) =~= lines.take(j) + seq![line_of(t)]
        + lines.skip(j));
}

/// Where the scan stopped at the line of the token's own bucket, the token
/// joins that line and nothing else moves.
pub proof fn lemma_insert_token_shape_join(lines: Seq<LineModel>, t: TokenModel, bh: int, j: int)
    requires
        0 <= j < lines.len(),
        forall|i: int| 0 <= i < j ==> #[trigger] line_key(lines[i], bh) < bucket_of(t, bh),
        line_key(lines[j], bh) == bucket_of(t, bh),
    ensures
        insert_token_spec(lines, t, bh) == lines.update(j, line_add(lines[j], t)),
{
    lemma_insert_token_at(lines, t, bh, j);
    let tail = lines.skip(j);
    assert(tail[0] == lines[j]);
    assert(insert_token_spec(tail, t, bh) == seq![line_add(lines[j], t)] + tail.drop_first());
    assert(forall|i: int|
        0 <= i < tail.drop_first().len() ==> #[trigger] tail.drop_first()[i] == lines[j + 1 + i]);
    assert(lines.take(j) + (seq![line_add(lines[j], t)] + tail.drop_first()) =~= lines.update(
        j,
        line_add(lines[j], t),
    ));
}

/// Where every token before position `p` sits at or left of the new token,
/// and the token at `p` (if any) sits right of it, stable insertion lands
/// exactly at `p`.
pub proof fn lemma_insert_by_h_at(s: Seq<TokenModel>, t: TokenModel, p: int)
    requires
        0 <= p <= s.len(),
        forall|i: int| 0 <= i < p ==> (#[trigger] s[i]).h_pos <= t.h_pos,
        p == s.len() || s[p].h_pos > t.h_pos,
    ensures
        insert_by_h(s, t) == s.take(p) + seq![t] + s.skip(p),
    decreases p,
{
    if p == 0 {
        if s.len() == 0 {
            assert(s.take(0) + seq![t] + s.skip(0) =~= seq![t]);
        } else {
            assert(s[0].h_pos > t.h_pos);
            assert(s.take(0) + seq![t] + s.skip(0) =~= seq![t] + s);
        }
    } else {
        let s1 = s.drop_first();
        assert(s[0].h_pos <= t.h_pos);
        assert(insert_by_h(s, t) == seq![s[0]] + insert_by_h(s1, t));
        assert(forall|i: int| 0 <= i < s1.len() ==> #[trigger] s1[i] == s[i + 1]);
        lemma_insert_by_h_at(s1, t, p - 1);
        assert(s1.skip(p - 1) =~= s.skip(p));
        assert(seq![s[0]] + (s1.take(p - 1) + seq![t] + s.skip(p)) =~= s.take(p) + seq![t]
            + s.skip(p));
    }
}

/// The vertical bucket of one token.
pub fn bucket_key_exec(t: &Token, bh: u64) -> (k: u64)
    requires
        bh >= 1,
    ensures
        k as int == bucket_of(t@, bh as int),
{
    let v = clamp0_exec(t.v_pos);
    (v as u64) / bh
}

/// The bucket of a line, read off its first token.
pub fn line_key_exec(l: &Line, bh: u64) -> (k: u64)
    requires
        bh >= 1,
        l@.tokens.len() >= 1,
    ensures
        k as int == line_key(l@, bh as int),
{
    let k = bucket_key_exec(&l.tokens[0], bh);
    proof {
        assert(l@.tokens[0] == l.tokens@[0]@);
    }
    k
}

/// Mean of the members' clamped vertical positions, rounded down.
fn line_avg_exec(tokens: &Vec<Token>) -> (a: i64)
    requires
        1 <= tokens@.len() <= TOKEN_MAX,
        forall|i: int| 0 <= i < tokens@.len() ==> token_wf((#[trigger] tokens@[i])@),
    ensures
        a as int == sum_clamped_v(token_models(tokens@)) / tokens@.len() as int,
        0 <= a <= COORD_MAX,
{
    let n = tokens.len();
    let ghost m = token_models(tokens@);
    proof {
        assert(forall|i: int| 0 <= i < m.len() ==> #[trigger] m[i] == tokens@[i]@);
    }
    let mut s: u64 = 0;
    let mut i: usize = 0;
    while i < n
        invariant
            i <= n,
            n == tokens@.len(),
            n <= TOKEN_MAX,
            m == token_models(tokens@),
            forall|j: int| 0 <= j < m.len() ==> token_wf(#[trigger] m[j]),
            s as int == sum_clamped_v(m.take(i as int)),
            s as int <= i as int * COORD_MAX,
        decreases n - i,
    {
        let v = clamp0_exec(tokens[i].v_pos);
        proof {
            assert(m.take(i + 1).drop_last() =~= m.take(i as int));
            assert(m.take(i + 1).last() == m[i as int]);
            assert(token_wf(m[i as int]));
            assert(v as int <= COORD_MAX);
            assert(i as int * COORD_MAX + COORD_MAX == (i + 1) * COORD_MAX) by (nonlinear_arith);
            assert((i + 1) * COORD_MAX <= TOKEN_MAX * COORD_MAX) by (nonlinear_arith)
                requires
                    0 <= i + 1 <= TOKEN_MAX as int,
            ;
        }
        s = s + (v as u64);
        i += 1;
    }
    proof {
        assert(m.take(n as int) =~= m);
        lemma_sum_clamped_v_bounds(m);
        let si = s as int;
        let ni = n as int;
        vstd::arithmetic::div_mod::lemma_div_is_ordered(si, ni * COORD_MAX, ni);
        assert(ni * COORD_MAX / ni == COORD_MAX) by (nonlinear_arith)
            requires
                ni >= 1,
        ;
        assert(si / ni >= 0) by (nonlinear_arith)
            requires
                si >= 0 && ni >= 1,
        ;
    }
    (s / (n as u64)) as i64
}

/// Found a new line holding only `t` at position `j`.
fn insert_new_line_at(lines: &mut Vec<Line>, j: usize, t: Token)
    requires
        j <= old(lines)@.len(),
        token_wf(t@),
    ensures
        line_models(final(lines)@) == line_models(old(lines)@).take(j as int) + seq![
            line_of(t@),
        ] + line_models(old(lines)@).skip(j as int),
{
    let ghost lm0 = line_models(lines@);
    let avg = clamp0_exec(t.v_pos);
    let nl = Line { tokens: vec![t], avg_v_pos: avg, is_table: false };
    proof {
        assert(nl.tokens@.map_values(|x: Token| x@) =~= seq![t@]);
        assert(nl@ == line_of(t@));
    }
    lines.insert(j, nl);
    proof {
        assert(forall|i: int| 0 <= i < lm0.len() ==> #[trigger] lm0[i] == old(lines)@[i]@);
        assert(forall|i: int|
            0 <= i < lines@.len() ==> #[trigger] line_models(lines@)[i] == lines@[i]@);
        assert(line_models(lines@) =~= lm0.take(j as int) + seq![line_of(t@)] + lm0.skip(
            j as int,
        ));
    }
}

/// Add `t` to the line at position `j`, keeping its tokens ordered and its
/// average current.
#[verifier::rlimit(60)]
fn join_line_at(lines: &mut Vec<Line>, j: usize, t: Token)
    requires
        j < old(lines)@.len(),
        token_wf(t@),
        line_wf(line_models(old(lines)@)[j as int]),
        line_models(old(lines)@)[j as int].tokens.len() < TOKEN_MAX,
    ensures
        line_models(final(lines)@) == line_models(old(lines)@).update(
            j as int,
            line_add(line_models(old(lines)@)[j as int], t@),
        ),
{
    let ghost lm0 = line_models(lines@);
    proof {
        assert(forall|i: int| 0 <= i < lm0.len() ==> #[trigger] lm0[i] == old(lines)@[i]@);
    }
    let mut ln = lines.remove(j);
    let ghost old_toks = ln@.tokens;
    proof {
        assert(ln@ == lm0[j as int]);
        assert(forall|i: int|
            0 <= i < old_toks.len() ==> #[trigger] old_toks[i] == ln.tokens@[i]@);
    }
    let m = ln.tokens.len();
    let mut p: usize = 0;
    while p < m
        invariant
            p <= m,
            m == ln.tokens@.len(),
            old_toks == token_models(ln.tokens@),
            ln@ == lm0[j as int],
            line_wf(ln@),
            forall|i: int| 0 <= i < p ==> (#[trigger] old_toks[i]).h_pos <= t@.h_pos,
        ensures
            p <= m,
            m == ln.tokens@.len(),
            old_toks == token_models(ln.tokens@),
            ln@ == lm0[j as int],
            forall|i: int| 0 <= i < p ==> (#[trigger] old_toks[i]).h_pos <= t@.h_pos,
            p < m ==> old_toks[p as int].h_pos > t@.h_pos,
        decreases m - p,
    {
        proof {
            assert(old_toks[p as int] == ln.tokens@[p as int]@);
        }
        if ln.tokens[p].h_pos > t.h_pos {
            break ;
        }
        p += 1;
    }
    proof {
        lemma_insert_by_h_at(old_toks, t@, p as int);
        lemma_insert_by_h_props(old_toks, t@);
    }
    ln.tokens.insert(p, t);
    proof {
        assert(token_models(ln.tokens@) =~= old_toks.take(p as int) + seq![t@] + old_toks.skip(
            p as int,
        )) by {
            assert(forall|i: int|
                0 <= i < ln.tokens@.len() ==> #[trigger] token_models(ln.tokens@)[i]
                    == ln.tokens@[i]@);
        }
        assert(token_models(ln.tokens@) == insert_by_h(old_toks, t@));
        assert forall|i: int| 0 <= i < ln.tokens@.len() implies token_wf(
            (#[trigger] ln.tokens@[i])@,
        ) by {
            let toks = insert_by_h(old_toks, t@);
            assert(ln.tokens@[i]@ == toks[i]);
            if toks[i] == t@ {
            } else {
                assert(old_toks.contains(toks[i]));
                let w = choose|w: int| 0 <= w < old_toks.len() && old_toks[w] == toks[i];
                assert(token_wf(old_toks[w]));
            }
        }
    }
    let a = line_avg_exec(&ln.tokens);
    ln.avg_v_pos = a;
    proof {
        assert(ln@ == line_add(lm0[j as int], t@));
    }
    lines.insert(j, ln);
    proof {
        assert(forall|i: int|
            0 <= i < lines@.len() ==> #[trigger] line_models(lines@)[i] == lines@[i]@);
        assert(line_models(lines@) =~= lm0.update(j as int, line_add(lm0[j as int], t@)));
    }
}

/// Insert one token into a bucket-ordered line sequence: it joins the line
/// of its bucket, or founds a new line at the bucket's place.
#[verifier::rlimit(100)]
#[verifier::spinoff_prover]
pub fn insert_token(lines: &mut Vec<Line>, t: Token, bh: u64)
    requires
        bh >= 1,
        token_wf(t@),
        grouped_wf(line_models(old(lines)@), bh as int),
        total_line_tokens(line_models(old(lines)@)) < TOKEN_MAX,
    ensures
        line_models(final(lines)@) == insert_token_spec(
            line_models(old(lines)@),
            t@,
            bh as int,
        ),
{
    let ghost lm0 = line_models(old(lines)@);
    let ghost bhi = bh as int;
    let ghost ki = bucket_of(t@, bhi);
    proof {
        assert(forall|i: int| 0 <= i < lm0.len() ==> #[trigger] lm0[i] == old(lines)@[i]@);
    }
    let k = bucket_key_exec(&t, bh);
    let n = lines.len();
    let mut j: usize = 0;
    while j < n
        invariant
            j <= n,
            n == lines@.len(),
            lines@ == old(lines)@,
            lm0 == line_models(lines@),
            bhi == bh as int,
            bh >= 1,
            ki == bucket_of(t@, bhi),
            k as int == ki,
            grouped_wf(lm0, bhi),
            forall|i: int| 0 <= i < j ==> #[trigger] line_key(lm0[i], bhi) < ki,
        ensures
            j <= n,
            n == lines@.len(),
            lines@ == old(lines)@,
            forall|i: int| 0 <= i < j ==> #[trigger] line_key(lm0[i], bhi) < ki,
            j < n ==> line_key(lm0[j as int], bhi) >= ki,
        decreases n - j,
    {
        proof {
            assert(line_wf(lm0[j as int]));
            assert(lm0[j as int] == lines@[j as int]@);
        }
        let key_j = line_key_exec(&lines[j], bh);
        if key_j >= k {
            break ;
        }
        j += 1;
    }
    if j == n || line_key_exec(&lines[j], bh) > k {
        proof {
            lemma_insert_token_shape_new(lm0, t@, bhi, j as int);
        }
        insert_new_line_at(lines, j, t);
    } else {
        proof {
            assert(line_key(lm0[j as int], bhi) == ki);
            assert(line_wf(lm0[j as int]));
            lemma_line_len_le_total(lm0, j as int);
            lemma_insert_token_shape_join(lm0, t@, bhi, j as int);
        }
        join_line_at(lines, j, t);
    }
}

/// Group a token sequence into lines: one line per occupied vertical
/// bucket, in ascending bucket order, tokens within a line in ascending
/// horizontal order with ties keeping arrival order.
pub fn group_tokens(tokens: &Vec<Token>, cfg: &LayoutConfig) -> (lines: Vec<Line>)
    requires
        cfg.wf(),
        tokens@.len() <= TOKEN_MAX,
        forall|i: int| 0 <= i < tokens@.len() ==> token_wf((#[trigger] tokens@[i])@),
    ensures
        line_models(lines@) == group_spec(token_models(tokens@), cfg.line_bucket_height as int),
        grouped_wf(line_models(lines@), cfg.line_bucket_height as int),
        total_line_tokens(line_models(lines@)) == tokens@.len(),
{
    let bh = cfg.line_bucket_height;
    let ghost m = token_models(tokens@);
    proof {
        assert(forall|i: int| 0 <= i < m.len() ==> #[trigger] m[i] == tokens@[i]@);
    }
    let mut lines: Vec<Line> = Vec::new();
    let mut i: usize = 0;
    proof {
        assert(line_models(lines@) =~= Seq::<LineModel>::empty());
        assert(m.take(0) =~= Seq::<TokenModel>::empty());
        assert(total_line_tokens(Seq::<LineModel>::empty()) == 0);
    }
    while i < tokens.len()
        invariant
            i <= tokens@.len(),
            tokens@.len() <= TOKEN_MAX,
            bh == cfg.line_bucket_height,
            bh >= 1,
            m == token_models(tokens@),
            forall|j: int| 0 <= j < m.len() ==> token_wf(#[trigger] m[j]),
            line_models(lines@) == group_spec(m.take(i as int), bh as int),
            grouped_wf(line_models(lines@), bh as int),
            total_line_tokens(line_models(lines@)) == i,
        decreases tokens@.len() - i,
    {
        let t = copy_token(&tokens[i]);
        proof {
            assert(t@ == m[i as int]);
            assert(m.take(i + 1).drop_last() =~= m.take(i as int));
            assert(m.take(i + 1).last() == m[i as int]);
            lemma_insert_token_props(line_models(lines@), t@, bh as int);
        }
        insert_token(&mut lines, t, bh);
        i += 1;
    }
    proof {
        assert(m.take(tokens@.len() as int) =~= m);
    }
    lines
}

/// In a sequence ordered by adjacent pairs, the head is least.
pub proof fn lemma_sorted_head_least(s: Seq<TokenModel>)
    requires
        forall|i: int| 0 <= i < s.len() - 1 ==> (#[trigger] s[i]).h_pos <= s[i + 1].h_pos,
    ensures
        forall|i: int| 0 <= i < s.len() ==> s[0].h_pos <= (#[trigger] s[i]).h_pos,
    decreases s.len(),
{
    if s.len() > 1 {
        let s1 = s.drop_first();
        assert(forall|i: int|
            0 <= i < s1.len() - 1 ==> (#[trigger] s1[i]).h_pos <= s1[i + 1].h_pos) by {
            assert(forall|i: int| 0 <= i < s1.len() ==> #[trigger] s1[i] == s[i + 1]);
        }
        lemma_sorted_head_least(s1);
        assert forall|i: int| 0 <= i < s.len() implies s[0].h_pos <= (#[trigger] s[i]).h_pos by {
            if i > 0 {
                assert(s1[i - 1] == s[i]);
                assert(s1[0] == s[1]);
                assert(s1[0].h_pos <= s1[i - 1].h_pos);
                assert(s[0].h_pos <= s[1].h_pos);
            }
        }
    }
}

/// Law: grouping is a function of the token sequence alone — the same
/// token sequence grouped twice yields identical lines, with the same
/// membership in the same order.
pub proof fn lemma_grouping_deterministic(a: Seq<TokenModel>, b: Seq<TokenModel>, bh: int)
    requires
        a == b,
    ensures
        group_spec(a, bh) == group_spec(b, bh),
{
}

} // verus!
