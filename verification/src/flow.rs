//! Flowed linear text: an alternative to the raw grid.
//!
//! Lines arrive sorted by ascending average vertical position. The
//! vertical gap between two successive lines decides how they join: a gap
//! within one line height keeps them on one visual line, separated by a
//! single space; a larger gap inserts line breaks, more for wider gaps,
//! monotonically and capped. Within a line, an ordinary line joins its
//! tokens with single spaces; a table line spaces its tokens by their
//! coordinates, so columns keep their alignment.

use vstd::prelude::*;
use crate::config::COORD_MAX;
use crate::config::LayoutConfig;
use crate::token::Line;
use crate::token::LineModel;
use crate::token::TokenModel;
use crate::token::token_wf;
use crate::token::line_wf;
use crate::token::line_models;
use crate::bridge::append_chars;

verus! {

/// How many line breaks a vertical gap earns: none within one line
/// height, one up to the section threshold, beyond it more as the gap
/// grows, capped at `max_breaks`.
pub open spec fn gap_breaks(gap: int, line_gap: int, section_gap: int, max_breaks: int) -> int {
    if gap <= line_gap {
        0
    } else if gap <= section_gap {
        1
    } else {
        let b = 1 + gap / section_gap;
        if b > max_breaks {
            max_breaks
        } else {
            b
        }
    }
}

/// Law: the gap-to-break-count conversion is monotonic and capped — a
/// wider gap never earns fewer breaks, and none earns more than the cap.
pub proof fn lemma_gap_breaks_monotonic(
    g1: int,
    g2: int,
    line_gap: int,
    section_gap: int,
    max_breaks: int,
)
    requires
        0 <= g1 <= g2,
        1 <= line_gap <= section_gap,
        max_breaks >= 2,
    ensures
        gap_breaks(g1, line_gap, section_gap, max_breaks) <= gap_breaks(
            g2,
            line_gap,
            section_gap,
            max_breaks,
        ),
        0 <= gap_breaks(g1, line_gap, section_gap, max_breaks) <= max_breaks,
{
    if g1 > section_gap {
        vstd::arithmetic::div_mod::lemma_div_is_ordered(g1, g2, section_gap);
        assert(g1 / section_gap >= 1) by (nonlinear_arith)
            requires
                g1 > section_gap >= 1,
        ;
    }
    if g2 > section_gap {
        assert(g2 / section_gap >= 1) by (nonlinear_arith)
            requires
                g2 > section_gap >= 1,
        ;
    }
}

/// A run of spaces.
pub open spec fn spaces(n: int) -> Seq<char> {
    Seq::new(n as nat, |i: int| ' ')
}

/// A run of line breaks.
pub open spec fn breaks(n: int) -> Seq<char> {
    Seq::new(n as nat, |i: int| '\n')
}

/// The separator a gap earns: a single space where the lines share a
/// visual line, otherwise the earned line breaks.
pub open spec fn sep_spec(b: int) -> Seq<char> {
    if b == 0 {
        seq![' ']
    } else {
        breaks(b)
    }
}

/// The filler width between two table tokens: their coordinate distance
/// in character cells, rounded to the nearest cell, at least one and at
/// most twenty.
pub open spec fn table_filler(prev: TokenModel, t: TokenModel, cw: int) -> int {
    let diff = t.h_pos - (prev.h_pos + prev.width);
    if diff <= 0 {
        1
    } else {
        let q = (diff + cw / 2) / cw;
        if q < 1 {
            1
        } else if q > 20 {
            20
        } else {
            q
        }
    }
}

/// An ordinary line's text: token contents joined by single spaces.
pub open spec fn plain_text_spec(toks: Seq<TokenModel>) -> Seq<char>
    decreases toks.len(),
{
    if toks.len() == 0 {
        Seq::<char>::empty()
    } else if toks.len() == 1 {
        toks[0].content
    } else {
        plain_text_spec(toks.drop_last()) + seq![' '] + toks.last().content
    }
}

/// A table line's text: token contents separated by coordinate-derived
/// filler spaces.
pub open spec fn table_text_spec(toks: Seq<TokenModel>, cw: int) -> Seq<char>
    decreases toks.len(),
{
    if toks.len() == 0 {
        Seq::<char>::empty()
    } else if toks.len() == 1 {
        toks[0].content
    } else {
        table_text_spec(toks.drop_last(), cw) + spaces(
            table_filler(toks[toks.len() - 2], toks.last(), cw),
        ) + toks.last().content
    }
}

/// One line's flowed text, by its table flag.
pub open spec fn line_text_spec(l: LineModel, cw: int) -> Seq<char> {
    if l.is_table {
        table_text_spec(l.tokens, cw)
    } else {
        plain_text_spec(l.tokens)
    }
}

/// The flowed text of a whole page: lines in order, each joined to its
/// predecessor by the separator its vertical gap earns.
pub open spec fn flow_spec(lines: Seq<LineModel>, cfg: LayoutConfig) -> Seq<char>
    decreases lines.len(),
{
    if lines.len() == 0 {
        Seq::<char>::empty()
    } else if lines.len() == 1 {
        line_text_spec(lines[0], cfg.char_width as int)
    } else {
        let gap = lines.last().avg_v_pos - lines[lines.len() - 2].avg_v_pos;
        flow_spec(lines.drop_last(), cfg) + sep_spec(
            gap_breaks(gap, cfg.line_gap as int, cfg.section_gap as int, cfg.max_breaks as int),
        ) + line_text_spec(lines.last(), cfg.char_width as int)
    }
}

/// How many breaks a gap earns.
pub fn gap_breaks_exec(gap: u64, cfg: &LayoutConfig) -> (b: u64)
    requires
        cfg.wf(),
    ensures
        b as int == gap_breaks(
            gap as int,
            cfg.line_gap as int,
            cfg.section_gap as int,
            cfg.max_breaks as int,
        ),
        b <= cfg.max_breaks,
{
    if gap <= cfg.line_gap {
        0
    } else if gap <= cfg.section_gap {
        1
    } else {
        proof {
            assert(gap as int / (cfg.section_gap as int) >= 0) by (nonlinear_arith)
                requires
                    gap as int >= 0,
                    cfg.section_gap as int >= 1,
            ;
        }
        let q = gap / cfg.section_gap;
        if q >= cfg.max_breaks {
            cfg.max_breaks
        } else {
            1 + q
        }
    }
}

/// One line's flowed text.
fn line_text_exec(l: &Line, cw: u64) -> (out: Vec<char>)
    requires
        line_wf(l@),
        1 <= cw <= COORD_MAX,
    ensures
        out@ == line_text_spec(l@, cw as int),
{
    let ghost toks = l@.tokens;
    proof {
        assert(forall|i: int| 0 <= i < toks.len() ==> #[trigger] toks[i] == l.tokens@[i]@);
    }
    let table = l.is_table;
    let n = l.tokens.len();
    let mut out: Vec<char> = Vec::new();
    append_chars(&mut out, &l.tokens[0].content);
    proof {
        assert(out@ =~= toks[0].content);
        assert(toks.take(1).len() == 1 && toks.take(1)[0] == toks[0]);
        if table {
            assert(out@ == table_text_spec(toks.take(1), cw as int));
        } else {
            assert(out@ == plain_text_spec(toks.take(1)));
        }
    }
    let mut k: usize = 1;
    while k < n
        invariant
            1 <= k <= n,
            n == toks.len(),
            toks == l@.tokens,
            line_wf(l@),
            table == l@.is_table,
            1 <= cw <= COORD_MAX,
            forall|i: int| 0 <= i < toks.len() ==> #[trigger] toks[i] == l.tokens@[i]@,
            table ==> out@ == table_text_spec(toks.take(k as int), cw as int),
            !table ==> out@ == plain_text_spec(toks.take(k as int)),
        decreases n - k,
    {
        proof {
            assert(toks.take(k + 1).drop_last() =~= toks.take(k as int));
            assert(toks.take(k + 1).last() == toks[k as int]);
            assert(toks.take(k + 1)[k - 1] == toks[k - 1]);
            assert(token_wf(toks[k as int]));
            assert(token_wf(toks[k - 1]));
        }
        if table {
            let prev_end = l.tokens[k - 1].h_pos + l.tokens[k - 1].width;
            let diff = l.tokens[k].h_pos - prev_end;
            let filler: u64 = if diff <= 0 {
                1
            } else {
                proof {
                    assert((diff as int + cw as int / 2) / (cw as int) >= 0) by (nonlinear_arith)
                        requires
                            diff as int >= 0,
                            cw as int >= 1,
                    ;
                }
                let q = ((diff as u64) + cw / 2) / cw;
                if q < 1 {
                    1
                } else if q > 20 {
                    20
                } else {
                    q
                }
            };
            proof {
                assert(filler as int == table_filler(toks[k - 1], toks[k as int], cw as int));
            }
            let ghost mid = out@;
            let mut s: u64 = 0;
            while s < filler
                invariant
                    s <= filler,
                    filler <= 20,
                    out@ == mid + spaces(s as int),
                decreases filler - s,
            {
                out.push(' ');
                proof {
                    assert(out@ =~= mid + spaces(s as int + 1));
                }
                s += 1;
            }
            append_chars(&mut out, &l.tokens[k].content);
        } else {
            out.push(' ');
            append_chars(&mut out, &l.tokens[k].content);
            proof {
                assert(out@ =~= plain_text_spec(toks.take(k as int)) + seq![' ']
                    + toks[k as int].content);
            }
        }
        k += 1;
    }
    proof {
        assert(toks.take(n as int) =~= toks);
    }
    out
}

/// The flowed text of a whole page. Lines must arrive sorted by ascending
/// average vertical position, as the grouper emits them.
pub fn flow_text(lines: &Vec<Line>, cfg: &LayoutConfig) -> (out: Vec<char>)
    requires
        cfg.wf(),
        forall|i: int| 0 <= i < lines@.len() ==> line_wf((#[trigger] lines@[i])@),
        forall|i: int|
            0 <= i < lines@.len() - 1 ==> (#[trigger] lines@[i])@.avg_v_pos <= lines@[i
                + 1]@.avg_v_pos,
        forall|i: int|
            0 <= i < lines@.len() ==> 0 <= (#[trigger] lines@[i])@.avg_v_pos <= COORD_MAX,
    ensures
        out@ == flow_spec(line_models(lines@), *cfg),
{
    let ghost lm = line_models(lines@);
    proof {
        assert(forall|i: int| 0 <= i < lm.len() ==> #[trigger] lm[i] == lines@[i]@);
    }
    let n = lines.len();
    let mut out: Vec<char> = Vec::new();
    if n == 0 {
        proof {
            assert(out@ =~= flow_spec(lm, *cfg));
        }
        return out;
    }
    let first = line_text_exec(&lines[0], cfg.char_width);
    append_chars(&mut out, &first);
    proof {
        assert(out@ =~= line_text_spec(lm[0], cfg.char_width as int));
        assert(lm.take(1).len() == 1 && lm.take(1)[0] == lm[0]);
        assert(out@ == flow_spec(lm.take(1), *cfg));
    }
    let mut i: usize = 1;
    while i < n
        invariant
            1 <= i <= n,
            n == lm.len(),
            lm == line_models(lines@),
            cfg.wf(),
            forall|j: int| 0 <= j < lm.len() ==> #[trigger] lm[j] == lines@[j]@,
            forall|j: int| 0 <= j < lm.len() ==> line_wf(#[trigger] lm[j]),
            forall|j: int|
                0 <= j < lm.len() - 1 ==> (#[trigger] lm[j]).avg_v_pos <= lm[j + 1].avg_v_pos,
            forall|j: int| 0 <= j < lm.len() ==> 0 <= (#[trigger] lm[j]).avg_v_pos <= COORD_MAX,
            out@ == flow_spec(lm.take(i as int), *cfg),
        decreases n - i,
    {
        proof {
            assert(lm.take(i + 1).drop_last() =~= lm.take(i as int));
            assert(lm.take(i + 1).last() == lm[i as int]);
            assert(lm.take(i + 1)[i - 1] == lm[i - 1]);
            assert(lm[i - 1].avg_v_pos <= lm[i as int].avg_v_pos);
        }
        let gap = (lines[i].avg_v_pos - lines[i - 1].avg_v_pos) as u64;
        let b = gap_breaks_exec(gap, cfg);
        let ghost mid = out@;
        let ghost sep = sep_spec(
            gap_breaks(gap as int, cfg.line_gap as int, cfg.section_gap as int, cfg.max_breaks as int),
        );
        if b == 0 {
            out.push(' ');
            proof {
                assert(out@ =~= mid + sep);
            }
        } else {
            let mut s: u64 = 0;
            while s < b
                invariant
                    s <= b,
                    b <= 1000,
                    out@ == mid + breaks(s as int),
                decreases b - s,
            {
                out.push('\n');
                proof {
                    assert(out@ =~= mid + breaks(s as int + 1));
                }
                s += 1;
            }
            proof {
                assert(out@ == mid + sep);
            }
        }
        let t = line_text_exec(&lines[i], cfg.char_width);
        append_chars(&mut out, &t);
        i += 1;
    }
    proof {
        assert(lm.take(n as int) =~= lm);
    }
    out
}

} // verus!
