//! Positioned tokens and the lines they group into.
//!
//! A token is one positioned unit of text: non-empty content plus a
//! fixed-point position and extent in source coordinates (tenths of a unit,
//! origin top left, vertical coordinates growing downward). A line is a run
//! of tokens sharing a vertical band, ordered by horizontal position.

use vstd::prelude::*;
use crate::config::COORD_MAX;
use crate::config::CONTENT_MAX;

verus! {

/// Mathematical image of a [`Token`]: its content as a character sequence
/// and its coordinates as unbounded integers.
pub struct TokenModel {
    pub content: Seq<char>,
    pub h_pos: int,
    pub v_pos: int,
    pub width: int,
    pub height: int,
}

/// One positioned unit of text. Coordinates are fixed-point tenths of a
/// source unit.
pub struct Token {
    pub content: Vec<char>,
    pub h_pos: i64,
    pub v_pos: i64,
    pub width: i64,
    pub height: i64,
}

impl View for Token {
    type V = TokenModel;

    open spec fn view(&self) -> TokenModel {
        TokenModel {
            content: self.content@,
            h_pos: self.h_pos as int,
            v_pos: self.v_pos as int,
            width: self.width as int,
            height: self.height as int,
        }
    }
}

/// A coordinate clamped below at zero: negative positions fall onto the
/// canvas edge rather than being rejected.
pub open spec fn clamp0(x: int) -> int {
    if x < 0 {
        0
    } else {
        x
    }
}

/// A coordinate clamped into the canvas range.
pub open spec fn clamp_coord(x: int) -> int {
    if x < -COORD_MAX {
        -COORD_MAX as int
    } else if x > COORD_MAX {
        COORD_MAX as int
    } else {
        x
    }
}

/// A well-formed token: non-empty content of bounded length that carries no
/// line break, and coordinates within the canvas range.
pub open spec fn token_wf(t: TokenModel) -> bool {
    &&& 1 <= t.content.len() <= CONTENT_MAX
    &&& forall|i: int| 0 <= i < t.content.len() ==> t.content[i] != '\n'
    &&& -COORD_MAX <= t.h_pos <= COORD_MAX
    &&& -COORD_MAX <= t.v_pos <= COORD_MAX
    &&& -COORD_MAX <= t.width <= COORD_MAX
    &&& -COORD_MAX <= t.height <= COORD_MAX
}

impl Token {
    pub open spec fn wf(&self) -> bool {
        token_wf(self@)
    }

    /// Ingest one extracted record. Line breaks are stripped from the
    /// content (a token is a single positioned unit), coordinates are
    /// clamped into the canvas range, and a token whose content is empty
    /// after stripping is dropped.
    pub fn new(content: Vec<char>, h_pos: i64, v_pos: i64, width: i64, height: i64) -> (r: Option<
        Token,
    >)
        requires
            content@.len() <= CONTENT_MAX,
        ensures
            match r {
                Option::Some(t) => {
                    &&& t.wf()
                    &&& t@.content == content@.filter(|c: char| c != '\n')
                    &&& t@.h_pos == clamp_coord(h_pos as int)
                    &&& t@.v_pos == clamp_coord(v_pos as int)
                    &&& t@.width == clamp_coord(width as int)
                    &&& t@.height == clamp_coord(height as int)
                },
                Option::None => content@.filter(|c: char| c != '\n').len() == 0,
            },
    {
        let mut kept: Vec<char> = Vec::new();
        let mut i: usize = 0;
        while i < content.len()
            invariant
                i <= content@.len(),
                kept@ == content@.take(i as int).filter(|c: char| c != '\n'),
            decreases content@.len() - i,
        {
            let c = content[i];
            proof {
                reveal(Seq::filter);
                assert(content@.take(i + 1).drop_last() =~= content@.take(i as int));
                assert(content@.take(i + 1).last() == c);
            }
            if c != '\n' {
                kept.push(c);
            }
            i += 1;
        }
        proof {
            assert(content@.take(content@.len() as int) =~= content@);
        }
        if kept.len() == 0 {
            return Option::None;
        }
        proof {
            content@.lemma_filter_len(|c: char| c != '\n');
        }
        Option::Some(
            Token {
                content: kept,
                h_pos: clamp_coord_exec(h_pos),
                v_pos: clamp_coord_exec(v_pos),
                width: clamp_coord_exec(width),
                height: clamp_coord_exec(height),
            },
        )
    }
}

/// A copy of a token with the same content and coordinates.
pub fn copy_token(t: &Token) -> (r: Token)
    ensures
        r@ == t@,
{
    let mut content: Vec<char> = Vec::new();
    let mut i: usize = 0;
    while i < t.content.len()
        invariant
            i <= t.content@.len(),
            content@ == t.content@.take(i as int),
        decreases t.content@.len() - i,
    {
        content.push(t.content[i]);
        proof {
            assert(content@ =~= t.content@.take(i + 1));
        }
        i += 1;
    }
    proof {
        assert(t.content@.take(t.content@.len() as int) =~= t.content@);
    }
    Token { content, h_pos: t.h_pos, v_pos: t.v_pos, width: t.width, height: t.height }
}

/// Clamp a coordinate into the canvas range.
pub fn clamp_coord_exec(x: i64) -> (r: i64)
    ensures
        r as int == clamp_coord(x as int),
{
    if x < -COORD_MAX {
        -COORD_MAX
    } else if x > COORD_MAX {
        COORD_MAX
    } else {
        x
    }
}

/// Clamp a coordinate below at zero.
pub fn clamp0_exec(x: i64) -> (r: i64)
    ensures
        r as int == clamp0(x as int),
        r >= 0,
{
    if x < 0 {
        0
    } else {
        x
    }
}

/// Mathematical image of a [`Line`].
pub struct LineModel {
    pub tokens: Seq<TokenModel>,
    pub avg_v_pos: int,
    pub is_table: bool,
}

/// Tokens sharing one inferred vertical band, ordered by horizontal
/// position. `avg_v_pos` is the mean of the members' vertical positions
/// (clamped below at zero, rounded down); `is_table` is set by the block
/// classifier alone.
pub struct Line {
    pub tokens: Vec<Token>,
    pub avg_v_pos: i64,
    pub is_table: bool,
}

impl View for Line {
    type V = LineModel;

    open spec fn view(&self) -> LineModel {
        LineModel {
            tokens: self.tokens@.map_values(|t: Token| t@),
            avg_v_pos: self.avg_v_pos as int,
            is_table: self.is_table,
        }
    }
}

/// The models of a sequence of tokens.
pub open spec fn token_models(s: Seq<Token>) -> Seq<TokenModel> {
    s.map_values(|t: Token| t@)
}

/// The models of a sequence of lines.
pub open spec fn line_models(s: Seq<Line>) -> Seq<LineModel> {
    s.map_values(|l: Line| l@)
}

/// Sum of the members' vertical positions, each clamped below at zero.
pub open spec fn sum_clamped_v(s: Seq<TokenModel>) -> int
    decreases s.len(),
{
    if s.len() == 0 {
        0
    } else {
        sum_clamped_v(s.drop_last()) + clamp0(s.last().v_pos)
    }
}

/// A well-formed line: at least one well-formed token, tokens ordered by
/// ascending horizontal position, and the stored average equal to the
/// rounded mean of the members' clamped vertical positions.
pub open spec fn line_wf(l: LineModel) -> bool {
    &&& l.tokens.len() >= 1
    &&& forall|i: int| 0 <= i < l.tokens.len() ==> token_wf(#[trigger] l.tokens[i])
    &&& forall|i: int|
        0 <= i < l.tokens.len() - 1 ==> (#[trigger] l.tokens[i].h_pos) <= l.tokens[i + 1].h_pos
    &&& l.avg_v_pos == sum_clamped_v(l.tokens) / l.tokens.len() as int
}

/// The sum of clamped vertical positions is bounded by the canvas range.
pub proof fn lemma_sum_clamped_v_bounds(s: Seq<TokenModel>)
    requires
        forall|i: int| 0 <= i < s.len() ==> token_wf(#[trigger] s[i]),
    ensures
        0 <= sum_clamped_v(s) <= s.len() * COORD_MAX,
    decreases s.len(),
{
    if s.len() > 0 {
        lemma_sum_clamped_v_bounds(s.drop_last());
        assert(token_wf(s[s.len() - 1]));
        assert((s.len() - 1) * COORD_MAX + COORD_MAX == s.len() * COORD_MAX) by (nonlinear_arith);
    }
}

/// A well-formed line's average vertical position lies on the canvas.
pub proof fn lemma_line_avg_bounds(l: LineModel)
    requires
        line_wf(l),
    ensures
        0 <= l.avg_v_pos <= COORD_MAX,
{
    lemma_sum_clamped_v_bounds(l.tokens);
    let n = l.tokens.len() as int;
    assert(sum_clamped_v(l.tokens) <= n * COORD_MAX);
    vstd::arithmetic::div_mod::lemma_div_is_ordered(sum_clamped_v(l.tokens), n * COORD_MAX, n);
    assert(n * COORD_MAX / n == COORD_MAX) by (nonlinear_arith)
        requires n >= 1;
}

} // verus!
