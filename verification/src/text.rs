//! The text form of a board: one whitespace-separated token per cell
//! (`0` empty, `1` first player, `2` second player), rows separated by
//! newlines.  Serialization and parsing are exact inverses on valid
//! boards, which `lemma_text_round_trip` states and proves.

use crate::grid::{lemma_flat_index_decompose, lemma_flat_index_in_range, FieldStates, Grid};
use vstd::prelude::*;

verus! {

/// Why a text failed to parse as a board.
#[derive(Debug, Clone, Copy, PartialEq, Eq, Structural)]
pub enum ParseError {
    /// The input held no token at all (empty or all whitespace).
    EmptyInput,
    /// Row `row` (counted from zero) held a different number of tokens
    /// than the first row.
    RaggedRows { row: usize },
    /// The token at `col` of `row` (both counted from zero) was not one
    /// of the three cell states.
    InvalidToken { row: usize, col: usize },
}

/// Whitespace: what separates tokens and is trimmed at both ends.
pub open(crate) spec fn is_space(c: char) -> bool {
    c == ' ' || c == '\t' || c == '\r' || c == '\n'
}

/// An in-row separator: whitespace other than the row separator.
pub open(crate) spec fn is_sep(c: char) -> bool {
    c == ' ' || c == '\t' || c == '\r'
}

/// The cell state a single-character token denotes, if any.
pub open(crate) spec fn token_state(c: char) -> Option<FieldStates> {
    if c == '0' {
        Some(FieldStates::Empty)
    } else if c == '1' {
        Some(FieldStates::Player1)
    } else if c == '2' {
        Some(FieldStates::Player2)
    } else {
        None
    }
}

/// The first position at or after `i` holding a non-whitespace
/// character, or the end of the text.
pub open(crate) spec fn skip_space(s: Seq<char>, i: int) -> int
    decreases s.len() - i,
{
    if 0 <= i < s.len() && is_space(s[i]) {
        skip_space(s, i + 1)
    } else {
        i
    }
}

/// The position after the last non-whitespace character before `e`, or
/// zero.
pub open(crate) spec fn rskip_space(s: Seq<char>, e: int) -> int
    decreases e,
{
    if 0 < e <= s.len() && is_space(s[e - 1]) {
        rskip_space(s, e - 1)
    } else {
        e
    }
}

/// The first newline at or after `i` but before `e`, or `e`.
pub open(crate) spec fn line_end(s: Seq<char>, i: int, e: int) -> int
    decreases e - i,
{
    if i < e && s[i] != '\n' {
        line_end(s, i + 1, e)
    } else {
        i
    }
}

/// How many newlines lie in `[i, e)`.
pub open(crate) spec fn count_nl(s: Seq<char>, i: int, e: int) -> int
    decreases e - i,
{
    if i < e {
        count_nl(s, i + 1, e) + (if s[i] == '\n' {
            1int
        } else {
            0int
        })
    } else {
        0
    }
}

/// Position `p` starts a token of the line `[i, e)`: it holds a
/// non-separator character that is either first in the line or preceded
/// by a separator.
pub open(crate) spec fn tok_start(s: Seq<char>, i: int, e: int, p: int) -> bool {
    i <= p < e && !is_sep(s[p]) && (p == i || is_sep(s[p - 1]))
}

/// How many token starts of the line `[i, e)` lie at or after `j`.
pub open(crate) spec fn count_tok(s: Seq<char>, i: int, e: int, j: int) -> int
    decreases e - j,
{
    if j < e {
        count_tok(s, i, e, j + 1) + (if tok_start(s, i, e, j) {
            1int
        } else {
            0int
        })
    } else {
        0
    }
}

/// The position of the `c`-th token start of the line `[i, e)` at or
/// after `j`, or `e` when there is no such token.
pub open(crate) spec fn tok_pos(s: Seq<char>, i: int, e: int, j: int, c: int) -> int
    decreases e - j,
{
    if j >= e {
        e
    } else if tok_start(s, i, e, j) {
        if c <= 0 {
            j
        } else {
            tok_pos(s, i, e, j + 1, c - 1)
        }
    } else {
        tok_pos(s, i, e, j + 1, c)
    }
}

/// Start of the trimmed text.
pub open(crate) spec fn text_start(s: Seq<char>) -> int {
    skip_space(s, 0)
}

/// End of the trimmed text.
pub open(crate) spec fn text_end(s: Seq<char>) -> int {
    rskip_space(s, s.len() as int)
}

/// The input holds no token at all.
pub open(crate) spec fn text_empty(s: Seq<char>) -> bool {
    text_start(s) == s.len()
}

/// Number of rows: newline count of the trimmed text, plus one.
pub open(crate) spec fn parse_rows(s: Seq<char>) -> int {
    count_nl(s, text_start(s), text_end(s)) + 1
}

/// Start position of row `r` of the trimmed text.
pub open(crate) spec fn row_start(s: Seq<char>, r: int) -> int
    decreases r,
{
    if r <= 0 {
        text_start(s)
    } else {
        let prev = row_start(s, r - 1);
        let le = line_end(s, prev, text_end(s));
        if le < text_end(s) {
            le + 1
        } else {
            le
        }
    }
}

/// End position of row `r` of the trimmed text.
pub open(crate) spec fn row_end(s: Seq<char>, r: int) -> int {
    line_end(s, row_start(s, r), text_end(s))
}

/// Number of tokens in row `r`.
pub open(crate) spec fn row_tokens(s: Seq<char>, r: int) -> int {
    count_tok(s, row_start(s, r), row_end(s, r), row_start(s, r))
}

/// Number of columns: the token count of the first row.
pub open(crate) spec fn parse_cols(s: Seq<char>) -> int {
    row_tokens(s, 0)
}

/// Position of token `c` of row `r`.
pub open(crate) spec fn token_pos(s: Seq<char>, r: int, c: int) -> int {
    tok_pos(s, row_start(s, r), row_end(s, r), row_start(s, r), c)
}

/// Token `c` of the line `[i, e)` is a single character denoting a cell
/// state.
pub open(crate) spec fn line_token_ok(s: Seq<char>, i: int, e: int, c: int) -> bool {
    let p = tok_pos(s, i, e, i, c);
    &&& token_state(s[p]) is Some
    &&& (p + 1 == e || is_sep(s[p + 1]))
}

/// The cell state token `c` of the line `[i, e)` denotes.
pub open(crate) spec fn line_cell(s: Seq<char>, i: int, e: int, c: int) -> FieldStates {
    match token_state(s[tok_pos(s, i, e, i, c)]) {
        Some(f) => f,
        None => FieldStates::Empty,
    }
}

/// Token `c` of row `r` is a single character denoting a cell state.
pub open(crate) spec fn token_ok(s: Seq<char>, r: int, c: int) -> bool {
    line_token_ok(s, row_start(s, r), row_end(s, r), c)
}

/// Row `r` has as many tokens as the first row, all of them valid.
pub open(crate) spec fn row_ok(s: Seq<char>, r: int) -> bool {
    &&& row_tokens(s, r) == parse_cols(s)
    &&& forall|c: int| 0 <= c < parse_cols(s) ==> token_ok(s, r, c)
}

/// The whole text parses as a board: it holds a token, and every row
/// is rectangular and valid.
pub open(crate) spec fn text_ok(s: Seq<char>) -> bool {
    &&& !text_empty(s)
    &&& forall|r: int| 0 <= r < parse_rows(s) ==> row_ok(s, r)
}

/// The cell state token `c` of row `r` denotes.
pub open(crate) spec fn cell_of(s: Seq<char>, r: int, c: int) -> FieldStates {
    line_cell(s, row_start(s, r), row_end(s, r), c)
}

/// The digit character for one cell state.
pub open(crate) spec fn state_char(f: FieldStates) -> char {
    match f {
        FieldStates::Empty => '0',
        FieldStates::Player1 => '1',
        FieldStates::Player2 => '2',
    }
}

/// Character `p` of the text form of a board: cell digits at even
/// positions, separators at odd ones — a newline after the last cell of
/// a row, a space otherwise.
pub open(crate) spec fn ser_char(g: Seq<FieldStates>, cols: int, p: int) -> char {
    if p % 2 == 0 {
        state_char(g[p / 2])
    } else if (p / 2) % cols == cols - 1 {
        '\n'
    } else {
        ' '
    }
}

/// The text form of a board: each cell as its digit, cells of a row
/// separated by single spaces, each row closed by a newline.
pub open(crate) spec fn spec_serialize(g: Seq<FieldStates>, rows: int, cols: int) -> Seq<char> {
    Seq::new((2 * rows * cols) as nat, |p: int| ser_char(g, cols, p))
}

/// Newline counts are nonnegative and at most the width of the range.
pub proof fn lemma_count_nl_bound(s: Seq<char>, i: int, e: int)
    requires
        i <= e,
    ensures
        0 <= count_nl(s, i, e) <= e - i,
    decreases e - i,
{
    if i < e {
        lemma_count_nl_bound(s, i + 1, e);
    }
}

/// What `line_end` finds: the range up to it is newline-free, it stops
/// at a newline or the end, and it swallows no newline of the count.
pub proof fn lemma_line_end_props(s: Seq<char>, i: int, e: int)
    requires
        0 <= i <= e <= s.len(),
    ensures
        i <= line_end(s, i, e) <= e,
        line_end(s, i, e) < e ==> s[line_end(s, i, e)] == '\n',
        forall|k: int| i <= k < line_end(s, i, e) ==> s[k] != '\n',
        count_nl(s, i, e) == count_nl(s, line_end(s, i, e), e),
    decreases e - i,
{
    if i < e && s[i] != '\n' {
        lemma_line_end_props(s, i + 1, e);
    }
}

/// Token counts are nonnegative and at most the width of the range.
pub proof fn lemma_count_tok_bound(s: Seq<char>, i: int, e: int, j: int)
    requires
        j <= e,
    ensures
        0 <= count_tok(s, i, e, j) <= e - j,
    decreases e - j,
{
    if j < e {
        lemma_count_tok_bound(s, i, e, j + 1);
    }
}

/// What `skip_space` finds: everything before it is whitespace and it
/// stops at a non-whitespace character or the end.
pub proof fn lemma_skip_space_props(s: Seq<char>, i: int)
    requires
        0 <= i <= s.len(),
    ensures
        i <= skip_space(s, i) <= s.len(),
        skip_space(s, i) < s.len() ==> !is_space(s[skip_space(s, i)]),
        forall|k: int| i <= k < skip_space(s, i) ==> is_space(s[k]),
    decreases s.len() - i,
{
    if i < s.len() && is_space(s[i]) {
        lemma_skip_space_props(s, i + 1);
    }
}

/// What `rskip_space` finds: everything at or after it up to `e` is
/// whitespace and the character just before it, if any, is not.
pub proof fn lemma_rskip_space_props(s: Seq<char>, e: int)
    requires
        0 <= e <= s.len(),
    ensures
        0 <= rskip_space(s, e) <= e,
        rskip_space(s, e) > 0 ==> !is_space(s[rskip_space(s, e) - 1]),
        forall|k: int| rskip_space(s, e) <= k < e ==> is_space(s[k]),
    decreases e,
{
    if 0 < e && is_space(s[e - 1]) {
        lemma_rskip_space_props(s, e - 1);
    }
}

/// Trimming never drops a non-whitespace character: the trimmed end
/// stays beyond any non-whitespace position.
pub proof fn lemma_rskip_space_above(s: Seq<char>, e: int, p: int)
    requires
        0 <= p < e <= s.len(),
        !is_space(s[p]),
    ensures
        rskip_space(s, e) >= p + 1,
    decreases e,
{
    if 0 < e && is_space(s[e - 1]) {
        lemma_rskip_space_above(s, e - 1, p);
    }
}

/// True when `c` is whitespace (token or row separator, trimmed at the
/// ends).
fn space_char(c: char) -> (r: bool)
    ensures
        r == is_space(c),
{
    c == ' ' || c == '\t' || c == '\r' || c == '\n'
}

/// True when `c` separates tokens within a row.
fn sep_char(c: char) -> (r: bool)
    ensures
        r == is_sep(c),
{
    c == ' ' || c == '\t' || c == '\r'
}

/// The cell state a single token character denotes, if any.
fn state_of_char(c: char) -> (r: Option<FieldStates>)
    ensures
        r == token_state(c),
{
    if c == '0' {
        Some(FieldStates::Empty)
    } else if c == '1' {
        Some(FieldStates::Player1)
    } else if c == '2' {
        Some(FieldStates::Player2)
    } else {
        None
    }
}

/// Scans forward from `from` past whitespace.
#[verifier::loop_isolation(false)]
fn scan_space(s: &str, from: usize) -> (r: usize)
    requires
        from <= s@.len(),
    ensures
        r == skip_space(s@, from as int),
        from <= r <= s@.len(),
{
    let n = s.unicode_len();
    let mut i = from;
    while i < n && space_char(s.get_char(i))
        invariant
            from <= i <= n,
            skip_space(s@, from as int) == skip_space(s@, i as int),
        decreases n - i,
    {
        i += 1;
    }
    i
}

/// Scans backward from `from` past whitespace.
#[verifier::loop_isolation(false)]
fn scan_space_rev(s: &str, from: usize) -> (r: usize)
    requires
        from <= s@.len(),
    ensures
        r == rskip_space(s@, from as int),
        r <= from,
{
    let mut e = from;
    while e > 0 && space_char(s.get_char(e - 1))
        invariant
            e <= from,
            rskip_space(s@, from as int) == rskip_space(s@, e as int),
        decreases e,
    {
        e -= 1;
    }
    e
}

/// Scans from `from` to the next newline before `e`, or to `e`.
#[verifier::loop_isolation(false)]
fn scan_line_end(s: &str, from: usize, e: usize) -> (r: usize)
    requires
        from <= e <= s@.len(),
    ensures
        r == line_end(s@, from as int, e as int),
        from <= r <= e,
{
    let mut i = from;
    while i < e && s.get_char(i) != '\n'
        invariant
            from <= i <= e,
            line_end(s@, from as int, e as int) == line_end(s@, i as int, e as int),
        decreases e - i,
    {
        i += 1;
    }
    i
}

/// Counts the newlines in `[from, e)`.
#[verifier::loop_isolation(false)]
fn scan_count_nl(s: &str, from: usize, e: usize) -> (r: usize)
    requires
        from <= e <= s@.len(),
    ensures
        r == count_nl(s@, from as int, e as int),
{
    proof {
        lemma_count_nl_bound(s@, from as int, e as int);
    }
    let mut count: usize = 0;
    let mut j = from;
    while j < e
        invariant
            from <= j <= e,
            count <= j - from,
            count_nl(s@, from as int, e as int) == count + count_nl(s@, j as int, e as int),
        decreases e - j,
    {
        if s.get_char(j) == '\n' {
            count += 1;
        }
        j += 1;
    }
    count
}

/// Counts the tokens of the row `[from, e)`.
#[verifier::loop_isolation(false)]
fn scan_count_tokens(s: &str, from: usize, e: usize) -> (r: usize)
    requires
        from <= e <= s@.len(),
    ensures
        r == count_tok(s@, from as int, e as int, from as int),
{
    let mut count: usize = 0;
    let mut j = from;
    while j < e
        invariant
            from <= j <= e,
            count <= j - from,
            count_tok(s@, from as int, e as int, from as int) == count + count_tok(
                s@,
                from as int,
                e as int,
                j as int,
            ),
        decreases e - j,
    {
        let here = !sep_char(s.get_char(j)) && (j == from || sep_char(s.get_char(j - 1)));
        if here {
            count += 1;
        }
        j += 1;
    }
    count
}

/// Validates the tokens of the row `[from, e)` in order and appends
/// their cell states to `fields`; on the first invalid token, stops and
/// reports its index.
#[verifier::loop_isolation(false)]
fn parse_row(s: &str, from: usize, e: usize, fields: &mut Vec<FieldStates>) -> (r: Result<
    (),
    usize,
>)
    requires
        from <= e <= s@.len(),
    ensures
        match r {
            Ok(()) => {
                let cnt = count_tok(s@, from as int, e as int, from as int);
                &&& final(fields)@ == old(fields)@ + Seq::new(
                    cnt as nat,
                    |c: int| line_cell(s@, from as int, e as int, c),
                )
                &&& forall|c: int| 0 <= c < cnt ==> line_token_ok(s@, from as int, e as int, c)
            },
            Err(col) => {
                let cnt = count_tok(s@, from as int, e as int, from as int);
                &&& 0 <= col < cnt
                &&& forall|c: int| 0 <= c < col ==> line_token_ok(s@, from as int, e as int, c)
                &&& !line_token_ok(s@, from as int, e as int, col as int)
            },
        },
{
    let ghost i0 = from as int;
    let ghost e0 = e as int;
    let ghost base = old(fields)@;
    let mut j = from;
    let mut col: usize = 0;
    while j < e
        invariant
            from <= j <= e,
            col <= j - from,
            j == from || j == e || is_sep(s@[j as int - 1]) || is_sep(s@[j as int]),
            forall|c: int|
                c >= 0 ==> tok_pos(s@, i0, e0, i0, col + c) == tok_pos(s@, i0, e0, j as int, c),
            count_tok(s@, i0, e0, i0) == col + count_tok(s@, i0, e0, j as int),
            fields@ == base + Seq::new(col as nat, |c: int| line_cell(s@, i0, e0, c)),
            forall|c: int| 0 <= c < col ==> line_token_ok(s@, i0, e0, c),
        decreases e - j,
    {
        let cj = s.get_char(j);
        if sep_char(cj) {
            proof {
                assert(!tok_start(s@, i0, e0, j as int));
                assert forall|c: int| c >= 0 implies tok_pos(s@, i0, e0, i0, col + c) == #[trigger] tok_pos(
                    s@,
                    i0,
                    e0,
                    j as int + 1,
                    c,
                ) by {
                    assert(tok_pos(s@, i0, e0, j as int, c) == tok_pos(s@, i0, e0, j as int + 1, c));
                }
            }
            j += 1;
        } else {
            proof {
                assert(tok_start(s@, i0, e0, j as int));
                assert(tok_pos(s@, i0, e0, j as int, 0) == j as int);
                assert(tok_pos(s@, i0, e0, i0, col + 0) == tok_pos(s@, i0, e0, j as int, 0));
                assert(tok_pos(s@, i0, e0, i0, col as int) == j as int);
            }
            let st = state_of_char(cj);
            let boundary = j + 1 == e || sep_char(s.get_char(j + 1));
            if st.is_some() && boundary {
                let f = st.unwrap();
                fields.push(f);
                proof {
                    assert(line_token_ok(s@, i0, e0, col as int));
                    assert(line_cell(s@, i0, e0, col as int) == f);
                    assert(fields@ =~= base + Seq::new(
                        (col + 1) as nat,
                        |c: int| line_cell(s@, i0, e0, c),
                    ));
                    assert forall|c: int| c >= 0 implies tok_pos(s@, i0, e0, i0, col + 1 + c)
                        == #[trigger] tok_pos(s@, i0, e0, j as int + 1, c) by {
                        assert(tok_pos(s@, i0, e0, i0, col + (1 + c)) == tok_pos(
                            s@,
                            i0,
                            e0,
                            j as int,
                            1 + c,
                        ));
                    }
                    assert(count_tok(s@, i0, e0, j as int) == 1 + count_tok(
                        s@,
                        i0,
                        e0,
                        j as int + 1,
                    ));
                }
                col += 1;
                j += 1;
            } else {
                proof {
                    lemma_count_tok_bound(s@, i0, e0, j as int + 1);
                    assert(count_tok(s@, i0, e0, j as int) >= 1);
                    assert(!line_token_ok(s@, i0, e0, col as int));
                }
                return Err(col);
            }
        }
    }
    proof {
        assert(count_tok(s@, i0, e0, e0) == 0);
    }
    Ok(())
}

/// Classification of the characters of a board's text form: digits at
/// even positions, whitespace at odd ones — a newline exactly at the
/// end of each row.
proof fn lemma_ser_char_class(g: Seq<FieldStates>, rows: int, cols: int)
    requires
        rows >= 1,
        cols >= 1,
        g.len() == rows * cols,
    ensures
        forall|p: int|
            0 <= p < 2 * rows * cols ==> #[trigger] is_space(spec_serialize(g, rows, cols)[p]) == (
            p % 2 == 1),
        forall|p: int|
            0 <= p < 2 * rows * cols && p % 2 == 0 ==> #[trigger] token_state(
                spec_serialize(g, rows, cols)[p],
            ) == Some(g[p / 2]),
        forall|p: int|
            0 <= p < 2 * rows * cols && p % 2 == 1 ==> (#[trigger] is_sep(
                spec_serialize(g, rows, cols)[p],
            ) <==> (p / 2) % cols != cols - 1),
        forall|p: int|
            0 <= p < 2 * rows * cols && p % 2 == 1 ==> ((spec_serialize(g, rows, cols)[p] == '\n')
                <==> #[trigger] ((p / 2) % cols) == cols - 1),
{
    assert forall|p: int| 0 <= p < 2 * rows * cols implies #[trigger] is_space(
        spec_serialize(g, rows, cols)[p],
    ) == (p % 2 == 1) by {
        assert(spec_serialize(g, rows, cols)[p] == ser_char(g, cols, p));
    }
    assert forall|p: int| 0 <= p < 2 * rows * cols && p % 2 == 0 implies #[trigger] token_state(
        spec_serialize(g, rows, cols)[p],
    ) == Some(g[p / 2]) by {
        assert(spec_serialize(g, rows, cols)[p] == ser_char(g, cols, p));
    }
    assert forall|p: int| 0 <= p < 2 * rows * cols && p % 2 == 1 implies (#[trigger] is_sep(
        spec_serialize(g, rows, cols)[p],
    ) <==> (p / 2) % cols != cols - 1) by {
        assert(spec_serialize(g, rows, cols)[p] == ser_char(g, cols, p));
    }
    assert forall|p: int| 0 <= p < 2 * rows * cols && p % 2 == 1 implies ((spec_serialize(
        g,
        rows,
        cols,
    )[p] == '\n') <==> #[trigger] ((p / 2) % cols) == cols - 1) by {
        assert(spec_serialize(g, rows, cols)[p] == ser_char(g, cols, p));
    }
}

/// `line_end` lands exactly at the first newline, or at the end of a
/// newline-free range.
proof fn lemma_line_end_at(s: Seq<char>, i: int, e: int, j: int)
    requires
        i <= j <= e,
        forall|k: int| i <= k < j ==> s[k] != '\n',
        j == e || s[j] == '\n',
    ensures
        line_end(s, i, e) == j,
    decreases j - i,
{
    if i < j {
        lemma_line_end_at(s, i + 1, e, j);
    }
}

/// The text form of a board needs no trimming: it starts with a digit
/// and only its final newline is dropped.
proof fn lemma_ser_trim(g: Seq<FieldStates>, rows: int, cols: int)
    requires
        rows >= 1,
        cols >= 1,
        g.len() == rows * cols,
    ensures
        text_start(spec_serialize(g, rows, cols)) == 0,
        text_end(spec_serialize(g, rows, cols)) == 2 * (rows * cols) - 1,
{
    let t = spec_serialize(g, rows, cols);
    lemma_ser_char_class(g, rows, cols);
    let m = rows * cols;
    assert(2 * m == 2 * rows * cols) by (nonlinear_arith)
        requires
            m == rows * cols,
    ;
    assert(m >= 1) by (nonlinear_arith)
        requires
            rows >= 1,
            cols >= 1,
            m == rows * cols,
    ;
    let n = 2 * m;
    assert(t.len() == n);
    assert(!is_space(t[0]));
    assert(skip_space(t, 0) == 0);
    let q = m - 1;
    assert(n - 1 == 2 * q + 1);
    assert((n - 1) % 2 == 1 && (n - 1) / 2 == q);
    assert(cols * (rows - 1) + (cols - 1) == q) by (nonlinear_arith)
        requires
            m == rows * cols,
            q == m - 1,
    ;
    lemma_flat_index_decompose(cols, rows - 1, cols - 1);
    assert((rows - 1) * cols == cols * (rows - 1)) by (nonlinear_arith);
    assert(q % cols == cols - 1);
    assert(t[n - 1] == '\n' && is_space(t[n - 1]));
    assert(rskip_space(t, n) == rskip_space(t, n - 1));
    assert(n - 2 == 2 * q);
    assert((n - 2) % 2 == 0 && (n - 2) / 2 == q);
    assert(!is_space(t[n - 2]));
    assert(rskip_space(t, n - 1) == n - 1);
}

/// Rows of the text form: row `r` spans positions `2*(cols*r)` up to
/// its closing newline at `2*(cols*r) + 2*cols - 1`.
proof fn lemma_ser_rows(g: Seq<FieldStates>, rows: int, cols: int, r: int)
    requires
        rows >= 1,
        cols >= 1,
        g.len() == rows * cols,
        0 <= r < rows,
    ensures
        row_start(spec_serialize(g, rows, cols), r) == 2 * (cols * r),
        row_end(spec_serialize(g, rows, cols), r) == 2 * (cols * r) + 2 * cols - 1,
        r < rows - 1 ==> spec_serialize(g, rows, cols)[2 * (cols * r) + 2 * cols - 1] == '\n',
        r < rows - 1 ==> 2 * (cols * r) + 2 * cols - 1 < 2 * (rows * cols) - 1,
    decreases r,
{
    let t = spec_serialize(g, rows, cols);
    let m = rows * cols;
    let n = 2 * m;
    lemma_ser_char_class(g, rows, cols);
    lemma_ser_trim(g, rows, cols);
    assert(2 * m == 2 * rows * cols) by (nonlinear_arith)
        requires
            m == rows * cols,
    ;
    assert(t.len() == n);
    let lr = 2 * (cols * r);
    let le = lr + 2 * cols - 1;
    assert(cols * r + cols <= m) by (nonlinear_arith)
        requires
            0 <= r < rows,
            cols >= 1,
            m == rows * cols,
    ;
    assert(0 <= cols * r) by (nonlinear_arith)
        requires
            0 <= r,
            cols >= 1,
    ;
    assert(le <= n - 1);
    if r == 0 {
        assert(cols * r == 0) by (nonlinear_arith)
            requires
                r == 0,
        ;
        assert(row_start(t, 0) == 0);
    } else {
        lemma_ser_rows(g, rows, cols, r - 1);
        assert(cols * (r - 1) + cols == cols * r) by (nonlinear_arith);
        assert(2 * (cols * (r - 1)) + 2 * cols == 2 * (cols * r));
        assert(row_end(t, r - 1) == lr - 1);
        assert(row_start(t, r) == lr);
    }
    // No newline before the row's closing separator.
    assert forall|k: int| lr <= k < le implies t[k] != '\n' by {
        if k % 2 == 1 {
            let mk = k / 2;
            assert(k == 2 * mk + 1);
            let c = mk - cols * r;
            assert(0 <= c < cols - 1);
            lemma_flat_index_decompose(cols, r, c);
            assert(r * cols == cols * r) by (nonlinear_arith);
            assert(mk % cols == c);
            assert(t[k] != '\n');
        } else {
            assert(t[k] != '\n');
        }
    }
    // The closing separator itself is the newline.
    let mq = cols * r + cols - 1;
    assert(le == 2 * mq + 1);
    assert(le % 2 == 1 && le / 2 == mq);
    lemma_flat_index_decompose(cols, r, cols - 1);
    assert(r * cols == cols * r) by (nonlinear_arith);
    assert(mq % cols == cols - 1);
    assert(le == n - 1 || t[le] == '\n');
    lemma_line_end_at(t, lr, n - 1, le);
    assert(row_start(t, r) == lr);
    assert(text_end(t) == n - 1);
    assert(row_end(t, r) == line_end(t, lr, n - 1));
    assert(row_end(t, r) == le);
    if r < rows - 1 {
        assert(cols * r + 2 * cols <= m) by (nonlinear_arith)
            requires
                0 <= r < rows - 1,
                cols >= 1,
                m == rows * cols,
        ;
        assert(le < n - 1);
        assert(t[le] == '\n');
    }
}

/// Newlines of the text form: from the start of row `r` to the trimmed
/// end there are exactly `rows - 1 - r` of them.
proof fn lemma_ser_count_nl(g: Seq<FieldStates>, rows: int, cols: int, r: int)
    requires
        rows >= 1,
        cols >= 1,
        g.len() == rows * cols,
        0 <= r < rows,
    ensures
        count_nl(spec_serialize(g, rows, cols), 2 * (cols * r), 2 * (rows * cols) - 1) == rows - 1
            - r,
    decreases rows - r,
{
    let t = spec_serialize(g, rows, cols);
    let m = rows * cols;
    let n = 2 * m;
    assert(2 * m == 2 * rows * cols) by (nonlinear_arith)
        requires
            m == rows * cols,
    ;
    lemma_ser_rows(g, rows, cols, r);
    lemma_ser_trim(g, rows, cols);
    let lr = 2 * (cols * r);
    let le = lr + 2 * cols - 1;
    assert(cols * r + cols <= m) by (nonlinear_arith)
        requires
            0 <= r < rows,
            cols >= 1,
            m == rows * cols,
    ;
    assert(0 <= cols * r) by (nonlinear_arith)
        requires
            0 <= r,
            cols >= 1,
    ;
    lemma_line_end_props(t, lr, n - 1);
    assert(line_end(t, lr, n - 1) == le);
    assert(count_nl(t, lr, n - 1) == count_nl(t, le, n - 1));
    if r == rows - 1 {
        assert(cols * r + cols == m) by (nonlinear_arith)
            requires
                r == rows - 1,
                m == rows * cols,
        ;
        assert(le == n - 1);
        assert(count_nl(t, le, n - 1) == 0);
    } else {
        assert(le < n - 1);
        assert(t[le] == '\n');
        assert(cols * r + cols == cols * (r + 1)) by (nonlinear_arith);
        assert(le + 1 == 2 * (cols * (r + 1)));
        lemma_ser_count_nl(g, rows, cols, r + 1);
        assert(count_nl(t, le, n - 1) == 1 + count_nl(t, le + 1, n - 1));
    }
}

/// Token positions of the text form: within a row the `c`-th token
/// after the one at offset `t0` sits exactly `2*c` characters further.
proof fn lemma_ser_tok_pos(g: Seq<FieldStates>, rows: int, cols: int, r: int, t0: int, c: int)
    requires
        rows >= 1,
        cols >= 1,
        g.len() == rows * cols,
        0 <= r < rows,
        0 <= t0,
        0 <= c,
        t0 + c <= cols - 1,
    ensures
        tok_pos(
            spec_serialize(g, rows, cols),
            2 * (cols * r),
            2 * (cols * r) + 2 * cols - 1,
            2 * (cols * r) + 2 * t0,
            c,
        ) == 2 * (cols * r) + 2 * (t0 + c),
    decreases c,
{
    let t = spec_serialize(g, rows, cols);
    let m = rows * cols;
    let n = 2 * m;
    assert(2 * m == 2 * rows * cols) by (nonlinear_arith)
        requires
            m == rows * cols,
    ;
    lemma_ser_char_class(g, rows, cols);
    let lr = 2 * (cols * r);
    let le = lr + 2 * cols - 1;
    let j = lr + 2 * t0;
    assert(cols * r + cols <= m) by (nonlinear_arith)
        requires
            0 <= r < rows,
            cols >= 1,
            m == rows * cols,
    ;
    assert(0 <= cols * r) by (nonlinear_arith)
        requires
            0 <= r,
            cols >= 1,
    ;
    // The character at the token offset is a digit.
    assert(j == 2 * (cols * r + t0) && j % 2 == 0 && j / 2 == cols * r + t0);
    assert(!is_space(t[j]) && !is_sep(t[j]));
    // Its predecessor, if inside the row, is a separator.
    if t0 > 0 {
        let pk = cols * r + t0 - 1;
        assert(j - 1 == 2 * pk + 1 && (j - 1) % 2 == 1 && (j - 1) / 2 == pk);
        lemma_flat_index_decompose(cols, r, t0 - 1);
        assert(r * cols == cols * r) by (nonlinear_arith);
        assert(pk % cols == t0 - 1);
        assert(is_sep(t[j - 1]));
    }
    assert(tok_start(t, lr, le, j));
    if c == 0 {
        assert(tok_pos(t, lr, le, j, 0) == j);
    } else {
        let sk = cols * r + t0;
        assert(j + 1 == 2 * sk + 1 && (j + 1) % 2 == 1 && (j + 1) / 2 == sk);
        lemma_flat_index_decompose(cols, r, t0);
        assert(r * cols == cols * r) by (nonlinear_arith);
        assert(sk % cols == t0);
        assert(is_sep(t[j + 1]));
        assert(!tok_start(t, lr, le, j + 1));
        lemma_ser_tok_pos(g, rows, cols, r, t0 + 1, c - 1);
        assert(tok_pos(t, lr, le, j, c) == tok_pos(t, lr, le, j + 1, c - 1));
        assert(tok_pos(t, lr, le, j + 1, c - 1) == tok_pos(t, lr, le, j + 2, c - 1));
    }
}

/// Token counts of the text form: from offset `t0` of a row, exactly
/// `cols - t0` tokens remain.
proof fn lemma_ser_count_tok(g: Seq<FieldStates>, rows: int, cols: int, r: int, t0: int)
    requires
        rows >= 1,
        cols >= 1,
        g.len() == rows * cols,
        0 <= r < rows,
        0 <= t0 <= cols,
    ensures
        count_tok(
            spec_serialize(g, rows, cols),
            2 * (cols * r),
            2 * (cols * r) + 2 * cols - 1,
            2 * (cols * r) + 2 * t0,
        ) == cols - t0,
    decreases cols - t0,
{
    let t = spec_serialize(g, rows, cols);
    let m = rows * cols;
    let n = 2 * m;
    assert(2 * m == 2 * rows * cols) by (nonlinear_arith)
        requires
            m == rows * cols,
    ;
    lemma_ser_char_class(g, rows, cols);
    let lr = 2 * (cols * r);
    let le = lr + 2 * cols - 1;
    let j = lr + 2 * t0;
    assert(cols * r + cols <= m) by (nonlinear_arith)
        requires
            0 <= r < rows,
            cols >= 1,
            m == rows * cols,
    ;
    assert(0 <= cols * r) by (nonlinear_arith)
        requires
            0 <= r,
            cols >= 1,
    ;
    if t0 == cols {
        assert(count_tok(t, lr, le, j) == 0);
    } else {
        assert(j == 2 * (cols * r + t0) && j % 2 == 0 && j / 2 == cols * r + t0);
        assert(!is_space(t[j]) && !is_sep(t[j]));
        if t0 > 0 {
            let pk = cols * r + t0 - 1;
            assert(j - 1 == 2 * pk + 1 && (j - 1) % 2 == 1 && (j - 1) / 2 == pk);
            lemma_flat_index_decompose(cols, r, t0 - 1);
            assert(r * cols == cols * r) by (nonlinear_arith);
            assert(pk % cols == t0 - 1);
            assert(is_sep(t[j - 1]));
        }
        assert(tok_start(t, lr, le, j));
        lemma_ser_count_tok(g, rows, cols, r, t0 + 1);
        assert(count_tok(t, lr, le, j) == 1 + count_tok(t, lr, le, j + 1));
        if t0 == cols - 1 {
            assert(j + 1 == le);
            assert(count_tok(t, lr, le, j + 1) == 0);
        } else {
            let sk = cols * r + t0;
            assert(j + 1 == 2 * sk + 1 && (j + 1) % 2 == 1 && (j + 1) / 2 == sk);
            lemma_flat_index_decompose(cols, r, t0);
            assert(r * cols == cols * r) by (nonlinear_arith);
            assert(sk % cols == t0);
            assert(is_sep(t[j + 1]));
            assert(!tok_start(t, lr, le, j + 1));
            assert(count_tok(t, lr, le, j + 1) == count_tok(t, lr, le, j + 2));
        }
    }
}

/// Round trip: the text form of a valid board parses back to exactly
/// that board — same shape, same cells, no error.
pub proof fn lemma_text_round_trip(g: Seq<FieldStates>, rows: int, cols: int)
    requires
        rows >= 1,
        cols >= 1,
        g.len() == rows * cols,
    ensures
        text_ok(spec_serialize(g, rows, cols)),
        parse_rows(spec_serialize(g, rows, cols)) == rows,
        parse_cols(spec_serialize(g, rows, cols)) == cols,
        forall|r: int, c: int|
            0 <= r < rows && 0 <= c < cols ==> cell_of(spec_serialize(g, rows, cols), r, c) == g[r
                * cols + c],
{
    let t = spec_serialize(g, rows, cols);
    let m = rows * cols;
    let n = 2 * m;
    assert(2 * m == 2 * rows * cols) by (nonlinear_arith)
        requires
            m == rows * cols,
    ;
    assert(m >= 1) by (nonlinear_arith)
        requires
            rows >= 1,
            cols >= 1,
            m == rows * cols,
    ;
    lemma_ser_char_class(g, rows, cols);
    lemma_ser_trim(g, rows, cols);
    assert(!text_empty(t));
    assert(cols * 0 == 0) by (nonlinear_arith);
    lemma_ser_count_nl(g, rows, cols, 0);
    assert(parse_rows(t) == rows);
    lemma_ser_rows(g, rows, cols, 0);
    lemma_ser_count_tok(g, rows, cols, 0, 0);
    assert(parse_cols(t) == cols);
    assert forall|r: int, c: int|
        #![trigger token_ok(t, r, c)]
        #![trigger cell_of(t, r, c)]
        0 <= r < rows && 0 <= c < cols implies token_ok(t, r, c) && cell_of(t, r, c) == g[r * cols
        + c] by {
        let lr = 2 * (cols * r);
        let le = lr + 2 * cols - 1;
        lemma_ser_rows(g, rows, cols, r);
        lemma_ser_tok_pos(g, rows, cols, r, 0, c);
        assert(token_pos(t, r, c) == lr + 2 * c);
        let p = lr + 2 * c;
        assert(cols * r + cols <= m) by (nonlinear_arith)
            requires
                0 <= r < rows,
                cols >= 1,
                m == rows * cols,
        ;
        assert(0 <= cols * r) by (nonlinear_arith)
            requires
                0 <= r,
                cols >= 1,
        ;
        assert(p == 2 * (cols * r + c) && p % 2 == 0 && p / 2 == cols * r + c);
        assert(token_state(t[p]) == Some(g[cols * r + c]));
        if c == cols - 1 {
            assert(p + 1 == le);
        } else {
            let sk = cols * r + c;
            assert(p + 1 == 2 * sk + 1 && (p + 1) % 2 == 1 && (p + 1) / 2 == sk);
            lemma_flat_index_decompose(cols, r, c);
            assert(r * cols == cols * r) by (nonlinear_arith);
            assert(sk % cols == c);
            assert(is_sep(t[p + 1]));
        }
        assert(token_ok(t, r, c));
        assert(r * cols == cols * r) by (nonlinear_arith);
        assert(cell_of(t, r, c) == g[r * cols + c]);
    }
    assert forall|r: int| 0 <= r < rows implies row_ok(t, r) by {
        lemma_ser_rows(g, rows, cols, r);
        lemma_ser_count_tok(g, rows, cols, r, 0);
        assert(row_tokens(t, r) == cols);
    }
    assert(text_ok(t));
}

/// The one-character token for one cell state.
fn state_token(f: FieldStates) -> (s: &'static str)
    ensures
        s@.len() == 1,
        s@[0] == state_char(f),
{
    proof {
        reveal_strlit("0");
        reveal_strlit("1");
        reveal_strlit("2");
    }
    match f {
        FieldStates::Empty => "0",
        FieldStates::Player1 => "1",
        FieldStates::Player2 => "2",
    }
}

impl Grid {
    /// The text form of this board: one digit token per cell, cells of a
    /// row separated by spaces, each row closed by a newline.
    #[verifier::loop_isolation(false)]
    pub fn to_text(&self) -> (s: String)
        requires
            self.wf(),
        ensures
            s@ == spec_serialize(self.cells(), self.spec_rows(), self.spec_cols()),
    {
        let ghost gc = self.cells();
        let ghost rows = self.spec_rows();
        let ghost cols = self.spec_cols();
        let mut out = String::new();
        let mut i: usize = 0;
        while i < self.rows
            invariant
                i <= self.rows,
                out@.len() == 2 * (i * cols),
                forall|p: int| 0 <= p < out@.len() ==> out@[p] == ser_char(gc, cols, p),
            decreases self.rows - i,
        {
            let mut j: usize = 0;
            while j < self.cols
                invariant
                    i < self.rows,
                    j <= self.cols,
                    out@.len() == 2 * (i * cols + j),
                    forall|p: int| 0 <= p < out@.len() ==> out@[p] == ser_char(gc, cols, p),
                decreases self.cols - j,
            {
                proof {
                    lemma_flat_index_in_range(rows, cols, i as int, j as int);
                    lemma_flat_index_decompose(cols, i as int, j as int);
                    assert(cols * i == i as int * cols) by (nonlinear_arith);
                }
                let f = self.fields[j + self.cols * i];
                out.append(state_token(f));
                if j == self.cols - 1 {
                    proof {
                        reveal_strlit("\n");
                    }
                    out.append("\n");
                } else {
                    proof {
                        reveal_strlit(" ");
                    }
                    out.append(" ");
                }
                j += 1;
            }
            proof {
                assert(2 * ((i + 1) * cols) == 2 * (i as int * cols + cols)) by (nonlinear_arith);
            }
            i += 1;
        }
        proof {
            assert(2 * (rows * cols) == 2 * rows * cols) by (nonlinear_arith);
            assert(out@ =~= spec_serialize(gc, rows, cols));
        }
        out
    }

    /// Parses the text form of a board: whitespace-separated cell tokens,
    /// rows separated by newlines, surrounding whitespace ignored.  Fails
    /// exactly on an input with no token at all, a row whose token count
    /// differs from the first row's, or a token that is not `0`, `1` or
    /// `2` — whichever is found first, scanning rows top to bottom and
    /// tokens left to right.
    #[verifier::loop_isolation(false)]
    pub fn from_text(s: &str) -> (r: Result<Grid, ParseError>)
        requires
            s@.len() + 3 <= usize::MAX,
        ensures
            (r is Ok) <==> text_ok(s@),
            match r {
                Ok(g) => {
                    &&& g.wf()
                    &&& g.spec_rows() == parse_rows(s@)
                    &&& g.spec_cols() == parse_cols(s@)
                    &&& forall|q: int, c: int|
                        0 <= q < parse_rows(s@) && 0 <= c < parse_cols(s@) ==> g.cell(q, c)
                            == cell_of(s@, q, c)
                },
                Err(pe) => match pe {
                    ParseError::EmptyInput => text_empty(s@),
                    ParseError::RaggedRows { row } => {
                        &&& !text_empty(s@)
                        &&& 0 <= row < parse_rows(s@)
                        &&& forall|q: int| 0 <= q < row ==> row_ok(s@, q)
                        &&& row_tokens(s@, row as int) != parse_cols(s@)
                    },
                    ParseError::InvalidToken { row, col } => {
                        &&& !text_empty(s@)
                        &&& 0 <= row < parse_rows(s@)
                        &&& forall|q: int| 0 <= q < row ==> row_ok(s@, q)
                        &&& row_tokens(s@, row as int) == parse_cols(s@)
                        &&& 0 <= col < parse_cols(s@)
                        &&& forall|c: int| 0 <= c < col ==> token_ok(s@, row as int, c)
                        &&& !token_ok(s@, row as int, col as int)
                    },
                },
            },
    {
        let n = s.unicode_len();
        let start = scan_space(s, 0);
        if start == n {
            return Err(ParseError::EmptyInput);
        }
        proof {
            lemma_skip_space_props(s@, 0);
            lemma_rskip_space_above(s@, s@.len() as int, start as int);
            lemma_rskip_space_props(s@, s@.len() as int);
        }
        let end = scan_space_rev(s, n);
        proof {
            lemma_count_nl_bound(s@, start as int, end as int);
        }
        let nl_count = scan_count_nl(s, start, end);
        let rows = nl_count + 1;
        let le0 = scan_line_end(s, start, end);
        proof {
            lemma_line_end_props(s@, start as int, end as int);
            lemma_count_tok_bound(s@, start as int, le0 as int, start as int);
            lemma_count_nl_bound(s@, le0 as int, end as int);
        }
        let cols = scan_count_tokens(s, start, le0);

        let mut fields: Vec<FieldStates> = Vec::new();
        let mut pos = start;
        let mut row: usize = 0;
        while row < rows
            invariant
                0 <= row <= rows,
                start <= pos <= end,
                pos as int == row_start(s@, row as int),
                row < rows ==> count_nl(s@, text_start(s@), text_end(s@)) == row + count_nl(
                    s@,
                    pos as int,
                    text_end(s@),
                ),
                fields@.len() == row * cols,
                forall|q: int| 0 <= q < row ==> row_ok(s@, q),
                forall|q: int, c: int|
                    0 <= q < row && 0 <= c < cols ==> fields@[q * cols + c] == cell_of(s@, q, c),
                rows == parse_rows(s@),
                cols == parse_cols(s@),
                start == text_start(s@),
                end == text_end(s@),
            decreases rows - row,
        {
            let le = scan_line_end(s, pos, end);
            proof {
                lemma_line_end_props(s@, pos as int, end as int);
                assert(le as int == row_end(s@, row as int));
            }
            let cnt = scan_count_tokens(s, pos, le);
            proof {
                assert(cnt as int == row_tokens(s@, row as int));
            }
            if cnt != cols {
                proof {
                    assert(!row_ok(s@, row as int));
                }
                return Err(ParseError::RaggedRows { row });
            }
            let ghost flen = fields@.len();
            match parse_row(s, pos, le, &mut fields) {
                Err(col) => {
                    proof {
                        assert(!token_ok(s@, row as int, col as int));
                        assert(!row_ok(s@, row as int));
                    }
                    return Err(ParseError::InvalidToken { row, col });
                },
                Ok(()) => {},
            }
            proof {
                assert(row_ok(s@, row as int));
                assert((row + 1) * cols == row * cols + cols) by (nonlinear_arith);
                assert forall|q: int, c: int|
                    0 <= q < row + 1 && 0 <= c < cols implies #[trigger] fields@[q * cols + c]
                    == cell_of(s@, q, c) by {
                    assert(q * cols + c < fields@.len()) by (nonlinear_arith)
                        requires
                            0 <= q <= row,
                            0 <= c < cols,
                            fields@.len() == (row + 1) * cols,
                    ;
                    if q < row {
                        assert(q * cols + c < flen) by (nonlinear_arith)
                            requires
                                0 <= q < row,
                                0 <= c < cols,
                                flen == row * cols,
                        ;
                    } else {
                        assert(q * cols + c == flen + c);
                    }
                }
            }
            if row + 1 < rows {
                proof {
                    assert(count_nl(s@, pos as int, text_end(s@)) == count_nl(
                        s@,
                        le as int,
                        text_end(s@),
                    ));
                    lemma_count_nl_bound(s@, le as int, end as int);
                    assert(le < end);
                }
                pos = le + 1;
            } else {
                proof {
                    if (le as int) < end as int {
                        lemma_count_nl_bound(s@, le as int + 1, end as int);
                        assert(s@[le as int] == '\n');
                        assert(count_nl(s@, le as int, end as int) == 1 + count_nl(
                            s@,
                            le as int + 1,
                            end as int,
                        ));
                        assert(false);
                    }
                }
                pos = le;
            }
            row += 1;
        }
        let total = fields.len();
        proof {
            assert(rows + cols + 2 <= usize::MAX);
            assert(total as int == rows * cols);
            assert(rows * cols <= usize::MAX);
        }
        Ok(Grid { rows, cols, fields })
    }
}

impl FieldStates {
    /// The cell state a one-character token denotes, or `None` for any
    /// other text.
    pub fn from_token(s: &str) -> (r: Option<FieldStates>)
        ensures
            r == (if s@.len() == 1 {
                token_state(s@[0])
            } else {
                None::<FieldStates>
            }),
    {
        if s.unicode_len() == 1 {
            state_of_char(s.get_char(0))
        } else {
            None
        }
    }
}

impl Grid {
    /// A board built from one token per cell, row-major: every token
    /// must name a cell state and the token count must match the shape.
    #[verifier::loop_isolation(false)]
    pub fn from_vec(rows: usize, cols: usize, fields: Vec<&str>) -> (g: Grid)
        requires
            fields@.len() == rows * cols,
            rows + cols + 2 <= usize::MAX,
            forall|k: int|
                0 <= k < fields@.len() ==> (#[trigger] fields@[k])@.len() == 1 && token_state(
                    fields@[k]@[0],
                ) is Some,
        ensures
            g.wf(),
            g.spec_rows() == rows,
            g.spec_cols() == cols,
            forall|k: int|
                0 <= k < fields@.len() ==> token_state((#[trigger] fields@[k])@[0]) == Some(
                    g.cells()[k],
                ),
    {
        let mut cells: Vec<FieldStates> = Vec::new();
        let mut k: usize = 0;
        while k < fields.len()
            invariant
                k <= fields@.len(),
                cells@.len() == k,
                forall|q: int|
                    0 <= q < k ==> token_state((#[trigger] fields@[q])@[0]) == Some(cells@[q]),
            decreases fields@.len() - k,
        {
            let tok = fields[k];
            let st = FieldStates::from_token(tok);
            let f = st.unwrap();
            cells.push(f);
            k += 1;
        }
        Grid { rows, cols, fields: cells }
    }
}

} // verus!
