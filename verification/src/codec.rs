//! The textual save format: a header line `<width> <height>`, then one line
//! of cell digits per row, top row first. Text row `r` holds grid row
//! `y = height - 1 - r`. Extra characters past `width` and extra lines past
//! `height` are ignored.

use vstd::prelude::*;
use crate::board::{Board, BoardModel, lemma_index_in_range, MAX_COLOR};
use crate::erase::lemma_coord_of_index;
use vstd::pervasive::VecAdditionalExecFns;

verus! {

/// Why a textual board description was rejected.
#[derive(Debug, Clone, Copy, PartialEq, Eq, Structural)]
pub enum ParseError {
    /// The dimension header is malformed: not exactly two positive integers,
    /// or dimensions too large for this machine.
    Format,
    /// A row holds a character outside the accepted digit range.
    InvalidCell,
    /// The text ends before `height` rows were read.
    IncompleteInput,
}

pub open spec fn is_space(b: u8) -> bool {
    b == 32 || b == 9 || b == 10 || b == 13 || b == 12
}

pub open spec fn is_digit(b: u8) -> bool {
    48 <= b <= 57
}

pub open spec fn is_cell_digit(b: u8) -> bool {
    48 <= b && b <= 48 + MAX_COLOR
}

/// Index of the first newline in `s`, or `s.len()` if there is none.
pub open spec fn first_nl(s: Seq<u8>) -> int
    decreases s.len(),
{
    if s.len() == 0 {
        0
    } else if s[0] == 10 {
        0
    } else {
        1 + first_nl(s.skip(1))
    }
}

/// A line ending in a carriage return before its newline loses it.
pub open spec fn strip_cr(seg: Seq<u8>) -> Seq<u8> {
    if seg.len() > 0 && seg.last() == 13 {
        seg.drop_last()
    } else {
        seg
    }
}

/// The lines of `s`: split at each newline (the final line needs none), with
/// a carriage return before a newline stripped.
pub open spec fn lines_of(s: Seq<u8>) -> Seq<Seq<u8>>
    decreases s.len(),
{
    if s.len() == 0 {
        Seq::empty()
    } else {
        let j = first_nl(s);
        if 0 <= j < s.len() {
            seq![strip_cr(s.take(j))] + lines_of(s.skip(j + 1))
        } else {
            seq![s]
        }
    }
}

/// Index of the first whitespace byte in `s`, or `s.len()` if there is none.
pub open spec fn first_space(s: Seq<u8>) -> int
    decreases s.len(),
{
    if s.len() == 0 {
        0
    } else if is_space(s[0]) {
        0
    } else {
        1 + first_space(s.skip(1))
    }
}

/// The whitespace-separated tokens of `s`.
pub open spec fn tokens_of(s: Seq<u8>) -> Seq<Seq<u8>>
    decreases s.len(),
{
    if s.len() == 0 {
        Seq::empty()
    } else if is_space(s[0]) {
        tokens_of(s.skip(1))
    } else {
        let j = first_space(s);
        if 1 <= j < s.len() {
            seq![s.take(j)] + tokens_of(s.skip(j))
        } else {
            seq![s]
        }
    }
}

/// A nonempty run of decimal digits.
pub open spec fn is_uint(t: Seq<u8>) -> bool {
    t.len() > 0 && forall|i: int| 0 <= i < t.len() ==> is_digit(#[trigger] t[i])
}

/// The number the digit run denotes.
pub open spec fn uint_val(t: Seq<u8>) -> nat
    decreases t.len(),
{
    if t.len() == 0 {
        0
    } else {
        uint_val(t.drop_last()) * 10 + (t.last() - 48) as nat
    }
}

pub open spec fn header_of(s: Seq<u8>) -> Seq<Seq<u8>> {
    if lines_of(s).len() == 0 {
        Seq::empty()
    } else {
        tokens_of(lines_of(s)[0])
    }
}

/// The header line holds exactly two positive integers, and the board they
/// describe fits in this machine's address space.
pub open spec fn header_valid(s: Seq<u8>) -> bool {
    let toks = header_of(s);
    &&& toks.len() == 2
    &&& is_uint(toks[0])
    &&& is_uint(toks[1])
    &&& uint_val(toks[0]) > 0
    &&& uint_val(toks[1]) > 0
    &&& uint_val(toks[0]) <= usize::MAX
    &&& uint_val(toks[1]) <= usize::MAX
    &&& uint_val(toks[0]) * uint_val(toks[1]) <= usize::MAX
}

pub open spec fn spec_w(s: Seq<u8>) -> nat {
    uint_val(header_of(s)[0])
}

pub open spec fn spec_h(s: Seq<u8>) -> nat {
    uint_val(header_of(s)[1])
}

/// The text line holding row `r` (counted from the top).
pub open spec fn data_line(s: Seq<u8>, r: int) -> Seq<u8> {
    lines_of(s)[1 + r]
}

/// The first `w` characters of a row are cell digits; extras are ignored.
pub open spec fn row_ok(line: Seq<u8>, w: nat) -> bool {
    forall|i: int| 0 <= i < line.len() && i < w ==> is_cell_digit(#[trigger] line[i])
}

pub open spec fn rows_present(s: Seq<u8>) -> bool {
    lines_of(s).len() >= 1 + spec_h(s)
}

pub open spec fn some_row_bad(s: Seq<u8>) -> bool {
    exists|r: int|
        0 <= r < spec_h(s) && 1 + r < lines_of(s).len() && !row_ok(
            #[trigger] data_line(s, r),
            spec_w(s),
        )
}

/// The cell at `(x, y)` that the text describes: the digit at column `x` of
/// the row's line, or empty where the line is shorter.
pub open spec fn parse_cell(s: Seq<u8>, x: int, y: int) -> u8 {
    let line = data_line(s, spec_h(s) - 1 - y);
    if x < line.len() {
        (line[x] - 48) as u8
    } else {
        0u8
    }
}

/// What parsing a byte text yields: the described board, or the first error
/// the row scan meets (header errors first; within the available rows a bad
/// character is found before the end of input is).
pub open spec fn spec_parse(s: Seq<u8>) -> Result<BoardModel, ParseError> {
    if !header_valid(s) {
        Err(ParseError::Format)
    } else if some_row_bad(s) {
        Err(ParseError::InvalidCell)
    } else if !rows_present(s) {
        Err(ParseError::IncompleteInput)
    } else {
        Ok(
            BoardModel {
                w: spec_w(s),
                h: spec_h(s),
                cells: Seq::new(
                    spec_w(s) * spec_h(s),
                    |i: int| parse_cell(s, i / (spec_h(s) as int), i % (spec_h(s) as int)),
                ),
            },
        )
    }
}

/// The views of a list of byte buffers.
pub open spec fn views(r: Seq<Vec<u8>>) -> Seq<Seq<u8>> {
    r.map_values(|v: Vec<u8>| v@)
}

proof fn lemma_first_nl_char(s: Seq<u8>, j: int)
    requires
        0 <= j <= s.len(),
        forall|t: int| 0 <= t < j ==> s[t] != 10,
        j < s.len() ==> s[j] == 10,
    ensures
        first_nl(s) == j,
    decreases s.len(),
{
    if s.len() == 0 {
    } else if s[0] == 10 {
        assert(j == 0);
    } else {
        assert(j >= 1);
        let s2 = s.skip(1);
        assert forall|t: int| 0 <= t < j - 1 implies s2[t] != 10 by {
            assert(s2[t] == s[t + 1]);
        }
        assert(j - 1 < s2.len() ==> s2[j - 1] == 10);
        lemma_first_nl_char(s2, j - 1);
    }
}

proof fn lemma_first_space_char(s: Seq<u8>, j: int)
    requires
        0 <= j <= s.len(),
        forall|t: int| 0 <= t < j ==> !is_space(s[t]),
        j < s.len() ==> is_space(s[j]),
    ensures
        first_space(s) == j,
    decreases s.len(),
{
    if s.len() == 0 {
    } else if is_space(s[0]) {
        assert(j == 0);
    } else {
        assert(j >= 1);
        let s2 = s.skip(1);
        assert forall|t: int| 0 <= t < j - 1 implies !is_space(s2[t]) by {
            assert(s2[t] == s[t + 1]);
        }
        assert(j - 1 < s2.len() ==> is_space(s2[j - 1]));
        lemma_first_space_char(s2, j - 1);
    }
}

/// Appending a buffer to the list appends its view.
proof fn lemma_views_push(r: Seq<Vec<u8>>, v: Vec<u8>)
    ensures
        views(r.push(v)) == views(r) + seq![v@],
{
    assert(views(r.push(v))[r.len() as int] == v@);
    assert(views(r.push(v)) =~= views(r) + seq![v@]);
}

fn is_space_exec(b: u8) -> (r: bool)
    ensures
        r == is_space(b),
{
    b == 32 || b == 9 || b == 10 || b == 13 || b == 12
}

/// Splits a byte text into its lines.
#[verifier::loop_isolation(false)]
fn split_lines(s: &[u8]) -> (r: Vec<Vec<u8>>)
    ensures
        views(r@) == lines_of(s@),
        r@.len() == lines_of(s@).len(),
        forall|i: int| 0 <= i < r@.len() ==> #[trigger] r@[i]@ == lines_of(s@)[i],
{
    let mut res: Vec<Vec<u8>> = Vec::new();
    let mut pos: usize = 0;
    proof {
        assert(s@.skip(0) =~= s@);
        assert(views(res@) =~= Seq::<Seq<u8>>::empty());
        assert(views(res@) + lines_of(s@) =~= lines_of(s@));
    }
    while pos < s.len()
        invariant
            pos <= s@.len(),
            views(res@) + lines_of(s@.skip(pos as int)) == lines_of(s@),
        decreases s@.len() - pos,
    {
        let ghost rest = s@.skip(pos as int);
        let mut j: usize = pos;
        while j < s.len() && s[j] != 10
            invariant
                pos <= j <= s@.len(),
                forall|t: int| pos <= t < j ==> s@[t] != 10,
            decreases s@.len() - j,
        {
            j = j + 1;
        }
        proof {
            assert forall|t: int| 0 <= t < j - pos implies rest[t] != 10 by {
                assert(rest[t] == s@[pos + t]);
            }
            lemma_first_nl_char(rest, j - pos);
        }
        let end = if j < s.len() {
            if j > pos && s[j - 1] == 13 {
                j - 1
            } else {
                j
            }
        } else {
            j
        };
        let mut line: Vec<u8> = Vec::new();
        let mut t2: usize = pos;
        while t2 < end
            invariant
                pos <= t2 <= end <= s@.len(),
                line@ == s@.subrange(pos as int, t2 as int),
            decreases end - t2,
        {
            line.push(s[t2]);
            t2 = t2 + 1;
            proof {
                assert(line@ =~= s@.subrange(pos as int, t2 as int));
            }
        }
        let ghost res_before = res@;
        res.push(line);
        proof {
            lemma_views_push(res_before, line);
            let seg = rest.take(j - pos);
            assert(seg =~= s@.subrange(pos as int, j as int));
            if j < s@.len() {
                assert(lines_of(rest) == seq![strip_cr(seg)] + lines_of(rest.skip(j - pos + 1)));
                if j > pos && s@[j - 1] == 13 {
                    assert(seg.last() == 13);
                    assert(strip_cr(seg) =~= s@.subrange(pos as int, end as int));
                } else {
                    assert(seg.len() > 0 ==> seg.last() == s@[j - 1]);
                    assert(strip_cr(seg) =~= s@.subrange(pos as int, end as int));
                }
                assert(rest.skip(j - pos + 1) =~= s@.skip(j + 1));
                assert(views(res@) + lines_of(s@.skip(j + 1)) =~= lines_of(s@));
            } else {
                assert(first_nl(rest) == rest.len());
                assert(lines_of(rest) == seq![rest]);
                assert(rest =~= s@.subrange(pos as int, end as int));
                assert(line@ == rest);
                assert(s@.skip(j as int) =~= Seq::<u8>::empty());
                assert(lines_of(s@.skip(j as int)) =~= Seq::<Seq<u8>>::empty());
                assert(views(res@) + lines_of(s@.skip(j as int)) =~= lines_of(s@));
            }
        }
        pos = if j < s.len() {
            j + 1
        } else {
            j
        };
    }
    proof {
        assert(s@.skip(pos as int) =~= Seq::<u8>::empty());
        assert(lines_of(Seq::<u8>::empty()) =~= Seq::<Seq<u8>>::empty());
        assert(views(res@) =~= lines_of(s@));
        assert forall|i: int| 0 <= i < res@.len() implies #[trigger] res@[i]@ == lines_of(s@)[i] by {
            assert(views(res@)[i] == res@[i]@);
        }
    }
    res
}

/// Splits a line into its whitespace-separated tokens.
#[verifier::loop_isolation(false)]
fn split_tokens(s: &[u8]) -> (r: Vec<Vec<u8>>)
    ensures
        views(r@) == tokens_of(s@),
        r@.len() == tokens_of(s@).len(),
        forall|i: int| 0 <= i < r@.len() ==> #[trigger] r@[i]@ == tokens_of(s@)[i],
{
    let mut res: Vec<Vec<u8>> = Vec::new();
    let mut pos: usize = 0;
    proof {
        assert(s@.skip(0) =~= s@);
        assert(views(res@) =~= Seq::<Seq<u8>>::empty());
        assert(views(res@) + tokens_of(s@) =~= tokens_of(s@));
    }
    while pos < s.len()
        invariant
            pos <= s@.len(),
            views(res@) + tokens_of(s@.skip(pos as int)) == tokens_of(s@),
        decreases s@.len() - pos,
    {
        let ghost rest = s@.skip(pos as int);
        let b = s[pos];
        if is_space_exec(b) {
            proof {
                assert(rest[0] == b);
                assert(rest.skip(1) =~= s@.skip(pos + 1));
                assert(tokens_of(rest) == tokens_of(rest.skip(1)));
            }
            pos = pos + 1;
        } else {
            proof {
                assert(rest[0] == b);
            }
            let mut j: usize = pos;
            while j < s.len() && !(s[j] == 32 || s[j] == 9 || s[j] == 10 || s[j] == 13 || s[j]
                == 12)
                invariant
                    pos <= j <= s@.len(),
                    forall|t: int| pos <= t < j ==> !is_space(s@[t]),
                decreases s@.len() - j,
            {
                j = j + 1;
            }
            let tok_end = j;
            proof {
                assert(tok_end > pos);
                assert forall|t: int| 0 <= t < tok_end - pos implies !is_space(rest[t]) by {
                    assert(rest[t] == s@[pos + t]);
                }
                if tok_end < s@.len() {
                    assert(rest[tok_end - pos] == s@[tok_end as int]);
                }
                lemma_first_space_char(rest, tok_end - pos);
            }
            let mut token: Vec<u8> = Vec::new();
            let mut t2: usize = pos;
            while t2 < tok_end
                invariant
                    pos <= t2 <= tok_end <= s@.len(),
                    token@ == s@.subrange(pos as int, t2 as int),
                decreases tok_end - t2,
            {
                token.push(s[t2]);
                t2 = t2 + 1;
                proof {
                    assert(token@ =~= s@.subrange(pos as int, t2 as int));
                }
            }
            let ghost res_before = res@;
            res.push(token);
            proof {
                lemma_views_push(res_before, token);
                let fs = tok_end - pos;
                if tok_end < s@.len() {
                    assert(1 <= fs < rest.len());
                    assert(tokens_of(rest) == seq![rest.take(fs)] + tokens_of(rest.skip(fs)));
                    assert(rest.take(fs) =~= s@.subrange(pos as int, tok_end as int));
                    assert(rest.skip(fs) =~= s@.skip(tok_end as int));
                    assert(views(res@) + tokens_of(s@.skip(tok_end as int)) =~= tokens_of(s@));
                } else {
                    assert(fs == rest.len());
                    assert(!(1 <= fs < rest.len()));
                    assert(tokens_of(rest) == seq![rest]);
                    assert(rest =~= s@.subrange(pos as int, tok_end as int));
                    assert(s@.skip(tok_end as int) =~= Seq::<u8>::empty());
                    assert(tokens_of(s@.skip(tok_end as int)) =~= Seq::<Seq<u8>>::empty());
                    assert(views(res@) + tokens_of(s@.skip(tok_end as int)) =~= tokens_of(s@));
                }
            }
            pos = tok_end;
        }
    }
    proof {
        assert(s@.skip(pos as int) =~= Seq::<u8>::empty());
        assert(tokens_of(Seq::<u8>::empty()) =~= Seq::<Seq<u8>>::empty());
        assert(views(res@) =~= tokens_of(s@));
        assert forall|i: int| 0 <= i < res@.len() implies #[trigger] res@[i]@ == tokens_of(s@)[i] by {
            assert(views(res@)[i] == res@[i]@);
        }
    }
    res
}

/// A longer digit prefix denotes at least as large a number.
proof fn lemma_uint_prefix_le(t: Seq<u8>, i: int)
    requires
        0 <= i <= t.len(),
    ensures
        uint_val(t.take(i)) <= uint_val(t),
    decreases t.len() - i,
{
    if i == t.len() {
        assert(t.take(i) =~= t);
    } else {
        assert(t.take(i + 1).drop_last() =~= t.take(i));
        assert(uint_val(t.take(i + 1)) == uint_val(t.take(i)) * 10 + (t.take(i + 1).last()
            - 48) as nat);
        assert(uint_val(t.take(i)) <= uint_val(t.take(i)) * 10) by (nonlinear_arith);
        lemma_uint_prefix_le(t, i + 1);
    }
}

/// Reads a decimal integer, rejecting non-digits and machine overflow.
#[verifier::loop_isolation(false)]
fn parse_uint(t: &[u8]) -> (r: Option<usize>)
    ensures
        r is Some <==> (is_uint(t@) && uint_val(t@) <= usize::MAX),
        r is Some ==> r->Some_0 == uint_val(t@),
{
    if t.len() == 0 {
        return None;
    }
    let mut val: usize = 0;
    let mut i: usize = 0;
    while i < t.len()
        invariant
            i <= t@.len(),
            forall|k: int| 0 <= k < i ==> is_digit(#[trigger] t@[k]),
            val == uint_val(t@.take(i as int)),
        decreases t@.len() - i,
    {
        let b = t[i];
        if b < 48 || b > 57 {
            return None;
        }
        let d = (b - 48) as usize;
        proof {
            assert(t@.take(i + 1).drop_last() =~= t@.take(i as int));
            assert(t@.take(i + 1).last() == t@[i as int]);
            assert(uint_val(t@.take(i + 1)) == val * 10 + d);
        }
        let v10 = match val.checked_mul(10) {
            Some(v) => v,
            None => {
                proof {
                    lemma_uint_prefix_le(t@, i + 1);
                }
                return None;
            },
        };
        let v = match v10.checked_add(d) {
            Some(v) => v,
            None => {
                proof {
                    lemma_uint_prefix_le(t@, i + 1);
                }
                return None;
            },
        };
        val = v;
        i = i + 1;
    }
    proof {
        assert(t@.take(t@.len() as int) =~= t@);
    }
    Some(val)
}

/// Tracks which cells the row scan has already written.
pub open spec fn fill_cell(s: Seq<u8>, w: nat, h: nat, r_done: int, xi: int, i: int) -> u8 {
    let x = i / (h as int);
    let y = i % (h as int);
    let rr = h - 1 - y;
    if (rr < r_done || (rr == r_done && x < xi)) && x < data_line(s, rr).len() {
        (data_line(s, rr)[x] - 48) as u8
    } else {
        0u8
    }
}

impl Board {
    /// Reads a board from its textual description: exactly the board that
    /// `spec_parse` assigns to the text, or the error it assigns.
    #[verifier::loop_isolation(false)]
    pub fn parse(input: &[u8]) -> (r: Result<Board, ParseError>)
        ensures
            r is Ok <==> spec_parse(input@) is Ok,
            r matches Ok(b) ==> Ok::<BoardModel, ParseError>(b.model()) == spec_parse(input@)
                && b.wf(),
            r matches Err(e) ==> Err::<BoardModel, ParseError>(e) == spec_parse(input@),
    {
        let ghost s = input@;
        let lines = split_lines(input);
        if lines.len() == 0 {
            return Err(ParseError::Format);
        }
        let toks = split_tokens(&lines[0]);
        proof {
            assert(lines@[0]@ == lines_of(s)[0]);
            assert(header_of(s) == tokens_of(lines_of(s)[0]));
        }
        if toks.len() != 2 {
            return Err(ParseError::Format);
        }
        proof {
            assert(toks@[0]@ == header_of(s)[0]);
            assert(toks@[1]@ == header_of(s)[1]);
        }
        let w = match parse_uint(&toks[0]) {
            Some(v) => v,
            None => {
                return Err(ParseError::Format);
            },
        };
        let h = match parse_uint(&toks[1]) {
            Some(v) => v,
            None => {
                return Err(ParseError::Format);
            },
        };
        if w == 0 || h == 0 {
            return Err(ParseError::Format);
        }
        let n = match w.checked_mul(h) {
            Some(v) => v,
            None => {
                return Err(ParseError::Format);
            },
        };
        proof {
            assert(header_valid(s));
            assert(spec_w(s) == w && spec_h(s) == h);
        }
        let mut cells: Vec<u8> = Vec::new();
        let mut t: usize = 0;
        while t < n
            invariant
                t <= n,
                cells@.len() == t,
                forall|i: int| 0 <= i < t ==> #[trigger] cells@[i] == 0,
            decreases n - t,
        {
            cells.push(0);
            t = t + 1;
        }
        proof {
            assert forall|i: int| 0 <= i < n implies #[trigger] cells@[i] == fill_cell(
                s,
                w as nat,
                h as nat,
                0,
                0,
                i,
            ) by {
                lemma_coord_of_index(h as int, w as int, i);
            }
        }
        let mut ri: usize = 0;
        while ri < h
            invariant
                ri <= h,
                cells@.len() == n,
                lines_of(s).len() >= 1 + ri,
                forall|r2: int| 0 <= r2 < ri ==> row_ok(#[trigger] data_line(s, r2), w as nat),
                forall|i: int|
                    0 <= i < n ==> #[trigger] cells@[i] == fill_cell(
                        s,
                        w as nat,
                        h as nat,
                        ri as int,
                        0,
                        i,
                    ),
            decreases h - ri,
        {
            if ri + 1 >= lines.len() {
                proof {
                    assert(!rows_present(s));
                    assert forall|r2: int|
                        !(0 <= r2 < spec_h(s) && 1 + r2 < lines_of(s).len() && !row_ok(
                            #[trigger] data_line(s, r2),
                            spec_w(s),
                        )) by {
                        if 0 <= r2 < spec_h(s) && 1 + r2 < lines_of(s).len() {
                            assert(r2 < ri);
                        }
                    }
                    assert(!some_row_bad(s));
                }
                return Err(ParseError::IncompleteInput);
            }
            let line = &lines[ri + 1];
            proof {
                assert(line@ == data_line(s, ri as int));
            }
            let lim = if line.len() < w {
                line.len()
            } else {
                w
            };
            let yy = h - 1 - ri;
            let mut xi: usize = 0;
            while xi < lim
                invariant
                    xi <= lim,
                    cells@.len() == n,
                    forall|t2: int| 0 <= t2 < xi ==> is_cell_digit(#[trigger] line@[t2]),
                    forall|i: int|
                        0 <= i < n ==> #[trigger] cells@[i] == fill_cell(
                            s,
                            w as nat,
                            h as nat,
                            ri as int,
                            xi as int,
                            i,
                        ),
                decreases lim - xi,
            {
                let b = line[xi];
                if b < 48 || b > 48 + MAX_COLOR {
                    proof {
                        assert(!row_ok(data_line(s, ri as int), spec_w(s)));
                        assert(some_row_bad(s));
                    }
                    return Err(ParseError::InvalidCell);
                }
                proof {
                    assert(h * xi + yy < n && h * xi >= 0) by (nonlinear_arith)
                        requires
                            xi < w,
                            yy < h,
                            n == w * h,
                            h > 0;
                }
                let ii = h * xi + yy;
                let ghost cells_before = cells@;
                cells.set(ii, b - 48);
                proof {
                    assert forall|i: int|
                        0 <= i < n implies #[trigger] cells@[i] == fill_cell(
                        s,
                        w as nat,
                        h as nat,
                        ri as int,
                        xi + 1,
                        i,
                    ) by {
                        lemma_coord_of_index(h as int, w as int, i);
                        let x2 = i / (h as int);
                        let y2 = i % (h as int);
                        if i == ii {
                            assert(h * (xi as int) + yy == h * x2 + y2);
                            assert(x2 == xi && y2 == yy) by (nonlinear_arith)
                                requires
                                    h * (xi as int) + yy == h * x2 + y2,
                                    0 <= yy < h,
                                    0 <= y2 < h,
                                    0 <= x2,
                                    0 <= xi,
                            ;
                            assert(cells@[i] == b - 48);
                        } else {
                            assert(cells@[i] == cells_before[i]);
                            assert(!(x2 == xi as int && y2 == yy as int)) by (nonlinear_arith)
                                requires
                                    h * (xi as int) + yy != h * x2 + y2,
                                    h * x2 + y2 == i,
                                    h * (xi as int) + yy == ii as int,
                                    i != ii as int,
                            ;
                        }
                    }
                }
                xi = xi + 1;
            }
            proof {
                assert(row_ok(data_line(s, ri as int), w as nat));
                assert forall|i: int|
                    0 <= i < n implies #[trigger] cells@[i] == fill_cell(
                    s,
                    w as nat,
                    h as nat,
                    ri + 1,
                    0,
                    i,
                ) by {
                    lemma_coord_of_index(h as int, w as int, i);
                }
            }
            ri = ri + 1;
        }
        proof {
            assert(rows_present(s));
            assert forall|r2: int|
                !(0 <= r2 < spec_h(s) && 1 + r2 < lines_of(s).len() && !row_ok(
                    #[trigger] data_line(s, r2),
                    spec_w(s),
                )) by {
            }
            assert(!some_row_bad(s));
        }
        let board = Board { w, h, cells };
        proof {
            board.lemma_cells_view();
            let m = spec_parse(s)->Ok_0;
            assert forall|i: int| 0 <= i < n implies board.model().cells[i] == m.cells[i] by {
                lemma_coord_of_index(h as int, w as int, i);
                let x2 = i / (h as int);
                let y2 = i % (h as int);
                assert(board.model().cells[i] == fill_cell(s, w as nat, h as nat, h as int, 0, i));
                assert(m.cells[i] == parse_cell(s, x2, y2));
            }
            assert(board.model().cells =~= m.cells);
            assert(board.model() =~= m);
            assert forall|i: int| 0 <= i < n implies board.model().cells[i] <= MAX_COLOR by {
                lemma_coord_of_index(h as int, w as int, i);
            }
            assert(board.wf());
        }
        Ok(board)
    }
}

/// The decimal digits of `n`, most significant first.
pub open spec fn dec_digits(n: nat) -> Seq<u8>
    decreases n,
{
    if n < 10 {
        seq![(48 + n) as u8]
    } else {
        dec_digits(n / 10).push((48 + n % 10) as u8)
    }
}

/// Text row `r` of the board, as digit bytes, left to right.
pub open spec fn row_bytes(m: BoardModel, r: int) -> Seq<u8> {
    Seq::new(m.w, |x: int| (48 + m.cell(x, m.h - 1 - r)) as u8)
}

/// Text rows `r..` of the board, each ending in a newline.
pub open spec fn rows_bytes(m: BoardModel, r: int) -> Seq<u8>
    decreases m.h - r,
{
    if r < 0 || r >= m.h {
        Seq::empty()
    } else {
        row_bytes(m, r) + seq![10u8] + rows_bytes(m, r + 1)
    }
}

/// The textual encoding of a board: its dimension header, then its rows from
/// the top down.
pub open spec fn spec_encode(m: BoardModel) -> Seq<u8> {
    dec_digits(m.w) + seq![32u8] + dec_digits(m.h) + seq![10u8] + rows_bytes(m, 0)
}

proof fn lemma_dec_digits_props(n: nat)
    ensures
        dec_digits(n).len() >= 1,
        forall|i: int| 0 <= i < dec_digits(n).len() ==> is_digit(#[trigger] dec_digits(n)[i]),
        uint_val(dec_digits(n)) == n,
    decreases n,
{
    if n < 10 {
        let d = dec_digits(n);
        assert(d.drop_last() =~= Seq::<u8>::empty());
        assert(uint_val(Seq::<u8>::empty()) == 0);
        assert(d.last() == (48 + n) as u8);
        assert(uint_val(d) == 0 * 10 + ((48 + n) as u8 - 48) as nat);
    } else {
        lemma_dec_digits_props(n / 10);
        let d = dec_digits(n);
        assert(d.drop_last() =~= dec_digits(n / 10));
        vstd::arithmetic::div_mod::lemma_fundamental_div_mod(n as int, 10);
        vstd::arithmetic::div_mod::lemma_mod_division_less_than_divisor(n as int, 10);
        assert(d.last() == (48 + n % 10) as u8);
        assert forall|i: int| 0 <= i < d.len() implies is_digit(#[trigger] d[i]) by {
            if i < d.len() - 1 {
                assert(d[i] == dec_digits(n / 10)[i]);
            }
        }
    }
}

/// Splitting off one newline-terminated line without inner newlines.
proof fn lemma_lines_cons(a: Seq<u8>, rest: Seq<u8>)
    requires
        forall|i: int| 0 <= i < a.len() ==> a[i] != 10,
        a.len() > 0 ==> a.last() != 13,
    ensures
        lines_of(a + seq![10u8] + rest) == seq![a] + lines_of(rest),
{
    let s = a + seq![10u8] + rest;
    assert forall|t: int| 0 <= t < a.len() implies s[t] != 10 by {
        assert(s[t] == a[t]);
    }
    assert(s[a.len() as int] == 10);
    lemma_first_nl_char(s, a.len() as int);
    assert(s.take(a.len() as int) =~= a);
    assert(strip_cr(a) == a);
    assert(s.skip(a.len() as int + 1) =~= rest);
    assert(lines_of(s) == seq![a] + lines_of(rest));
}

/// The lines of the encoded rows are exactly the rows.
proof fn lemma_lines_rows(m: BoardModel, r: int)
    requires
        m.wf(),
        0 <= r <= m.h,
    ensures
        lines_of(rows_bytes(m, r)) =~= Seq::new((m.h - r) as nat, |t: int| row_bytes(m, r + t)),
    decreases m.h - r,
{
    if r == m.h {
        assert(rows_bytes(m, r) =~= Seq::<u8>::empty());
        assert(lines_of(Seq::<u8>::empty()) =~= Seq::<Seq<u8>>::empty());
    } else {
        lemma_lines_rows(m, r + 1);
        let row = row_bytes(m, r);
        assert forall|i: int| 0 <= i < row.len() implies row[i] != 10 && row[i] != 13 by {
            lemma_index_in_range(m, i, m.h - 1 - r);
            assert(m.cell(i, m.h - 1 - r) <= MAX_COLOR);
        }
        lemma_lines_cons(row, rows_bytes(m, r + 1));
        assert(rows_bytes(m, r) =~= row + seq![10u8] + rows_bytes(m, r + 1));
        assert(lines_of(rows_bytes(m, r)) =~= Seq::new(
            (m.h - r) as nat,
            |t: int| row_bytes(m, r + t),
        ));
    }
}

/// A line of two space-separated non-space words has those two tokens.
proof fn lemma_tokens_pair(a: Seq<u8>, b: Seq<u8>)
    requires
        a.len() > 0,
        b.len() > 0,
        forall|i: int| 0 <= i < a.len() ==> !is_space(#[trigger] a[i]),
        forall|i: int| 0 <= i < b.len() ==> !is_space(#[trigger] b[i]),
    ensures
        tokens_of(a + seq![32u8] + b) == seq![a, b],
{
    let s = a + seq![32u8] + b;
    assert forall|t: int| 0 <= t < a.len() implies !is_space(s[t]) by {
        assert(s[t] == a[t]);
    }
    assert(is_space(s[a.len() as int]));
    lemma_first_space_char(s, a.len() as int);
    assert(s.take(a.len() as int) =~= a);
    let s2 = s.skip(a.len() as int);
    assert(s2 =~= seq![32u8] + b);
    assert(is_space(s2[0]));
    assert(s2.skip(1) =~= b);
    lemma_first_space_char(b, b.len() as int);
    assert(!(1 <= first_space(b) < b.len()));
    assert(tokens_of(b) == seq![b]);
    assert(tokens_of(s2) == tokens_of(b));
    assert(tokens_of(s) == seq![a] + tokens_of(s2));
    assert(tokens_of(s) =~= seq![a, b]);
}

/// Appends the decimal digits of `n`.
fn push_dec(v: &mut Vec<u8>, n: usize)
    ensures
        final(v)@ == old(v)@ + dec_digits(n as nat),
    decreases n,
{
    if n < 10 {
        v.push(48 + n as u8);
        proof {
            assert(v@ =~= old(v)@ + dec_digits(n as nat));
        }
    } else {
        push_dec(v, n / 10);
        v.push(48 + (n % 10) as u8);
        proof {
            assert((n as nat) / 10 == (n / 10) as nat);
            assert((n as nat) % 10 == (n % 10) as nat);
            assert(v@ =~= old(v)@ + dec_digits(n as nat));
        }
    }
}

impl Board {
    /// Writes the board in the textual save format; parsing the result yields
    /// this same board (see `lemma_encode_parse_round_trip`).
    #[verifier::loop_isolation(false)]
    pub fn encode(&self) -> (r: Vec<u8>)
        requires
            self.wf(),
        ensures
            r@ == spec_encode(self.model()),
    {
        let ghost m = self.model();
        let mut out: Vec<u8> = Vec::new();
        push_dec(&mut out, self.width());
        out.push(32);
        push_dec(&mut out, self.height());
        out.push(10);
        proof {
            assert(out@ + rows_bytes(m, 0) =~= spec_encode(m));
        }
        let w = self.width();
        let h = self.height();
        let mut ri: usize = 0;
        while ri < h
            invariant
                ri <= h,
                out@ + rows_bytes(m, ri as int) == spec_encode(m),
            decreases h - ri,
        {
            let ghost row_start = out@;
            let yy = h - 1 - ri;
            let mut x: usize = 0;
            while x < w
                invariant
                    x <= w,
                    yy == h - 1 - ri,
                    out@ == row_start + row_bytes(m, ri as int).take(x as int),
                decreases w - x,
            {
                proof {
                    lemma_index_in_range(m, x as int, yy as int);
                    assert(m.cell(x as int, yy as int) <= MAX_COLOR);
                }
                let c = self.at(x, yy);
                out.push(48 + c);
                proof {
                    assert(row_bytes(m, ri as int)[x as int] == (48 + m.cell(
                        x as int,
                        m.h - 1 - ri,
                    )) as u8);
                    assert(out@ =~= row_start + row_bytes(m, ri as int).take(x + 1));
                }
                x = x + 1;
            }
            out.push(10);
            proof {
                assert(row_bytes(m, ri as int).take(w as int) =~= row_bytes(m, ri as int));
                assert(rows_bytes(m, ri as int) == row_bytes(m, ri as int) + seq![10u8]
                    + rows_bytes(m, ri + 1));
                assert(out@ + rows_bytes(m, ri + 1) =~= spec_encode(m));
            }
            ri = ri + 1;
        }
        proof {
            assert(rows_bytes(m, h as int) =~= Seq::<u8>::empty());
            assert(out@ =~= spec_encode(m));
        }
        out
    }
}

/// Round trip: the textual encoding of any well-formed board that fits in
/// memory parses back to exactly that board.
pub proof fn lemma_encode_parse_round_trip(m: BoardModel)
    requires
        m.wf(),
        m.w * m.h <= usize::MAX,
    ensures
        spec_parse(spec_encode(m)) == Ok::<BoardModel, ParseError>(m),
{
    let s = spec_encode(m);
    let dw = dec_digits(m.w);
    let dh = dec_digits(m.h);
    let hd = dw + seq![32u8] + dh;
    lemma_dec_digits_props(m.w);
    lemma_dec_digits_props(m.h);
    assert forall|i: int| 0 <= i < hd.len() implies hd[i] != 10 && hd[i] != 13 by {
        if i < dw.len() {
            assert(hd[i] == dw[i]);
            assert(is_digit(dw[i]));
        } else if i == dw.len() {
            assert(hd[i] == 32);
        } else {
            assert(hd[i] == dh[i - dw.len() - 1]);
            assert(is_digit(dh[i - dw.len() - 1]));
        }
    }
    assert(hd.last() != 13);
    assert(s =~= hd + seq![10u8] + rows_bytes(m, 0));
    lemma_lines_cons(hd, rows_bytes(m, 0));
    lemma_lines_rows(m, 0);
    let row_lines = Seq::new(m.h, |t: int| row_bytes(m, t));
    assert(lines_of(rows_bytes(m, 0)) =~= row_lines);
    assert(lines_of(s) == seq![hd] + row_lines);
    assert(lines_of(s).len() == 1 + m.h);
    assert(lines_of(s)[0] == hd);
    assert forall|i: int| 0 <= i < dw.len() implies !is_space(#[trigger] dw[i]) by {
        assert(is_digit(dw[i]));
    }
    assert forall|i: int| 0 <= i < dh.len() implies !is_space(#[trigger] dh[i]) by {
        assert(is_digit(dh[i]));
    }
    lemma_tokens_pair(dw, dh);
    assert(header_of(s) == seq![dw, dh]);
    assert(m.w <= m.w * m.h && m.h <= m.w * m.h) by (nonlinear_arith)
        requires
            m.w >= 1,
            m.h >= 1,
    ;
    assert(header_valid(s));
    assert(spec_w(s) == m.w && spec_h(s) == m.h);
    assert(rows_present(s));
    assert forall|r: int| 0 <= r < m.h implies #[trigger] data_line(s, r) == row_bytes(m, r) by {
        assert(lines_of(s)[1 + r] == row_lines[r]);
    }
    assert forall|r: int|
        0 <= r < m.h implies row_ok(#[trigger] data_line(s, r), spec_w(s)) by {
        assert forall|i: int|
            0 <= i < row_bytes(m, r).len() && i < m.w implies is_cell_digit(
            #[trigger] row_bytes(m, r)[i],
        ) by {
            lemma_index_in_range(m, i, m.h - 1 - r);
            assert(m.cell(i, m.h - 1 - r) <= MAX_COLOR);
        }
    }
    assert(!some_row_bad(s));
    let m2 = spec_parse(s)->Ok_0;
    assert(m2.w == m.w && m2.h == m.h);
    assert forall|i: int| 0 <= i < m.w * m.h implies m2.cells[i] == m.cells[i] by {
        lemma_coord_of_index(m.h as int, m.w as int, i);
        let x = i / (m.h as int);
        let y = i % (m.h as int);
        let r = m.h - 1 - y;
        assert(data_line(s, spec_h(s) - 1 - y) == row_bytes(m, r));
        assert(row_bytes(m, r).len() == m.w);
        assert(row_bytes(m, r)[x] == (48 + m.cell(x, m.h - 1 - r)) as u8);
        lemma_index_in_range(m, x, y);
        assert(m.cell(x, y) <= MAX_COLOR);
        assert(m2.cells[i] == parse_cell(s, x, y));
    }
    assert(m2.cells =~= m.cells);
    assert(m2 =~= m);
}

} // verus!
