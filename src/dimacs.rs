use vstd::prelude::*;

use crate::clause::{Clause, Literal};
use crate::search::{vars_in_range, Formula};

verus! {

/// Why a DIMACS text was rejected.
#[derive(Clone, Debug)]
pub enum ParseError {
    /// Every line is a comment line.
    MissingProblemLine,
    /// The problem line is not four tokens starting with `p`.
    InvalidProblemLine,
    /// The problem line names a format other than `cnf`.
    UnsupportedFormat,
    /// The variable count is not an unsigned integer.
    InvalidVariableCount,
    /// The clause count is not an unsigned integer.
    InvalidClauseCount,
    /// A literal is not a nonzero integer naming a declared variable;
    /// `token` holds its bytes.
    IllegalVariable { token: Vec<u8> },
    /// Fewer clauses than the problem line declares.
    NotEnoughClauses,
    /// More clauses than the problem line declares.
    TooManyClauses,
}

/// What a rejection denotes: the reason, and for a bad literal the bytes of
/// its token.
pub enum ParseFailure {
    MissingProblemLine,
    InvalidProblemLine,
    UnsupportedFormat,
    InvalidVariableCount,
    InvalidClauseCount,
    IllegalVariable(Seq<u8>),
    NotEnoughClauses,
    TooManyClauses,
}

impl View for ParseError {
    type V = ParseFailure;

    open spec fn view(&self) -> ParseFailure {
        match self {
            ParseError::MissingProblemLine => ParseFailure::MissingProblemLine,
            ParseError::InvalidProblemLine => ParseFailure::InvalidProblemLine,
            ParseError::UnsupportedFormat => ParseFailure::UnsupportedFormat,
            ParseError::InvalidVariableCount => ParseFailure::InvalidVariableCount,
            ParseError::InvalidClauseCount => ParseFailure::InvalidClauseCount,
            ParseError::IllegalVariable { token } => ParseFailure::IllegalVariable(token@),
            ParseError::NotEnoughClauses => ParseFailure::NotEnoughClauses,
            ParseError::TooManyClauses => ParseFailure::TooManyClauses,
        }
    }
}

/// An ASCII whitespace byte: space, tab, line feed, vertical tab, form feed, carriage return.
pub open spec fn is_space(b: u8) -> bool {
    b == 0x20u8 || b == 0x09u8 || b == 0x0au8 || b == 0x0bu8 || b == 0x0cu8 || b == 0x0du8
}

/// The UTF-8 encoding of a two-byte whitespace character: U+0085, U+00A0.
pub open spec fn is_space2(a: u8, b: u8) -> bool {
    a == 0xc2u8 && (b == 0x85u8 || b == 0xa0u8)
}

/// The UTF-8 encoding of a three-byte whitespace character: U+1680,
/// U+2000 to U+200A, U+2028, U+2029, U+202F, U+205F, U+3000.
pub open spec fn is_space3(a: u8, b: u8, c: u8) -> bool {
    (a == 0xe1u8 && b == 0x9au8 && c == 0x80u8) || (a == 0xe2u8 && b == 0x80u8 && ((0x80u8 <= c
        && c <= 0x8au8) || c == 0xa8u8 || c == 0xa9u8 || c == 0xafu8)) || (a == 0xe2u8 && b
        == 0x81u8 && c == 0x9fu8) || (a == 0xe3u8 && b == 0x80u8 && c == 0x80u8)
}

/// The length in bytes of the whitespace character that starts at `i` and
/// ends by `e`, or 0 where there is none.
pub open spec fn space_width(s: Seq<u8>, i: nat, e: nat) -> nat {
    if i >= e {
        0
    } else if is_space(s[i as int]) {
        1
    } else if i + 1 < e && is_space2(s[i as int], s[i + 1int]) {
        2
    } else if i + 2 < e && is_space3(s[i as int], s[i + 1int], s[i + 2int]) {
        3
    } else {
        0
    }
}

pub open spec fn is_digit(b: u8) -> bool {
    0x30u8 <= b <= 0x39u8
}

/// The end of the line that starts at `i`: the index of the next newline, or the length.
pub open spec fn line_end(s: Seq<u8>, i: nat) -> nat
    decreases s.len() - i,
{
    if i >= s.len() {
        s.len()
    } else if s[i as int] == 0x0au8 {
        i
    } else {
        line_end(s, i + 1)
    }
}

/// The start of the first line at or after `i` that is not a comment
/// (a comment line starts with `c`), if there is one.
pub open spec fn problem_line(s: Seq<u8>, i: nat) -> Option<nat>
    decreases s.len() + 1 - i,
{
    if i >= s.len() {
        None
    } else if s[i as int] != 0x63u8 {
        Some(i)
    } else {
        proof {
            lemma_line_end_bounds(s, i);
        }
        problem_line(s, line_end(s, i) + 1)
    }
}

/// Where the whitespace that starts at `i` ends, within `[i, e]`.
pub open spec fn skip_space(s: Seq<u8>, i: nat, e: nat) -> nat
    decreases e - i,
{
    if i >= e {
        e
    } else if space_width(s, i, e) == 0 {
        i
    } else {
        skip_space(s, i + space_width(s, i, e), e)
    }
}

/// The first index in `[i, e)` where a whitespace character starts, or `e`.
pub open spec fn token_end(s: Seq<u8>, i: nat, e: nat) -> nat
    decreases e - i,
{
    if i >= e {
        e
    } else if space_width(s, i, e) > 0 {
        i
    } else {
        token_end(s, i + 1, e)
    }
}

/// The whitespace-separated tokens of `s[i..e]`, as index ranges.
pub open spec fn tokens(s: Seq<u8>, i: nat, e: nat) -> Seq<(nat, nat)>
    decreases e - i,
{
    let j = skip_space(s, i, e);
    if j >= e {
        Seq::empty()
    } else {
        proof {
            lemma_scan_bounds(s, i, e);
            lemma_scan_bounds(s, j, e);
        }
        seq![(j, token_end(s, j, e))] + tokens(s, token_end(s, j, e), e)
    }
}

/// The value of a sequence of decimal digits.
pub open spec fn digits_value(t: Seq<u8>) -> nat
    decreases t.len(),
{
    if t.len() == 0 {
        0
    } else {
        digits_value(t.drop_last()) * 10 + (t.last() - 0x30u8) as nat
    }
}

pub open spec fn all_digits(t: Seq<u8>) -> bool {
    forall|i: int| 0 <= i < t.len() ==> is_digit(#[trigger] t[i])
}

/// `t` without a leading sign byte `sign`.
pub open spec fn unsigned_part(t: Seq<u8>, sign: u8) -> Seq<u8> {
    if t.len() > 0 && t[0] == sign {
        t.drop_first()
    } else {
        t
    }
}

/// An unsigned count: an optional `+` and one or more digits whose value fits a `usize`.
pub open spec fn parse_count(t: Seq<u8>) -> Option<nat> {
    let d = unsigned_part(t, 0x2bu8);
    if d.len() > 0 && all_digits(d) && digits_value(d) <= usize::MAX {
        Some(digits_value(d))
    } else {
        None
    }
}

/// The literal that token `t` names among `n` variables: an optional sign
/// and digits, whose value lies in `1..=n` and fits an `isize`.
pub open spec fn parse_literal(t: Seq<u8>, n: nat) -> Option<Literal> {
    let negated = t.len() > 0 && t[0] == 0x2du8;
    let d = if negated { t.drop_first() } else { unsigned_part(t, 0x2bu8) };
    let m = digits_value(d);
    if d.len() > 0 && all_digits(d) && 1 <= m <= n && m <= isize::MAX {
        Some(Literal { id: (m - 1) as usize, negated })
    } else {
        None
    }
}

/// The literals of the clause text `s[i..e]`.
pub open spec fn parse_literals(s: Seq<u8>, i: nat, e: nat, n: nat) -> Result<
    Seq<Literal>,
    ParseFailure,
>
    decreases e - i,
{
    let j = skip_space(s, i, e);
    if j >= e {
        Ok(Seq::empty())
    } else {
        proof {
            lemma_scan_bounds(s, i, e);
            lemma_scan_bounds(s, j, e);
        }
        let t = token_end(s, j, e);
        match parse_literal(s.subrange(j as int, t as int), n) {
            None => Err(ParseFailure::IllegalVariable(s.subrange(j as int, t as int))),
            Some(l) => match parse_literals(s, t, e, n) {
                Ok(ls) => Ok(seq![l] + ls),
                Err(err) => Err(err),
            },
        }
    }
}

/// The first index `j` in `[i, hi)` where the separator ` 0` starts and
/// fits before `hi`, or `hi`.
pub open spec fn find_sep(s: Seq<u8>, i: nat, hi: nat) -> nat
    decreases hi - i,
{
    if i + 1 >= hi {
        hi
    } else if s[i as int] == 0x20u8 && s[i + 1int] == 0x30u8 {
        i
    } else {
        find_sep(s, i + 1, hi)
    }
}

/// The end of the piece that starts at `i` when `s[..hi]` is split at each ` 0`.
pub open spec fn piece_end(s: Seq<u8>, i: nat, hi: nat) -> nat {
    find_sep(s, i, hi)
}

/// Where the piece after the one at `i` starts; `hi + 1` once the last
/// piece has been taken.
pub open spec fn next_piece(s: Seq<u8>, i: nat, hi: nat) -> nat {
    if find_sep(s, i, hi) < hi {
        find_sep(s, i, hi) + 2
    } else {
        hi + 1
    }
}

/// The `m` clauses that the pieces of `s[..hi]` from `i` on give, and the
/// check that the piece after them is empty. A position above `hi` means
/// that no piece is left.
pub open spec fn parse_clauses(s: Seq<u8>, i: nat, hi: nat, m: nat, n: nat) -> Result<
    Seq<Seq<Literal>>,
    ParseFailure,
>
    decreases m,
{
    if i > hi {
        Err(ParseFailure::NotEnoughClauses)
    } else if m == 0 {
        if piece_end(s, i, hi) == i {
            Ok(Seq::empty())
        } else {
            Err(ParseFailure::TooManyClauses)
        }
    } else {
        match parse_literals(s, i, piece_end(s, i, hi), n) {
            Err(err) => Err(err),
            Ok(c) => match parse_clauses(s, next_piece(s, i, hi), hi, (m - 1) as nat, n) {
                Ok(cs) => Ok(seq![c] + cs),
                Err(err) => Err(err),
            },
        }
    }
}

/// The end of `s[lo..hi]` once trailing whitespace is removed.
pub open spec fn trim_end(s: Seq<u8>, lo: nat, hi: nat) -> nat
    decreases hi,
{
    if hi >= lo + 1 && is_space(s[hi - 1]) {
        trim_end(s, lo, (hi - 1) as nat)
    } else if hi >= lo + 2 && is_space2(s[hi - 2], s[hi - 1]) {
        trim_end(s, lo, (hi - 2) as nat)
    } else if hi >= lo + 3 && is_space3(s[hi - 3], s[hi - 2], s[hi - 1]) {
        trim_end(s, lo, (hi - 3) as nat)
    } else {
        hi
    }
}

pub open spec fn token_bytes(s: Seq<u8>, t: (nat, nat)) -> Seq<u8> {
    s.subrange(t.0 as int, t.1 as int)
}

/// What a DIMACS text denotes: the number of variables and the clauses,
/// or the first error met.
pub open spec fn dimacs(s: Seq<u8>) -> Result<(nat, Seq<Seq<Literal>>), ParseFailure> {
    match problem_line(s, 0) {
        None => Err(ParseFailure::MissingProblemLine),
        Some(ps) => {
            let pe = line_end(s, ps);
            let ts = tokens(s, ps, pe);
            if ts.len() != 4 || token_bytes(s, ts[0]) != seq![0x70u8] {
                Err(ParseFailure::InvalidProblemLine)
            } else if token_bytes(s, ts[1]) != seq![0x63u8, 0x6eu8, 0x66u8] {
                Err(ParseFailure::UnsupportedFormat)
            } else {
                match parse_count(token_bytes(s, ts[2])) {
                    None => Err(ParseFailure::InvalidVariableCount),
                    Some(n) => match parse_count(token_bytes(s, ts[3])) {
                        None => Err(ParseFailure::InvalidClauseCount),
                        Some(m) => {
                            let lo = if pe < s.len() { pe + 1 } else { pe };
                            match parse_clauses(s, lo, trim_end(s, lo, s.len()), m, n) {
                                Ok(cs) => Ok((n, cs)),
                                Err(err) => Err(err),
                            }
                        },
                    },
                }
            }
        },
    }
}

pub proof fn lemma_line_end_bounds(s: Seq<u8>, i: nat)
    ensures
        i <= s.len() ==> i <= line_end(s, i) <= s.len(),
        line_end(s, i) < s.len() ==> s[line_end(s, i) as int] == 0x0au8,
        forall|u: int| i <= u < line_end(s, i) ==> s[u] != 0x0au8,
    decreases s.len() - i,
{
    if i < s.len() && s[i as int] != 0x0au8 {
        lemma_line_end_bounds(s, i + 1);
    }
}

pub proof fn lemma_scan_bounds(s: Seq<u8>, i: nat, e: nat)
    ensures
        i <= e ==> i <= skip_space(s, i, e) <= e,
        i <= e ==> i <= token_end(s, i, e) <= e,
        i < e && space_width(s, i, e) == 0 ==> i < token_end(s, i, e),
        skip_space(s, i, e) < e ==> space_width(s, skip_space(s, i, e), e) == 0,
    decreases e - i,
{
    if i < e {
        lemma_scan_bounds(s, i + 1, e);
        if space_width(s, i, e) > 0 {
            lemma_scan_bounds(s, i + space_width(s, i, e), e);
        }
    }
}

/// Places the literals `acc` before the outcome `r` of the rest of a clause.
pub open spec fn prepend_literals(acc: Seq<Literal>, r: Result<Seq<Literal>, ParseFailure>) -> Result<
    Seq<Literal>,
    ParseFailure,
> {
    match r {
        Ok(ls) => Ok(acc + ls),
        Err(err) => Err(err),
    }
}

/// Places the clauses `acc` before the outcome `r` of the rest of the text.
pub open spec fn prepend_clauses(
    acc: Seq<Seq<Literal>>,
    r: Result<Seq<Seq<Literal>>, ParseFailure>,
) -> Result<Seq<Seq<Literal>>, ParseFailure> {
    match r {
        Ok(cs) => Ok(acc + cs),
        Err(err) => Err(err),
    }
}

/// A prefix of digits is worth no more than the whole.
proof fn lemma_digits_prefix(d: Seq<u8>, k: int)
    requires
        all_digits(d),
        0 <= k <= d.len(),
    ensures
        digits_value(d.subrange(0, k)) <= digits_value(d),
    decreases d.len(),
{
    if k < d.len() {
        assert(d.drop_last() =~= d.subrange(0, d.len() - 1));
        assert(d.subrange(0, k) =~= d.drop_last().subrange(0, k));
        lemma_digits_prefix(d.drop_last(), k);
    } else {
        assert(d.subrange(0, k) =~= d);
    }
}

/// A copy of the bytes `s[lo..hi]`.
fn copy_bytes(s: &[u8], lo: usize, hi: usize) -> (r: Vec<u8>)
    requires
        lo <= hi <= s@.len(),
    ensures
        r@ == s@.subrange(lo as int, hi as int),
{
    let mut r: Vec<u8> = Vec::new();
    let mut k: usize = lo;
    while k < hi
        invariant
            lo <= k <= hi <= s@.len(),
            r@ == s@.subrange(lo as int, k as int),
        decreases hi - k,
    {
        r.push(s[k]);
        k = k + 1;
        assert(r@ =~= s@.subrange(lo as int, k as int));
    }
    r
}

fn find_line_end(s: &[u8], i: usize) -> (r: usize)
    requires
        i <= s@.len(),
    ensures
        r == line_end(s@, i as nat),
{
    let mut j: usize = i;
    while j < s.len() && s[j] != 0x0au8
        invariant
            i <= j <= s@.len(),
            line_end(s@, j as nat) == line_end(s@, i as nat),
        decreases s@.len() - j,
    {
        j = j + 1;
    }
    j
}

fn find_problem_line(s: &[u8]) -> (r: Option<usize>)
    ensures
        r matches Some(p) ==> problem_line(s@, 0) == Some(p as nat) && p < s@.len(),
        r is None ==> problem_line(s@, 0) is None,
{
    let mut i: usize = 0;
    while i < s.len()
        invariant
            i <= s@.len(),
            problem_line(s@, i as nat) == problem_line(s@, 0),
        decreases s@.len() - i,
    {
        if s[i] != 0x63u8 {
            return Some(i);
        }
        let e = find_line_end(s, i);
        proof {
            lemma_line_end_bounds(s@, i as nat);
        }
        if e >= s.len() {
            assert(problem_line(s@, e as nat + 1) is None);
            return None;
        }
        i = e + 1;
    }
    None
}

fn find_skip_space(s: &[u8], i: usize, e: usize) -> (r: usize)
    requires
        i <= e <= s@.len(),
    ensures
        r == skip_space(s@, i as nat, e as nat),
{
    let mut j: usize = i;
    loop
        invariant
            i <= j <= e <= s@.len(),
            skip_space(s@, j as nat, e as nat) == skip_space(s@, i as nat, e as nat),
        decreases e - j,
    {
        let w = space_width_at(s, j, e);
        if w == 0 {
            return j;
        }
        j = j + w;
    }
}

fn find_token_end(s: &[u8], i: usize, e: usize) -> (r: usize)
    requires
        i <= e <= s@.len(),
    ensures
        r == token_end(s@, i as nat, e as nat),
{
    let mut j: usize = i;
    while j < e && space_width_at(s, j, e) == 0
        invariant
            i <= j <= e <= s@.len(),
            token_end(s@, j as nat, e as nat) == token_end(s@, i as nat, e as nat),
        decreases e - j,
    {
        j = j + 1;
    }
    j
}

fn is_space_byte(b: u8) -> (r: bool)
    ensures
        r == is_space(b),
{
    b == 0x20u8 || b == 0x09u8 || b == 0x0au8 || b == 0x0bu8 || b == 0x0cu8 || b == 0x0du8
}

fn is_space2_bytes(a: u8, b: u8) -> (r: bool)
    ensures
        r == is_space2(a, b),
{
    a == 0xc2u8 && (b == 0x85u8 || b == 0xa0u8)
}

fn is_space3_bytes(a: u8, b: u8, c: u8) -> (r: bool)
    ensures
        r == is_space3(a, b, c),
{
    (a == 0xe1u8 && b == 0x9au8 && c == 0x80u8) || (a == 0xe2u8 && b == 0x80u8 && ((0x80u8 <= c
        && c <= 0x8au8) || c == 0xa8u8 || c == 0xa9u8 || c == 0xafu8)) || (a == 0xe2u8 && b
        == 0x81u8 && c == 0x9fu8) || (a == 0xe3u8 && b == 0x80u8 && c == 0x80u8)
}

fn space_width_at(s: &[u8], i: usize, e: usize) -> (r: usize)
    requires
        e <= s@.len(),
    ensures
        r == space_width(s@, i as nat, e as nat),
        r <= 3,
{
    if i >= e {
        0
    } else if is_space_byte(s[i]) {
        1
    } else if e - i > 1 && is_space2_bytes(s[i], s[i + 1]) {
        2
    } else if e - i > 2 && is_space3_bytes(s[i], s[i + 1], s[i + 2]) {
        3
    } else {
        0
    }
}

/// The index ranges of the whitespace-separated tokens of `s[i..e]`.
fn token_spans(s: &[u8], i: usize, e: usize) -> (r: Vec<(usize, usize)>)
    requires
        i <= e <= s@.len(),
    ensures
        r@.len() == tokens(s@, i as nat, e as nat).len(),
        forall|k: int|
            0 <= k < r@.len() ==> (#[trigger] r@[k]).0 as nat == tokens(s@, i as nat, e as nat)[k].0
                && r@[k].1 as nat == tokens(s@, i as nat, e as nat)[k].1,
{
    let ghost all = tokens(s@, i as nat, e as nat);
    let mut r: Vec<(usize, usize)> = Vec::new();
    let mut pos: usize = i;
    loop
        invariant
            i <= pos <= e <= s@.len(),
            all == tokens(s@, i as nat, e as nat),
            all == Seq::new(r@.len(), |k: int| (r@[k].0 as nat, r@[k].1 as nat)) + tokens(
                s@,
                pos as nat,
                e as nat,
            ),
        decreases e - pos,
    {
        let ghost before = Seq::new(r@.len(), |k: int| (r@[k].0 as nat, r@[k].1 as nat));
        let j = find_skip_space(s, pos, e);
        proof {
            lemma_scan_bounds(s@, pos as nat, e as nat);
        }
        if j >= e {
            assert(all =~= before);
            return r;
        }
        let t = find_token_end(s, j, e);
        proof {
            lemma_scan_bounds(s@, j as nat, e as nat);
        }
        r.push((j, t));
        assert(Seq::new(r@.len(), |k: int| (r@[k].0 as nat, r@[k].1 as nat)) =~= before.push(
            (j as nat, t as nat),
        ));
        assert(all =~= Seq::new(r@.len(), |k: int| (r@[k].0 as nat, r@[k].1 as nat)) + tokens(
            s@,
            t as nat,
            e as nat,
        ));
        pos = t;
    }
}

/// The value of the digits `s[lo..hi]`, where all are digits and the value fits.
fn parse_digits(s: &[u8], lo: usize, hi: usize) -> (r: Option<usize>)
    requires
        lo <= hi <= s@.len(),
    ensures
        r matches Some(v) ==> all_digits(s@.subrange(lo as int, hi as int)) && digits_value(
            s@.subrange(lo as int, hi as int),
        ) == v,
        r is None ==> !(all_digits(s@.subrange(lo as int, hi as int)) && digits_value(
            s@.subrange(lo as int, hi as int),
        ) <= usize::MAX),
{
    let ghost d = s@.subrange(lo as int, hi as int);
    let mut acc: usize = 0;
    let mut k: usize = lo;
    while k < hi
        invariant
            lo <= k <= hi <= s@.len(),
            d == s@.subrange(lo as int, hi as int),
            all_digits(d.subrange(0, k - lo)),
            acc == digits_value(d.subrange(0, k - lo)),
        decreases hi - k,
    {
        let b = s[k];
        if !(0x30u8 <= b && b <= 0x39u8) {
            assert(d[k - lo] == b);
            return None;
        }
        let ghost prev = d.subrange(0, k - lo);
        let ghost next = d.subrange(0, k + 1 - lo);
        assert(next.drop_last() =~= prev);
        assert(all_digits(next));
        let digit = (b - 0x30u8) as usize;
        let grown = match acc.checked_mul(10) {
            Some(x) => x.checked_add(digit),
            None => None,
        };
        match grown {
            Some(v) => {
                acc = v;
            },
            None => {
                proof {
                    assert(digits_value(next) > usize::MAX);
                    if all_digits(d) {
                        lemma_digits_prefix(d, k + 1 - lo);
                    }
                }
                return None;
            },
        }
        k = k + 1;
    }
    assert(d.subrange(0, hi - lo) =~= d);
    Some(acc)
}

fn parse_count_at(s: &[u8], lo: usize, hi: usize) -> (r: Option<usize>)
    requires
        lo <= hi <= s@.len(),
    ensures
        r matches Some(v) ==> parse_count(s@.subrange(lo as int, hi as int)) == Some(v as nat),
        r is None ==> parse_count(s@.subrange(lo as int, hi as int)) is None,
{
    let ghost t = s@.subrange(lo as int, hi as int);
    let start: usize = if lo < hi && s[lo] == 0x2bu8 { lo + 1 } else { lo };
    assert(unsigned_part(t, 0x2bu8) =~= s@.subrange(start as int, hi as int));
    if start >= hi {
        return None;
    }
    parse_digits(s, start, hi)
}

fn parse_literal_at(s: &[u8], lo: usize, hi: usize, n: usize) -> (r: Option<Literal>)
    requires
        lo <= hi <= s@.len(),
    ensures
        r == parse_literal(s@.subrange(lo as int, hi as int), n as nat),
{
    let ghost t = s@.subrange(lo as int, hi as int);
    let negated = lo < hi && s[lo] == 0x2du8;
    let start: usize = if lo < hi && (s[lo] == 0x2du8 || s[lo] == 0x2bu8) { lo + 1 } else { lo };
    assert(s@.subrange(start as int, hi as int) =~= (if negated { t.drop_first() } else { unsigned_part(t, 0x2bu8) }));
    if start >= hi {
        return None;
    }
    match parse_digits(s, start, hi) {
        None => None,
        Some(m) => {
            if m < 1 || m > n || m > isize::MAX as usize {
                None
            } else {
                let var: isize = if negated { -(m as isize) } else { m as isize };
                Some(Literal::from_var(var))
            }
        },
    }
}

/// The clause that the text `s[i..e]` gives.
fn parse_clause(s: &[u8], i: usize, e: usize, n: usize) -> (r: Result<Clause, ParseError>)
    requires
        i <= e <= s@.len(),
    ensures
        r matches Ok(c) ==> parse_literals(s@, i as nat, e as nat, n as nat) == Ok::<Seq<Literal>, ParseFailure>(c@)
            && forall|k: int| 0 <= k < c@.len() ==> (#[trigger] c@[k]).id < n,
        r matches Err(err) ==> parse_literals(s@, i as nat, e as nat, n as nat) == Err::<Seq<Literal>, ParseFailure>(err@),
{
    let ghost all = parse_literals(s@, i as nat, e as nat, n as nat);
    let mut c = Clause::new();
    let mut pos: usize = i;
    loop
        invariant
            i <= pos <= e <= s@.len(),
            all == parse_literals(s@, i as nat, e as nat, n as nat),
            all == prepend_literals(c@, parse_literals(s@, pos as nat, e as nat, n as nat)),
            forall|k: int| 0 <= k < c@.len() ==> (#[trigger] c@[k]).id < n,
        decreases e - pos,
    {
        let j = find_skip_space(s, pos, e);
        proof {
            lemma_scan_bounds(s@, pos as nat, e as nat);
        }
        if j >= e {
            assert(c@ + Seq::<Literal>::empty() =~= c@);
            return Ok(c);
        }
        let t = find_token_end(s, j, e);
        proof {
            lemma_scan_bounds(s@, j as nat, e as nat);
        }
        match parse_literal_at(s, j, t, n) {
            None => {
                return Err(ParseError::IllegalVariable { token: copy_bytes(s, j, t) });
            },
            Some(l) => {
                let ghost before = c@;
                c.push(l);
                proof {
                    match parse_literals(s@, t as nat, e as nat, n as nat) {
                        Ok(ls) => {
                            assert(before + (seq![l] + ls) =~= c@ + ls);
                        },
                        Err(_) => {},
                    }
                }
                pos = t;
            },
        }
    }
}

fn find_separator(s: &[u8], i: usize, hi: usize) -> (r: usize)
    requires
        i <= hi <= s@.len(),
    ensures
        r == find_sep(s@, i as nat, hi as nat),
        i <= r <= hi,
        r < hi ==> r + 2 <= hi,
{
    let mut j: usize = i;
    while j < hi && j + 1 < hi && !(s[j] == 0x20u8 && s[j + 1] == 0x30u8)
        invariant
            i <= j <= hi <= s@.len(),
            find_sep(s@, j as nat, hi as nat) == find_sep(s@, i as nat, hi as nat),
        decreases hi - j,
    {
        j = j + 1;
    }
    if j >= hi || j + 1 >= hi {
        hi
    } else {
        j
    }
}

fn trim_end_at(s: &[u8], lo: usize) -> (r: usize)
    requires
        lo <= s@.len(),
    ensures
        r == trim_end(s@, lo as nat, s@.len()),
        lo <= r <= s@.len(),
{
    let mut hi: usize = s.len();
    loop
        invariant
            lo <= hi <= s@.len(),
            trim_end(s@, lo as nat, hi as nat) == trim_end(s@, lo as nat, s@.len()),
        decreases hi,
    {
        if hi - lo >= 1 && is_space_byte(s[hi - 1]) {
            hi = hi - 1;
        } else if hi - lo >= 2 && is_space2_bytes(s[hi - 2], s[hi - 1]) {
            hi = hi - 2;
        } else if hi - lo >= 3 && is_space3_bytes(s[hi - 3], s[hi - 2], s[hi - 1]) {
            hi = hi - 3;
        } else {
            return hi;
        }
    }
}

/// The `m` clauses of `s[i..hi]`, then the check that no text is left.
fn parse_clause_list(s: &[u8], i: usize, hi: usize, m: usize, n: usize) -> (r: Result<
    Vec<Clause>,
    ParseError,
>)
    requires
        i <= hi <= s@.len(),
    ensures
        r matches Ok(cs) ==> parse_clauses(s@, i as nat, hi as nat, m as nat, n as nat)
            == Ok::<Seq<Seq<Literal>>, ParseFailure>(Seq::new(cs@.len(), |j: int| cs@[j]@))
            && vars_in_range(Seq::new(cs@.len(), |j: int| cs@[j]@), n as nat),
        r matches Err(err) ==> parse_clauses(s@, i as nat, hi as nat, m as nat, n as nat) == Err::<
            Seq<Seq<Literal>>,
            ParseFailure,
        >(err@),
{
    let ghost all = parse_clauses(s@, i as nat, hi as nat, m as nat, n as nat);
    let mut cs: Vec<Clause> = Vec::new();
    let mut pos: usize = i;
    let mut done = false;
    let mut left: usize = m;
    loop
        invariant
            i <= pos <= hi <= s@.len(),
            all == parse_clauses(s@, i as nat, hi as nat, m as nat, n as nat),
            all == prepend_clauses(
                Seq::new(cs@.len(), |j: int| cs@[j]@),
                parse_clauses(s@, if done { hi as nat + 1 } else { pos as nat }, hi as nat, left as nat, n as nat),
            ),
            vars_in_range(Seq::new(cs@.len(), |j: int| cs@[j]@), n as nat),
        decreases left,
    {
        let ghost before = Seq::new(cs@.len(), |j: int| cs@[j]@);
        if done {
            return Err(ParseError::NotEnoughClauses);
        }
        let sep = find_separator(s, pos, hi);
        if left == 0 {
            if sep == pos {
                assert(before + Seq::<Seq<Literal>>::empty() =~= before);
                return Ok(cs);
            } else {
                return Err(ParseError::TooManyClauses);
            }
        }
        match parse_clause(s, pos, sep, n) {
            Err(err) => {
                return Err(err);
            },
            Ok(c) => {
                let ghost cv = c@;
                cs.push(c);
                let ghost after = Seq::new(cs@.len(), |j: int| cs@[j]@);
                assert(after =~= before.push(cv));
                if sep < hi {
                    pos = sep + 2;
                } else {
                    done = true;
                }
                left = left - 1;
                proof {
                    match parse_clauses(s@, if done { hi as nat + 1 } else { pos as nat }, hi as nat, left as nat, n as nat) {
                        Ok(rest) => {
                            assert(before + (seq![cv] + rest) =~= after + rest);
                        },
                        Err(_) => {},
                    }
                    assert forall|j: int, k: int|
                        0 <= j < after.len() && 0 <= k < after[j].len() implies (#[trigger] after[j][k]).id < n by {
                        if j < before.len() {
                            assert(after[j] == before[j]);
                        }
                    }
                }
            },
        }
    }
}

impl Formula {
    /// Parses a DIMACS CNF text: comment lines starting with `c`, a problem
    /// line `p cnf <variables> <clauses>`, then the clauses, each a list of
    /// nonzero signed variable numbers ended by ` 0`.
    pub fn parse_dimacs(s: &[u8]) -> (r: Result<Formula, ParseError>)
        ensures
            r matches Ok(f) ==> f.wf() && dimacs(s@) == Ok::<(nat, Seq<Seq<Literal>>), ParseFailure>(
                (f.num_vars(), f.clause_seq()),
            ),
            r matches Err(err) ==> dimacs(s@) == Err::<(nat, Seq<Seq<Literal>>), ParseFailure>(err@),
    {
        let ps = match find_problem_line(s) {
            None => {
                return Err(ParseError::MissingProblemLine);
            },
            Some(p) => p,
        };
        let pe = find_line_end(s, ps);
        proof {
            lemma_line_end_bounds(s@, ps as nat);
        }
        let ts = token_spans(s, ps, pe);
        let ghost spec_ts = tokens(s@, ps as nat, pe as nat);
        proof {
            lemma_tokens_in_range(s@, ps as nat, pe as nat);
        }
        if ts.len() != 4 {
            return Err(ParseError::InvalidProblemLine);
        }
        let (a0, b0) = ts[0];
        let (a1, b1) = ts[1];
        let (a2, b2) = ts[2];
        let (a3, b3) = ts[3];
        assert(spec_ts[0] == (a0 as nat, b0 as nat));
        assert(spec_ts[1] == (a1 as nat, b1 as nat));
        assert(spec_ts[2] == (a2 as nat, b2 as nat));
        assert(spec_ts[3] == (a3 as nat, b3 as nat));
        if !(b0 - a0 == 1 && s[a0] == 0x70u8) {
            assert(token_bytes(s@, spec_ts[0]) != seq![0x70u8]) by {
                let tb = token_bytes(s@, spec_ts[0]);
                let want = seq![0x70u8];
                assert(tb.len() == b0 - a0);
                if tb == want {
                    assert(want.len() == 1 && want[0] == 0x70u8);
                    assert(tb[0] == s@[a0 as int]);
                }
            }
            return Err(ParseError::InvalidProblemLine);
        }
        assert(token_bytes(s@, spec_ts[0]) =~= seq![0x70u8]);
        if !(b1 - a1 == 3 && s[a1] == 0x63u8 && s[a1 + 1] == 0x6eu8 && s[a1 + 2] == 0x66u8) {
            assert(token_bytes(s@, spec_ts[1]) != seq![0x63u8, 0x6eu8, 0x66u8]) by {
                let tb = token_bytes(s@, spec_ts[1]);
                let want = seq![0x63u8, 0x6eu8, 0x66u8];
                assert(tb.len() == b1 - a1);
                if tb == want {
                    assert(want.len() == 3 && want[0] == 0x63u8 && want[1] == 0x6eu8 && want[2] == 0x66u8);
                    assert(tb[0] == s@[a1 as int]);
                    assert(tb[1] == s@[a1 + 1]);
                    assert(tb[2] == s@[a1 + 2]);
                }
            }
            return Err(ParseError::UnsupportedFormat);
        }
        assert(token_bytes(s@, spec_ts[1]) =~= seq![0x63u8, 0x6eu8, 0x66u8]);
        let n = match parse_count_at(s, a2, b2) {
            None => {
                return Err(ParseError::InvalidVariableCount);
            },
            Some(v) => v,
        };
        let m = match parse_count_at(s, a3, b3) {
            None => {
                return Err(ParseError::InvalidClauseCount);
            },
            Some(v) => v,
        };
        let lo: usize = if pe < s.len() { pe + 1 } else { pe };
        let hi = trim_end_at(s, lo);
        match parse_clause_list(s, lo, hi, m, n) {
            Err(err) => Err(err),
            Ok(clauses) => Ok(Formula::from_clauses(clauses, n)),
        }
    }
}

/// Every token range of `s[i..e]` lies within it, in order.
proof fn lemma_tokens_in_range(s: Seq<u8>, i: nat, e: nat)
    requires
        i <= e <= s.len(),
    ensures
        forall|k: int|
            0 <= k < tokens(s, i, e).len() ==> i <= (#[trigger] tokens(s, i, e)[k]).0 <= tokens(s, i, e)[k].1 <= e,
    decreases e - i,
{
    let j = skip_space(s, i, e);
    lemma_scan_bounds(s, i, e);
    if j < e {
        lemma_scan_bounds(s, j, e);
        let t = token_end(s, j, e);
        lemma_tokens_in_range(s, t, e);
        assert forall|k: int|
            0 <= k < tokens(s, i, e).len() implies i <= (#[trigger] tokens(s, i, e)[k]).0 <= tokens(s, i, e)[k].1 <= e by {
            if k > 0 {
                assert(tokens(s, i, e)[k] == tokens(s, t, e)[k - 1]);
            }
        }
    }
}

} // verus!
