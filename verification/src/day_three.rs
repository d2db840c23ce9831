//! Schematic scanner: classifies a character grid into digits, symbols and
//! filler, finds numeric runs that touch a symbol, and resolves gear products.

use vstd::prelude::*;

verus! {

/// One classified character of the schematic.
#[derive(Debug, PartialEq, Eq, Clone, Copy)]
pub enum Token {
    Symbol(char),
    Dot,
    NumberDigit(u8),
}

pub type Line = Vec<Token>;

pub type Matrix = Vec<Line>;

/// The fixed set of punctuation characters that count as symbols.
/// Letters, digits, `.` and whitespace are never symbols.
pub open spec fn is_symbol_char(c: char) -> bool {
    c == '+' || c == '-' || c == '*' || c == '/' || c == '=' || c == '>' || c == '<'
        || c == '!' || c == '&' || c == '|' || c == '^' || c == '~' || c == '%' || c == '@'
        || c == '$' || c == '#' || c == '?' || c == ':' || c == ';' || c == ',' || c == '['
        || c == ']' || c == '{' || c == '}' || c == '(' || c == ')' || c == '`' || c == '\''
        || c == '"' || c == '\\'
}

pub open spec fn is_digit_char(c: char) -> bool {
    '0' <= c && c <= '9'
}

/// How the tokenizer classifies a single character: a pure, total function of
/// the character alone.
pub open spec fn classify(c: char) -> Token {
    if is_symbol_char(c) {
        Token::Symbol(c)
    } else if is_digit_char(c) {
        Token::NumberDigit(((c as int) - 48) as u8)
    } else {
        Token::Dot
    }
}

pub fn is_ascii_symbol(c: char) -> (b: bool)
    ensures
        b == is_symbol_char(c),
{
    match c {
        '+' | '-' | '*' | '/' | '=' | '>' | '<' | '!' | '&' | '|' | '^' | '~' | '%' | '@'
            | '$' | '#' | '?' | ':' | ';' | ',' | '[' | ']' | '{' | '}' | '(' | ')' | '`'
            | '\'' | '"' | '\\' => true,
        _ => false,
    }
}

pub fn cathegorize(c: char) -> (t: Token)
    ensures
        t == classify(c),
{
    if is_ascii_symbol(c) {
        Token::Symbol(c)
    } else if c >= '0' && c <= '9' {
        Token::NumberDigit((c as u8) - 48)
    } else {
        Token::Dot
    }
}

/// Tokenizes one input line. Classification never fails, so the result is
/// always `Ok`, one token per character of the line.
pub fn parse(line: &str) -> (r: Result<Line, &str>)
    ensures
        r is Ok,
        r matches Ok(row) && row@ == line@.map_values(|c: char| classify(c)),
{
    let n = line.unicode_len();
    let mut result: Line = Vec::new();
    let mut i: usize = 0;
    while i < n
        invariant
            n == line@.len(),
            i <= n,
            result@ == line@.take(i as int).map_values(|c: char| classify(c)),
        decreases n - i,
    {
        let c = line.get_char(i);
        result.push(cathegorize(c));
        proof {
            assert(line@.take(i + 1).drop_last() =~= line@.take(i as int));
            assert(line@.take(i + 1).map_values(|ch: char| classify(ch)) =~= line@.take(
                i as int,
            ).map_values(|ch: char| classify(ch)).push(classify(line@[i as int])));
        }
        i = i + 1;
    }
    proof {
        assert(line@.take(n as int) =~= line@);
    }
    Ok(result)
}

// ---------------------------------------------------------------------------
// Adjacency: the 3x3 neighborhood of a cell, clipped at the grid edges.
// ---------------------------------------------------------------------------

pub open spec fn token_matches(t: Token, filter: Option<char>) -> bool {
    match t {
        Token::Symbol(c) => match filter {
            None => true,
            Some(f) => c == f,
        },
        _ => false,
    }
}

/// A symbol matching `filter` stands in `row` within one column of `c`.
/// Columns outside the row count as "no cell".
pub open spec fn row_near(row: Seq<Token>, c: int, filter: Option<char>) -> bool {
    exists|j: int| 0 <= j < row.len() && c - 1 <= j <= c + 1 && token_matches(row[j], filter)
}

pub open spec fn opt_row_view(row: Option<&Line>) -> Option<Seq<Token>> {
    match row {
        Some(r) => Some(r@),
        None => None,
    }
}

pub open spec fn opt_row_near(row: Option<Seq<Token>>, c: int, filter: Option<char>) -> bool {
    match row {
        Some(r) => row_near(r, c, filter),
        None => false,
    }
}

/// A symbol matching `filter` stands within Chebyshev distance 1 of column `c`
/// of the middle row, looking at the row above (if any), the row itself, and
/// the row below (if any).
pub open spec fn near_symbol(
    first: Option<Seq<Token>>,
    second: Seq<Token>,
    third: Option<Seq<Token>>,
    c: int,
    filter: Option<char>,
) -> bool {
    opt_row_near(first, c, filter) || row_near(second, c, filter) || opt_row_near(third, c, filter)
}

fn token_matches_exec(t: &Token, filter: Option<char>) -> (b: bool)
    ensures
        b == token_matches(*t, filter),
{
    match t {
        Token::Symbol(c) => match filter {
            None => true,
            Some(f) => *c == f,
        },
        _ => false,
    }
}

/// Whether any cell of `line` is a symbol matching `symbol`.
pub fn has_symbol(line: &Line, symbol: Option<char>) -> (b: bool)
    ensures
        b == exists|i: int| 0 <= i < line@.len() && token_matches(line@[i], symbol),
{
    let mut i: usize = 0;
    while i < line.len()
        invariant
            i <= line@.len(),
            forall|k: int| 0 <= k < i ==> !token_matches(line@[k], symbol),
        decreases line@.len() - i,
    {
        if token_matches_exec(&line[i], symbol) {
            return true;
        }
        i = i + 1;
    }
    false
}

fn row_near_exec(row: &Line, c: usize, filter: Option<char>) -> (b: bool)
    requires
        c < usize::MAX,
    ensures
        b == row_near(row@, c as int, filter),
{
    let lo: usize = if c == 0 {
        0
    } else {
        c - 1
    };
    let mut j = lo;
    while j < row.len() && j <= c + 1
        invariant
            c < usize::MAX,
            lo <= j,
            lo == if c == 0 { 0int } else { c - 1 },
            forall|k: int| lo <= k < j ==> !token_matches(row@[k], filter),
        decreases row@.len() - j,
    {
        if token_matches_exec(&row[j], filter) {
            return true;
        }
        j = j + 1;
    }
    false
}

/// The Adjacency Scanner: whether the 3x3 neighborhood centered on column
/// `index` of the middle row holds a symbol matching `symbol`. The first and
/// last rows have no neighbor above or below; the first and last columns clamp
/// the range instead of wrapping or erroring.
pub fn is_near_symbol(
    first: Option<&Line>,
    second: &Line,
    third: Option<&Line>,
    index: usize,
    symbol: Option<char>,
) -> (b: bool)
    requires
        index < second@.len(),
    ensures
        b == near_symbol(opt_row_view(first), second@, opt_row_view(third), index as int, symbol),
{
    let n = second.len();
    assert(index < n);
    let mut near = false;
    match first {
        Some(f) => {
            if row_near_exec(f, index, symbol) {
                near = true;
            }
        },
        None => {},
    }
    if row_near_exec(second, index, symbol) {
        near = true;
    }
    match third {
        Some(t) => {
            if row_near_exec(t, index, symbol) {
                near = true;
            }
        },
        None => {},
    }
    near
}

// ---------------------------------------------------------------------------
// Numeric runs: maximal contiguous sequences of digit cells within a row.
// ---------------------------------------------------------------------------

pub open spec fn digit_at(row: Seq<Token>, i: int) -> bool {
    0 <= i < row.len() && row[i] is NumberDigit
}

/// The first position at or after `i` that is not a digit cell: where the run
/// through `i` ends.
pub open spec fn run_end(row: Seq<Token>, i: int) -> int
    decreases row.len() - i when 0 <= i <= row.len()
{
    if i >= row.len() || !digit_at(row, i) {
        i
    } else {
        run_end(row, i + 1)
    }
}

/// `s` starts a maximal digit run of `row`.
pub open spec fn is_run_start(row: Seq<Token>, s: int) -> bool {
    digit_at(row, s) && !digit_at(row, s - 1)
}

/// The maximal digit runs of `row` whose start is at or after `i`, in column
/// order, each as the pair (start, end).
pub open spec fn runs_from(row: Seq<Token>, i: int) -> Seq<(int, int)>
    decreases row.len() - i when 0 <= i <= row.len()
{
    if i >= row.len() {
        Seq::empty()
    } else if is_run_start(row, i) {
        seq![(i, run_end(row, i))] + runs_from(row, i + 1)
    } else {
        runs_from(row, i + 1)
    }
}

pub open spec fn runs(row: Seq<Token>) -> Seq<(int, int)> {
    runs_from(row, 0)
}

pub open spec fn digit_val(t: Token) -> int {
    match t {
        Token::NumberDigit(d) => d as int,
        _ => 0,
    }
}

/// The base-10 integer formed by the digit cells of `row` in columns
/// `[s, e)`, most significant digit first.
pub open spec fn run_value(row: Seq<Token>, s: int, e: int) -> int
    decreases e - s when s <= e
{
    if s >= e {
        0
    } else {
        run_value(row, s, e - 1) * 10 + digit_val(row[e - 1])
    }
}

/// Every maximal digit run of `row` has a value that fits in `u32`.
pub open spec fn row_runs_fit(row: Seq<Token>) -> bool {
    forall|s: int|
        0 <= s < row.len() && is_run_start(row, s) ==> run_value(row, s, run_end(row, s))
            <= u32::MAX
}

pub proof fn lemma_run_end(row: Seq<Token>, s: int)
    requires
        0 <= s <= row.len(),
    ensures
        s <= run_end(row, s) <= row.len(),
        forall|j: int| s <= j < run_end(row, s) ==> digit_at(row, j),
        !digit_at(row, run_end(row, s)),
    decreases row.len() - s,
{
    if s < row.len() && digit_at(row, s) {
        lemma_run_end(row, s + 1);
    }
}

pub proof fn lemma_run_end_skip(row: Seq<Token>, s: int, i: int)
    requires
        0 <= s <= i <= row.len(),
        forall|j: int| s <= j < i ==> digit_at(row, j),
    ensures
        run_end(row, s) == run_end(row, i),
    decreases i - s,
{
    if s < i {
        assert(digit_at(row, s));
        lemma_run_end_skip(row, s + 1, i);
    }
}

proof fn lemma_runs_from_skip(row: Seq<Token>, j: int, e: int)
    requires
        1 <= j <= e <= row.len(),
        forall|k: int| j - 1 <= k < e ==> digit_at(row, k),
    ensures
        runs_from(row, j) == runs_from(row, e),
    decreases e - j,
{
    if j < e {
        assert(digit_at(row, j - 1));
        assert(digit_at(row, j));
        assert(!is_run_start(row, j));
        lemma_runs_from_skip(row, j + 1, e);
    }
}

pub proof fn lemma_run_value_nonneg(row: Seq<Token>, s: int, e: int)
    requires
        s <= e,
    ensures
        run_value(row, s, e) >= 0,
    decreases e - s,
{
    if s < e {
        lemma_run_value_nonneg(row, s, e - 1);
    }
}

pub proof fn lemma_run_value_monotone(row: Seq<Token>, s: int, e1: int, e2: int)
    requires
        s <= e1 <= e2,
    ensures
        run_value(row, s, e1) <= run_value(row, s, e2),
    decreases e2 - e1,
{
    if e1 < e2 {
        lemma_run_value_monotone(row, s, e1, e2 - 1);
        lemma_run_value_nonneg(row, s, e2 - 1);
    }
}

// ---------------------------------------------------------------------------
// The Number Extractor: emit each maximal digit run whose value is not zero
// and that touches a matching symbol.
// ---------------------------------------------------------------------------

/// A run touches a matching symbol iff one of its columns does.
pub open spec fn run_adjacent(
    first: Option<Seq<Token>>,
    second: Seq<Token>,
    third: Option<Seq<Token>>,
    s: int,
    e: int,
    filter: Option<char>,
) -> bool {
    exists|c: int| s <= c < e && near_symbol(first, second, third, c, filter)
}

/// A run is emitted iff its value is not zero (zero-valued runs are never
/// emitted) and it is adjacent to a matching symbol.
pub open spec fn run_emitted(
    first: Option<Seq<Token>>,
    second: Seq<Token>,
    third: Option<Seq<Token>>,
    s: int,
    e: int,
    filter: Option<char>,
) -> bool {
    run_value(second, s, e) != 0 && run_adjacent(first, second, third, s, e, filter)
}

/// The columns a run occupies: `s`, `s + 1`, ..., `e - 1`.
pub open spec fn run_cols(s: int, e: int) -> Seq<usize> {
    Seq::new((e - s) as nat, |k: int| (s + k) as usize)
}

pub open spec fn run_pair(row: Seq<Token>, s: int, e: int) -> (u32, Seq<usize>) {
    (run_value(row, s, e) as u32, run_cols(s, e))
}

/// Keeps, of the given runs, those that are emitted, each as its value paired
/// with its occupied columns.
pub open spec fn process_runs(
    first: Option<Seq<Token>>,
    second: Seq<Token>,
    third: Option<Seq<Token>>,
    filter: Option<char>,
    rs: Seq<(int, int)>,
) -> Seq<(u32, Seq<usize>)>
    decreases rs.len(),
{
    if rs.len() == 0 {
        Seq::empty()
    } else {
        let head = if run_emitted(first, second, third, rs[0].0, rs[0].1, filter) {
            seq![run_pair(second, rs[0].0, rs[0].1)]
        } else {
            Seq::<(u32, Seq<usize>)>::empty()
        };
        head + process_runs(first, second, third, filter, rs.skip(1))
    }
}

/// What the Number Extractor returns for the middle row: its emitted runs, in
/// column order, each as (value, occupied columns).
pub open spec fn marked_numbers_spec(
    first: Option<Seq<Token>>,
    second: Seq<Token>,
    third: Option<Seq<Token>>,
    filter: Option<char>,
) -> Seq<(u32, Seq<usize>)> {
    process_runs(first, second, third, filter, runs(second))
}

pub open spec fn pairs_view(s: Seq<(u32, Vec<usize>)>) -> Seq<(u32, Seq<usize>)> {
    s.map_values(|p: (u32, Vec<usize>)| (p.0, p.1@))
}

/// Accumulates one digit into a run value.
pub fn shift_sum(a: u32, b: u8) -> (r: u32)
    requires
        a * 10 + b <= u32::MAX,
    ensures
        r == a * 10 + b,
{
    a * 10 + (b as u32)
}

/// The Number Extractor, total over every row: `None` exactly when some run
/// of the middle row has a value too large for `u32`; otherwise the emitted
/// runs.
pub fn try_get_marked_numbers(
    first: Option<&Line>,
    second: &Line,
    third: Option<&Line>,
    symbol: Option<char>,
) -> (r: Option<Vec<(u32, Vec<usize>)>>)
    ensures
        r is Some <==> row_runs_fit(second@),
        r matches Some(v) ==> pairs_view(v@) == marked_numbers_spec(
            opt_row_view(first),
            second@,
            opt_row_view(third),
            symbol,
        ),
{
    let ghost row = second@;
    let ghost fv = opt_row_view(first);
    let ghost tv = opt_row_view(third);
    let ghost marked = marked_numbers_spec(fv, row, tv, symbol);
    let mut numbers: Vec<(u32, Vec<usize>)> = Vec::new();
    let mut current: u32 = 0;
    let mut near: bool = false;
    let mut range: Vec<usize> = Vec::new();
    let ghost mut s: int = 0;
    let mut i: usize = 0;
    proof {
        assert(pairs_view(numbers@) =~= Seq::<(u32, Seq<usize>)>::empty());
        assert(marked == pairs_view(numbers@) + process_runs(fv, row, tv, symbol, runs_from(row, 0)))
            by {
            assert(pairs_view(numbers@) + process_runs(fv, row, tv, symbol, runs_from(row, 0)) =~= process_runs(
                fv,
                row,
                tv,
                symbol,
                runs_from(row, 0),
            ));
        }
    }
    while i < second.len()
        invariant
            row == second@,
            fv == opt_row_view(first),
            tv == opt_row_view(third),
            marked == marked_numbers_spec(fv, row, tv, symbol),
            i <= row.len(),
            range@.len() > 0 ==> {
                &&& 0 <= s < i
                &&& is_run_start(row, s)
                &&& forall|j: int| s <= j < i ==> digit_at(row, j)
                &&& current as int == run_value(row, s, i as int)
                &&& range@ == run_cols(s, i as int)
                &&& near == run_adjacent(fv, row, tv, s, i as int, symbol)
                &&& marked == pairs_view(numbers@) + process_runs(
                    fv,
                    row,
                    tv,
                    symbol,
                    runs_from(row, s),
                )
            },
            range@.len() == 0 ==> {
                &&& current == 0
                &&& !near
                &&& (i == 0 || !digit_at(row, i - 1))
                &&& marked == pairs_view(numbers@) + process_runs(
                    fv,
                    row,
                    tv,
                    symbol,
                    runs_from(row, i as int),
                )
            },
            forall|t: int|
                0 <= t < i && is_run_start(row, t) && (range@.len() > 0 ==> t != s) ==> run_value(
                    row,
                    t,
                    run_end(row, t),
                ) <= u32::MAX,
        decreases row.len() - i,
    {
        let tok = second[i];
        match tok {
            Token::NumberDigit(d) => {
                if range.len() == 0 {
                    proof {
                        s = i as int;
                    }
                }
                let wide: u64 = (current as u64) * 10 + (d as u64);
                proof {
                    assert(digit_at(row, i as int));
                    assert(is_run_start(row, s));
                    assert(run_value(row, s, i + 1) == run_value(row, s, i as int) * 10
                        + digit_val(row[i as int]));
                    lemma_run_end_skip(row, s, i + 1);
                    lemma_run_end(row, i + 1);
                    assert(run_end(row, s) >= i + 1);
                }
                if wide > u32::MAX as u64 {
                    proof {
                        lemma_run_value_monotone(row, s, i + 1, run_end(row, s));
                        assert(run_value(row, s, run_end(row, s)) > u32::MAX);
                        assert(!row_runs_fit(row));
                    }
                    return None;
                }
                current = shift_sum(current, d);
                range.push(i);
                let nb = is_near_symbol(first, second, third, i, symbol);
                proof {
                    assert(range@ =~= run_cols(s, i + 1));
                    if near || nb {
                        if nb {
                            assert(near_symbol(fv, row, tv, i as int, symbol));
                        }
                        assert(run_adjacent(fv, row, tv, s, i + 1, symbol));
                    } else {
                        assert(!run_adjacent(fv, row, tv, s, i + 1, symbol)) by {
                            assert(forall|c: int|
                                s <= c < i ==> !near_symbol(fv, row, tv, c, symbol));
                        }
                    }
                }
                near = near || nb;
            },
            _ => {
                proof {
                    assert(!digit_at(row, i as int));
                }
                if range.len() > 0 {
                    proof {
                        lemma_run_end_skip(row, s, i as int);
                        assert(run_end(row, i as int) == i as int);
                        assert(run_end(row, s) == i as int);
                        assert(run_value(row, s, run_end(row, s)) <= u32::MAX);
                        assert(runs_from(row, s) == seq![(s, i as int)] + runs_from(row, s + 1));
                        if s + 1 < i {
                            lemma_runs_from_skip(row, s + 1, i as int);
                        }
                        assert(runs_from(row, s + 1) == runs_from(row, i as int));
                        let rs = runs_from(row, s);
                        assert(rs.len() > 0);
                        assert(rs[0] == (s, i as int));
                        assert(rs.skip(1) =~= runs_from(row, i as int));
                        assert(process_runs(fv, row, tv, symbol, rs) == (if run_emitted(
                            fv,
                            row,
                            tv,
                            s,
                            i as int,
                            symbol,
                        ) {
                            seq![run_pair(row, s, i as int)]
                        } else {
                            Seq::<(u32, Seq<usize>)>::empty()
                        }) + process_runs(fv, row, tv, symbol, runs_from(row, i as int)));
                    }
                    if current != 0 && near {
                        let ghost old_numbers = numbers@;
                        proof {
                            lemma_run_value_nonneg(row, s, i as int);
                            assert(run_emitted(fv, row, tv, s, i as int, symbol));
                            assert(run_pair(row, s, i as int) == (current, run_cols(s, i as int)));
                        }
                        numbers.push((current, range));
                        range = Vec::new();
                        proof {
                            assert(pairs_view(numbers@) =~= pairs_view(old_numbers).push(
                                (current, run_cols(s, i as int)),
                            ));
                            assert(pairs_view(old_numbers) + process_runs(
                                fv,
                                row,
                                tv,
                                symbol,
                                runs_from(row, s),
                            ) =~= pairs_view(numbers@) + process_runs(
                                fv,
                                row,
                                tv,
                                symbol,
                                runs_from(row, i as int),
                            ));
                        }
                    } else {
                        proof {
                            assert(!run_emitted(fv, row, tv, s, i as int, symbol));
                            assert(pairs_view(numbers@) + process_runs(
                                fv,
                                row,
                                tv,
                                symbol,
                                runs_from(row, s),
                            ) =~= pairs_view(numbers@) + process_runs(
                                fv,
                                row,
                                tv,
                                symbol,
                                runs_from(row, i as int),
                            ));
                        }
                        range = Vec::new();
                    }
                    current = 0;
                    near = false;
                }
                proof {
                    assert(runs_from(row, i as int) == runs_from(row, i + 1));
                }
            },
        }
        i = i + 1;
    }
    // End of row: close a run still open.
    if range.len() > 0 {
        proof {
            lemma_run_end_skip(row, s, i as int);
            assert(run_end(row, i as int) == i as int);
            assert(run_end(row, s) == i as int);
            assert(run_value(row, s, run_end(row, s)) <= u32::MAX);
            assert(runs_from(row, s) == seq![(s, i as int)] + runs_from(row, s + 1));
            if s + 1 < i {
                lemma_runs_from_skip(row, s + 1, i as int);
            }
            assert(runs_from(row, s + 1) == runs_from(row, i as int));
            let rs = runs_from(row, s);
            assert(rs.len() > 0);
            assert(rs[0] == (s, i as int));
            assert(rs.skip(1) =~= runs_from(row, i as int));
            assert(runs_from(row, i as int) =~= Seq::<(int, int)>::empty());
            assert(process_runs(fv, row, tv, symbol, runs_from(row, i as int)) == Seq::<(
                u32,
                Seq<usize>,
            )>::empty());
            assert(process_runs(fv, row, tv, symbol, rs) == (if run_emitted(
                fv,
                row,
                tv,
                s,
                i as int,
                symbol,
            ) {
                seq![run_pair(row, s, i as int)]
            } else {
                Seq::<(u32, Seq<usize>)>::empty()
            }) + Seq::<(u32, Seq<usize>)>::empty());
        }
        if current != 0 && near {
            let ghost old_numbers = numbers@;
            proof {
                lemma_run_value_nonneg(row, s, i as int);
                assert(run_emitted(fv, row, tv, s, i as int, symbol));
                assert(run_pair(row, s, i as int) == (current, run_cols(s, i as int)));
            }
            numbers.push((current, range));
            proof {
                assert(pairs_view(numbers@) =~= pairs_view(old_numbers).push(
                    (current, run_cols(s, i as int)),
                ));
                assert(marked =~= pairs_view(numbers@));
            }
        } else {
            proof {
                assert(!run_emitted(fv, row, tv, s, i as int, symbol));
                assert(marked =~= pairs_view(numbers@));
            }
        }
    } else {
        proof {
            assert(runs_from(row, i as int) =~= Seq::<(int, int)>::empty());
            assert(process_runs(fv, row, tv, symbol, runs_from(row, i as int)) == Seq::<(
                u32,
                Seq<usize>,
            )>::empty());
            assert(marked =~= pairs_view(numbers@));
        }
    }
    proof {
        assert(row_runs_fit(row)) by {
            assert(forall|t: int|
                0 <= t < row.len() && is_run_start(row, t) ==> run_value(row, t, run_end(row, t))
                    <= u32::MAX);
        }
    }
    Some(numbers)
}

/// The Number Extractor for one row; every run value of the middle row must
/// fit in `u32`.
pub fn get_marked_numbers(
    first: Option<&Line>,
    second: &Line,
    third: Option<&Line>,
    symbol: Option<char>,
) -> (r: Vec<(u32, Vec<usize>)>)
    requires
        row_runs_fit(second@),
    ensures
        pairs_view(r@) == marked_numbers_spec(
            opt_row_view(first),
            second@,
            opt_row_view(third),
            symbol,
        ),
{
    try_get_marked_numbers(first, second, third, symbol).unwrap()
}

// ---------------------------------------------------------------------------
// The whole grid: marked numbers of every row.
// ---------------------------------------------------------------------------

pub open spec fn grid_view(m: Seq<Line>) -> Seq<Seq<Token>> {
    m.map_values(|r: Line| r@)
}

/// The row above row `i`, if any.
pub open spec fn ctx_first(grid: Seq<Seq<Token>>, i: int) -> Option<Seq<Token>> {
    if i <= 0 {
        None
    } else {
        Some(grid[i - 1])
    }
}

/// The row below row `i`, if any.
pub open spec fn ctx_third(grid: Seq<Seq<Token>>, i: int) -> Option<Seq<Token>> {
    if i + 1 >= grid.len() {
        None
    } else {
        Some(grid[i + 1])
    }
}

pub open spec fn row_marked(grid: Seq<Seq<Token>>, i: int, filter: Option<char>) -> Seq<
    (u32, Seq<usize>),
> {
    marked_numbers_spec(ctx_first(grid, i), grid[i], ctx_third(grid, i), filter)
}

pub open spec fn values_of(ps: Seq<(u32, Seq<usize>)>) -> Seq<u32> {
    ps.map_values(|p: (u32, Seq<usize>)| p.0)
}

pub open spec fn marked_values_upto(grid: Seq<Seq<Token>>, filter: Option<char>, n: int) -> Seq<
    u32,
>
    decreases n,
{
    if n <= 0 {
        Seq::empty()
    } else {
        marked_values_upto(grid, filter, n - 1) + values_of(row_marked(grid, n - 1, filter))
    }
}

/// The values of the marked numbers of the whole grid, row by row.
pub open spec fn grid_marked_values(grid: Seq<Seq<Token>>, filter: Option<char>) -> Seq<u32> {
    marked_values_upto(grid, filter, grid.len() as int)
}

pub open spec fn grid_runs_fit(grid: Seq<Seq<Token>>) -> bool {
    forall|r: int| 0 <= r < grid.len() ==> row_runs_fit(grid[r])
}

fn values_of_pairs(pairs: &Vec<(u32, Vec<usize>)>) -> (v: Vec<u32>)
    ensures
        v@ == values_of(pairs_view(pairs@)),
{
    let mut v: Vec<u32> = Vec::new();
    let mut k: usize = 0;
    while k < pairs.len()
        invariant
            k <= pairs@.len(),
            v@ == values_of(pairs_view(pairs@.take(k as int))),
        decreases pairs@.len() - k,
    {
        v.push(pairs[k].0);
        proof {
            assert(values_of(pairs_view(pairs@.take(k + 1))) =~= values_of(
                pairs_view(pairs@.take(k as int)),
            ).push(pairs@[k as int].0));
        }
        k = k + 1;
    }
    proof {
        assert(pairs@.take(pairs@.len() as int) =~= pairs@);
    }
    v
}

/// The marked-number values of every row of the grid, in row order: `None`
/// exactly when some run of the grid has a value too large for `u32`.
pub fn try_process_marked_numbers(matrix: &Matrix) -> (r: Option<Vec<u32>>)
    ensures
        r is Some <==> grid_runs_fit(grid_view(matrix@)),
        r matches Some(v) ==> v@ == grid_marked_values(grid_view(matrix@), None),
{
    let ghost grid = grid_view(matrix@);
    let mut out: Vec<u32> = Vec::new();
    let n = matrix.len();
    let mut i: usize = 0;
    while i < n
        invariant
            grid == grid_view(matrix@),
            n == matrix@.len(),
            i <= n,
            out@ == marked_values_upto(grid, None, i as int),
            forall|t: int| 0 <= t < i ==> row_runs_fit(grid[t]),
        decreases n - i,
    {
        let first: Option<&Line> = if i == 0 {
            None
        } else {
            Some(&matrix[i - 1])
        };
        let third: Option<&Line> = if i + 1 == n {
            None
        } else {
            Some(&matrix[i + 1])
        };
        proof {
            assert(grid[i as int] == matrix@[i as int]@);
            assert(opt_row_view(first) == ctx_first(grid, i as int));
            assert(opt_row_view(third) == ctx_third(grid, i as int));
        }
        match try_get_marked_numbers(first, &matrix[i], third, None) {
            Some(pairs) => {
                let mut vals = values_of_pairs(&pairs);
                out.append(&mut vals);
            },
            None => {
                proof {
                    assert(!row_runs_fit(grid[i as int]));
                }
                return None;
            },
        }
        i = i + 1;
    }
    Some(out)
}

/// The Number Extractor over the whole grid, in marked-number mode; every run
/// value must fit in `u32`.
pub fn process_marked_numbers(matrix: &Matrix) -> (r: Vec<u32>)
    requires
        grid_runs_fit(grid_view(matrix@)),
    ensures
        r@ == grid_marked_values(grid_view(matrix@), None),
{
    try_process_marked_numbers(matrix).unwrap()
}

// ---------------------------------------------------------------------------
// The Gear Resolver: a `*` adjacent to exactly two numeric runs yields the
// product of the two.
// ---------------------------------------------------------------------------

/// The gear character.
pub open spec fn is_gear_token(t: Token) -> bool {
    t == Token::Symbol('*')
}

/// A number's occupied columns intersect `{c - 1, c, c + 1}`: the number is
/// within reach of a symbol at column `c`.
pub open spec fn touches(cols: Seq<usize>, c: int) -> bool {
    exists|k: int| 0 <= k < cols.len() && c - 1 <= #[trigger] cols[k] <= c + 1
}

/// The numbers, in order, whose columns touch column `c`.
pub open spec fn matching_numbers(nums: Seq<(u32, Seq<usize>)>, c: int) -> Seq<(u32, Seq<usize>)>
    decreases nums.len(),
{
    if nums.len() == 0 {
        Seq::empty()
    } else {
        let pre = matching_numbers(nums.drop_last(), c);
        if touches(nums.last().1, c) {
            pre.push(nums.last())
        } else {
            pre
        }
    }
}

/// Column `c` holds a gear: a `*` with exactly two adjacent numbers.
pub open spec fn gear_at(line: Seq<Token>, nums: Seq<(u32, Seq<usize>)>, c: int) -> bool {
    is_gear_token(line[c]) && matching_numbers(nums, c).len() == 2
}

/// The product of the exactly two numbers adjacent to a gear.
pub open spec fn gear_product(nums: Seq<(u32, Seq<usize>)>, c: int) -> int {
    matching_numbers(nums, c)[0].0 * matching_numbers(nums, c)[1].0
}

pub open spec fn gears_upto(line: Seq<Token>, nums: Seq<(u32, Seq<usize>)>, n: int) -> Seq<u32>
    decreases n,
{
    if n <= 0 {
        Seq::empty()
    } else {
        let pre = gears_upto(line, nums, n - 1);
        if gear_at(line, nums, n - 1) {
            pre.push(gear_product(nums, n - 1) as u32)
        } else {
            pre
        }
    }
}

/// What the Gear Resolver returns for one row: the products of its gears, in
/// column order.
pub open spec fn gears_spec(line: Seq<Token>, nums: Seq<(u32, Seq<usize>)>) -> Seq<u32> {
    gears_upto(line, nums, line.len() as int)
}

pub open spec fn gear_products_fit(line: Seq<Token>, nums: Seq<(u32, Seq<usize>)>) -> bool {
    forall|c: int|
        0 <= c < line.len() && gear_at(line, nums, c) ==> gear_product(nums, c) <= u32::MAX
}

fn touches_exec(cols: &Vec<usize>, c: usize) -> (b: bool)
    requires
        c < usize::MAX,
    ensures
        b == touches(cols@, c as int),
{
    let mut k: usize = 0;
    while k < cols.len()
        invariant
            c < usize::MAX,
            k <= cols@.len(),
            forall|t: int| 0 <= t < k ==> !(c - 1 <= #[trigger] cols@[t] <= c + 1),
        decreases cols@.len() - k,
    {
        let col = cols[k];
        let lo_ok = if c == 0 {
            true
        } else {
            col >= c - 1
        };
        if lo_ok && col <= c + 1 {
            return true;
        }
        k = k + 1;
    }
    false
}

/// The Gear Resolver for one row, total: `None` exactly when some gear's
/// product is too large for `u32`; otherwise the gear products in column
/// order.
pub fn try_get_gears(line: &Line, numbers: &Vec<(u32, Vec<usize>)>) -> (r: Option<Vec<u32>>)
    ensures
        r is Some <==> gear_products_fit(line@, pairs_view(numbers@)),
        r matches Some(v) ==> v@ == gears_spec(line@, pairs_view(numbers@)),
{
    let ghost nums = pairs_view(numbers@);
    let mut gears: Vec<u32> = Vec::new();
    let n = line.len();
    let mut c: usize = 0;
    while c < n
        invariant
            nums == pairs_view(numbers@),
            n == line@.len(),
            c <= n,
            gears@ == gears_upto(line@, nums, c as int),
            forall|x: int|
                0 <= x < c && gear_at(line@, nums, x) ==> gear_product(nums, x) <= u32::MAX,
        decreases n - c,
    {
        let tok = line[c];
        let is_star = match tok {
            Token::Symbol(ch) => ch == '*',
            _ => false,
        };
        proof {
            assert(is_star == is_gear_token(line@[c as int]));
        }
        if is_star {
            let mut count: usize = 0;
            let mut v0: u32 = 0;
            let mut v1: u32 = 0;
            let mut k: usize = 0;
            while k < numbers.len()
                invariant
                    nums == pairs_view(numbers@),
                    c < n == line@.len(),
                    k <= numbers@.len(),
                    count <= k,
                    count == matching_numbers(nums.take(k as int), c as int).len(),
                    count >= 1 ==> v0 == matching_numbers(nums.take(k as int), c as int)[0].0,
                    count >= 2 ==> v1 == matching_numbers(nums.take(k as int), c as int)[1].0,
                decreases numbers@.len() - k,
            {
                let touched = touches_exec(&numbers[k].1, c);
                proof {
                    assert(nums.take(k + 1).drop_last() =~= nums.take(k as int));
                    assert(nums.take(k + 1).last() == nums[k as int]);
                    assert(nums[k as int].1 == numbers@[k as int].1@);
                }
                if touched {
                    if count == 0 {
                        v0 = numbers[k].0;
                    } else if count == 1 {
                        v1 = numbers[k].0;
                    }
                    count = count + 1;
                }
                k = k + 1;
            }
            proof {
                assert(nums.take(numbers@.len() as int) =~= nums);
            }
            if count == 2 {
                proof {
                    assert((v0 as int) * (v1 as int) <= (u32::MAX as int) * (u32::MAX as int))
                        by (nonlinear_arith)
                        requires
                            0 <= v0 as int <= u32::MAX as int,
                            0 <= v1 as int <= u32::MAX as int,
                    ;
                }
                let prod_wide: u64 = (v0 as u64) * (v1 as u64);
                if prod_wide > u32::MAX as u64 {
                    proof {
                        assert(gear_at(line@, nums, c as int));
                        assert(gear_product(nums, c as int) > u32::MAX);
                        assert(!gear_products_fit(line@, nums));
                    }
                    return None;
                }
                let prod: u32 = prod_wide as u32;
                gears.push(prod);
                proof {
                    assert(prod == gear_product(nums, c as int));
                    assert(gears@ == gears_upto(line@, nums, c + 1));
                }
            } else {
                proof {
                    assert(!gear_at(line@, nums, c as int));
                    assert(gears@ == gears_upto(line@, nums, c + 1));
                }
            }
        } else {
            proof {
                assert(!gear_at(line@, nums, c as int));
                assert(gears@ == gears_upto(line@, nums, c + 1));
            }
        }
        c = c + 1;
    }
    Some(gears)
}

/// The Gear Resolver for one row; every gear product must fit in `u32`.
pub fn get_gears(line: &Line, numbers: Vec<(u32, Vec<usize>)>) -> (r: Vec<u32>)
    requires
        gear_products_fit(line@, pairs_view(numbers@)),
    ensures
        r@ == gears_spec(line@, pairs_view(numbers@)),
{
    try_get_gears(line, &numbers).unwrap()
}

// ---------------------------------------------------------------------------
// Gears over the whole grid.
// ---------------------------------------------------------------------------

/// The candidate numbers for the gears of row `i`: the `*`-marked numbers of
/// the row itself and of its two neighbor rows. A number of a neighbor row
/// that is adjacent to a gear of row `i` is always `*`-marked within the
/// context used here, so no candidate is lost.
pub open spec fn gear_row_numbers(grid: Seq<Seq<Token>>, i: int) -> Seq<(u32, Seq<usize>)> {
    row_marked(grid, i, Some('*')) + (if i > 0 {
        marked_numbers_spec(None, grid[i - 1], Some(grid[i]), Some('*'))
    } else {
        Seq::empty()
    }) + (if i + 1 < grid.len() {
        marked_numbers_spec(Some(grid[i]), grid[i + 1], None, Some('*'))
    } else {
        Seq::empty()
    })
}

pub open spec fn gear_values_upto(grid: Seq<Seq<Token>>, n: int) -> Seq<u32>
    decreases n,
{
    if n <= 0 {
        Seq::empty()
    } else {
        gear_values_upto(grid, n - 1) + gears_spec(grid[n - 1], gear_row_numbers(grid, n - 1))
    }
}

/// The gear products of the whole grid, row by row, in column order within
/// each row.
pub open spec fn grid_gear_values(grid: Seq<Seq<Token>>) -> Seq<u32> {
    gear_values_upto(grid, grid.len() as int)
}

pub open spec fn grid_gears_fit(grid: Seq<Seq<Token>>) -> bool {
    forall|i: int|
        0 <= i < grid.len() ==> gear_products_fit(grid[i], gear_row_numbers(grid, i))
}

/// The Gear Resolver over the whole grid, total: `None` exactly when some run
/// value or some gear product of the grid is too large for `u32`.
pub fn try_process_symbols(matrix: &Matrix) -> (r: Option<Vec<u32>>)
    ensures
        r is Some <==> (grid_runs_fit(grid_view(matrix@)) && grid_gears_fit(grid_view(matrix@))),
        r matches Some(v) ==> v@ == grid_gear_values(grid_view(matrix@)),
{
    let ghost grid = grid_view(matrix@);
    let mut gears: Vec<u32> = Vec::new();
    let n = matrix.len();
    let mut i: usize = 0;
    while i < n
        invariant
            grid == grid_view(matrix@),
            n == matrix@.len(),
            i <= n,
            gears@ == gear_values_upto(grid, i as int),
            forall|t: int| 0 <= t < i ==> row_runs_fit(grid[t]),
            forall|t: int|
                0 <= t < i ==> gear_products_fit(grid[t], gear_row_numbers(grid, t)),
        decreases n - i,
    {
        let first: Option<&Line> = if i == 0 {
            None
        } else {
            Some(&matrix[i - 1])
        };
        let third: Option<&Line> = if i + 1 == n {
            None
        } else {
            Some(&matrix[i + 1])
        };
        proof {
            assert(grid[i as int] == matrix@[i as int]@);
            assert(opt_row_view(first) == ctx_first(grid, i as int));
            assert(opt_row_view(third) == ctx_third(grid, i as int));
        }
        let mut numbers = match try_get_marked_numbers(first, &matrix[i], third, Some('*')) {
            Some(v) => v,
            None => {
                proof {
                    assert(!row_runs_fit(grid[i as int]));
                }
                return None;
            },
        };
        if i > 0 {
            proof {
                assert(grid[i - 1] == matrix@[i - 1]@);
            }
            let mut above = match try_get_marked_numbers(
                None,
                &matrix[i - 1],
                Some(&matrix[i]),
                Some('*'),
            ) {
                Some(v) => v,
                None => {
                    proof {
                        assert(!row_runs_fit(grid[i - 1]));
                    }
                    return None;
                },
            };
            numbers.append(&mut above);
        }
        if i + 1 < n {
            proof {
                assert(grid[i + 1] == matrix@[i + 1]@);
            }
            let mut below = match try_get_marked_numbers(
                Some(&matrix[i]),
                &matrix[i + 1],
                None,
                Some('*'),
            ) {
                Some(v) => v,
                None => {
                    proof {
                        assert(!row_runs_fit(grid[i + 1]));
                    }
                    return None;
                },
            };
            numbers.append(&mut below);
        }
        proof {
            assert(pairs_view(numbers@) =~= gear_row_numbers(grid, i as int));
        }
        let mut row_gears = match try_get_gears(&matrix[i], &numbers) {
            Some(v) => v,
            None => {
                proof {
                    assert(!gear_products_fit(grid[i as int], gear_row_numbers(grid, i as int)));
                }
                return None;
            },
        };
        gears.append(&mut row_gears);
        i = i + 1;
    }
    Some(gears)
}

/// The Gear Resolver over the whole grid; every run value and every gear
/// product must fit in `u32`.
pub fn process_symbols(matrix: &Matrix) -> (r: Vec<u32>)
    requires
        grid_runs_fit(grid_view(matrix@)),
        grid_gears_fit(grid_view(matrix@)),
    ensures
        r@ == grid_gear_values(grid_view(matrix@)),
{
    try_process_symbols(matrix).unwrap()
}

// ---------------------------------------------------------------------------
// Laws.
// ---------------------------------------------------------------------------

/// The tokenizer assigns each character exactly one of digit, symbol and
/// filler, and the classification depends on the character alone.
pub proof fn lemma_classification_exclusive(c: char)
    ensures
        classify(c) is NumberDigit <==> is_digit_char(c),
        classify(c) is Symbol <==> is_symbol_char(c),
        classify(c) is Dot <==> (!is_digit_char(c) && !is_symbol_char(c)),
{
}

/// `p` is a well-formed run entry of `row`: its start begins a maximal digit
/// run and its end is where that run stops.
pub open spec fn run_entry_ok(row: Seq<Token>, p: (int, int)) -> bool {
    is_run_start(row, p.0) && p.1 == run_end(row, p.0)
}

/// `p` is the value/columns pair of some maximal digit run of the middle row
/// whose base-10 value is not zero and that touches a matching symbol.
pub open spec fn emitted_pair_ok(
    first: Option<Seq<Token>>,
    second: Seq<Token>,
    third: Option<Seq<Token>>,
    filter: Option<char>,
    p: (u32, Seq<usize>),
) -> bool {
    exists|s: int|
        #[trigger] is_run_start(second, s) && p == run_pair(second, s, run_end(second, s))
            && run_value(second, s, run_end(second, s)) != 0 && run_adjacent(
            first,
            second,
            third,
            s,
            run_end(second, s),
            filter,
        )
}

proof fn lemma_runs_from_elements(row: Seq<Token>, i: int)
    requires
        0 <= i <= row.len(),
    ensures
        forall|k: int|
            0 <= k < runs_from(row, i).len() ==> run_entry_ok(row, #[trigger] runs_from(row, i)[k]),
    decreases row.len() - i,
{
    if i < row.len() {
        lemma_runs_from_elements(row, i + 1);
        let rs = runs_from(row, i);
        let tail = runs_from(row, i + 1);
        if is_run_start(row, i) {
            assert(rs == seq![(i, run_end(row, i))] + tail);
            assert forall|k: int| 0 <= k < rs.len() implies run_entry_ok(
                row,
                #[trigger] rs[k],
            ) by {
                if k == 0 {
                    assert(rs[0] == (i, run_end(row, i)));
                    assert(run_entry_ok(row, (i, run_end(row, i))));
                } else {
                    assert(rs[k] == tail[k - 1]);
                    assert(run_entry_ok(row, tail[k - 1]));
                }
            }
        } else {
            assert(rs == tail);
            assert forall|k: int| 0 <= k < rs.len() implies run_entry_ok(
                row,
                #[trigger] rs[k],
            ) by {
                assert(rs[k] == tail[k]);
                assert(run_entry_ok(row, tail[k]));
            }
        }
    } else {
        assert(runs_from(row, i).len() == 0);
    }
}

proof fn lemma_process_runs_ok(
    first: Option<Seq<Token>>,
    second: Seq<Token>,
    third: Option<Seq<Token>>,
    filter: Option<char>,
    rs: Seq<(int, int)>,
)
    requires
        forall|k: int| 0 <= k < rs.len() ==> run_entry_ok(second, #[trigger] rs[k]),
    ensures
        forall|k: int|
            0 <= k < process_runs(first, second, third, filter, rs).len() ==> emitted_pair_ok(
                first,
                second,
                third,
                filter,
                #[trigger] process_runs(first, second, third, filter, rs)[k],
            ),
    decreases rs.len(),
{
    if rs.len() > 0 {
        assert forall|k: int| 0 <= k < rs.skip(1).len() implies run_entry_ok(
            second,
            #[trigger] rs.skip(1)[k],
        ) by {
            assert(rs.skip(1)[k] == rs[k + 1]);
        }
        lemma_process_runs_ok(first, second, third, filter, rs.skip(1));
        let out = process_runs(first, second, third, filter, rs);
        let tail = process_runs(first, second, third, filter, rs.skip(1));
        let head_len: int = if run_emitted(first, second, third, rs[0].0, rs[0].1, filter) {
            1
        } else {
            0
        };
        assert forall|k: int| 0 <= k < out.len() implies emitted_pair_ok(
            first,
            second,
            third,
            filter,
            #[trigger] out[k],
        ) by {
            if k < head_len {
                assert(run_emitted(first, second, third, rs[0].0, rs[0].1, filter));
                assert(out[k] == run_pair(second, rs[0].0, rs[0].1));
                assert(run_entry_ok(second, rs[0]));
                let s = rs[0].0;
                assert(is_run_start(second, s) && out[k] == run_pair(second, s, run_end(second, s))
                    && run_value(second, s, run_end(second, s)) != 0 && run_adjacent(
                    first,
                    second,
                    third,
                    s,
                    run_end(second, s),
                    filter,
                ));
                assert(emitted_pair_ok(first, second, third, filter, out[k]));
            } else {
                assert(out[k] == tail[k - head_len]);
                assert(emitted_pair_ok(first, second, third, filter, tail[k - head_len]));
            }
        }
    }
}

/// Every pair the Number Extractor emits is a maximal digit run of the row:
/// its value is the base-10 integer formed by that run's digits, its columns
/// are the run's columns, the value is never zero, and the run touches a
/// matching symbol.
pub proof fn lemma_emitted_are_runs(
    first: Option<Seq<Token>>,
    second: Seq<Token>,
    third: Option<Seq<Token>>,
    filter: Option<char>,
)
    ensures
        forall|k: int|
            0 <= k < marked_numbers_spec(first, second, third, filter).len() ==> emitted_pair_ok(
                first,
                second,
                third,
                filter,
                #[trigger] marked_numbers_spec(first, second, third, filter)[k],
            ),
{
    lemma_runs_from_elements(second, 0);
    lemma_process_runs_ok(first, second, third, filter, runs(second));
    let out = marked_numbers_spec(first, second, third, filter);
    assert forall|k: int| 0 <= k < out.len() implies emitted_pair_ok(
        first,
        second,
        third,
        filter,
        #[trigger] out[k],
    ) by {
        assert(out[k] == process_runs(first, second, third, filter, runs(second))[k]);
    }
}

/// The three-row adjacency check is exactly the Chebyshev-distance-1 rule: a
/// matching symbol at `(rr, cc)` makes column `c` of row `r` adjacent iff both
/// `rr` and `cc` are within distance 1 of `r` and `c`, and no farther symbol
/// does.
pub proof fn lemma_adjacency_chebyshev(grid: Seq<Seq<Token>>, r: int, c: int, filter: Option<char>)
    requires
        0 <= r < grid.len(),
    ensures
        near_symbol(ctx_first(grid, r), grid[r], ctx_third(grid, r), c, filter) <==> exists|
            rr: int,
            cc: int,
        |
            0 <= rr < grid.len() && -1 <= rr - r <= 1 && 0 <= cc < grid[rr].len() && -1 <= cc - c
                <= 1 && token_matches(#[trigger] grid[rr][cc], filter),
{
    let first = ctx_first(grid, r);
    let third = ctx_third(grid, r);
    if near_symbol(first, grid[r], third, c, filter) {
        if opt_row_near(first, c, filter) {
            let j = choose|j: int|
                0 <= j < grid[r - 1].len() && c - 1 <= j <= c + 1 && token_matches(
                    #[trigger] grid[r - 1][j],
                    filter,
                );
            assert(0 <= r - 1 < grid.len() && -1 <= (r - 1) - r <= 1 && 0 <= j < grid[r - 1].len()
                && -1 <= j - c <= 1 && token_matches(grid[r - 1][j], filter));
        } else if row_near(grid[r], c, filter) {
            let j = choose|j: int|
                0 <= j < grid[r].len() && c - 1 <= j <= c + 1 && token_matches(
                    #[trigger] grid[r][j],
                    filter,
                );
            assert(0 <= r < grid.len() && -1 <= r - r <= 1 && 0 <= j < grid[r].len() && -1 <= j - c
                <= 1 && token_matches(grid[r][j], filter));
        } else {
            let j = choose|j: int|
                0 <= j < grid[r + 1].len() && c - 1 <= j <= c + 1 && token_matches(
                    #[trigger] grid[r + 1][j],
                    filter,
                );
            assert(0 <= r + 1 < grid.len() && -1 <= (r + 1) - r <= 1 && 0 <= j < grid[r
                + 1].len() && -1 <= j - c <= 1 && token_matches(grid[r + 1][j], filter));
        }
    }
    if exists|rr: int, cc: int|
        0 <= rr < grid.len() && -1 <= rr - r <= 1 && 0 <= cc < grid[rr].len() && -1 <= cc - c <= 1
            && token_matches(#[trigger] grid[rr][cc], filter) {
        let (rr, cc) = choose|rr: int, cc: int|
            0 <= rr < grid.len() && -1 <= rr - r <= 1 && 0 <= cc < grid[rr].len() && -1 <= cc - c
                <= 1 && token_matches(#[trigger] grid[rr][cc], filter);
        if rr == r - 1 {
            assert(row_near(grid[r - 1], c, filter));
        } else if rr == r {
            assert(row_near(grid[r], c, filter));
        } else {
            assert(rr == r + 1);
            assert(row_near(grid[r + 1], c, filter));
        }
    }
}

/// The Gear Resolver emits, at each column, one product exactly when the
/// column holds a `*` with exactly two adjacent numbers, and their product;
/// a `*` with 0, 1 or 3 or more adjacent numbers contributes nothing.
pub proof fn lemma_gear_emission(line: Seq<Token>, nums: Seq<(u32, Seq<usize>)>, c: int)
    requires
        0 <= c < line.len(),
    ensures
        gear_at(line, nums, c) <==> (line[c] == Token::Symbol('*') && matching_numbers(
            nums,
            c,
        ).len() == 2),
        gears_upto(line, nums, c + 1) == if gear_at(line, nums, c) {
            gears_upto(line, nums, c).push(gear_product(nums, c) as u32)
        } else {
            gears_upto(line, nums, c)
        },
{
}

} // verus!
