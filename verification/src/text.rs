//! Character-level text helpers shared by the per-day parsers: splitting on a
//! delimiter, whitespace tokenization, trimming, and decimal parsing.

use vstd::prelude::*;

verus! {

pub open spec fn is_space_char(c: char) -> bool {
    c == ' ' || c == '\t' || c == '\n' || c == '\r'
}

pub open spec fn vecs_view(s: Seq<Vec<char>>) -> Seq<Seq<char>> {
    s.map_values(|v: Vec<char>| v@)
}

/// The pieces of `s` between occurrences of `d`, in order; an empty input is
/// one empty piece, and every delimiter closes a piece.
pub open spec fn split_on(s: Seq<char>, d: char) -> Seq<Seq<char>>
    decreases s.len(),
{
    if s.len() == 0 {
        seq![Seq::<char>::empty()]
    } else {
        let pre = split_on(s.drop_last(), d);
        let c = s.last();
        if c == d {
            pre.push(Seq::<char>::empty())
        } else {
            pre.update(pre.len() - 1, pre.last().push(c))
        }
    }
}

/// The maximal whitespace-free tokens of `s`, in order, empty tokens left out.
pub open spec fn ws_tokens(s: Seq<char>) -> Seq<Seq<char>>
    decreases s.len(),
{
    if s.len() == 0 {
        Seq::empty()
    } else {
        let pre = ws_tokens(s.drop_last());
        let c = s.last();
        if is_space_char(c) {
            pre
        } else if s.len() >= 2 && !is_space_char(s[s.len() - 2]) {
            pre.update(pre.len() - 1, pre.last().push(c))
        } else {
            pre.push(seq![c])
        }
    }
}

pub open spec fn is_digit_char(c: char) -> bool {
    '0' <= c && c <= '9'
}

/// The base-10 value of a digit string, most significant digit first.
pub open spec fn dec_val(s: Seq<char>) -> int
    decreases s.len(),
{
    if s.len() == 0 {
        0
    } else {
        dec_val(s.drop_last()) * 10 + (s.last() as int - 48)
    }
}

pub open spec fn all_digits(s: Seq<char>) -> bool {
    forall|k: int| 0 <= k < s.len() ==> is_digit_char(#[trigger] s[k])
}

/// The token is a plain decimal numeral whose value fits in `u32`.
pub open spec fn parses_as_u32(s: Seq<char>) -> bool {
    s.len() > 0 && all_digits(s) && dec_val(s) <= u32::MAX
}

pub proof fn lemma_dec_val_nonneg(s: Seq<char>, k: int)
    requires
        0 <= k <= s.len(),
        forall|t: int| 0 <= t < k ==> is_digit_char(#[trigger] s[t]),
    ensures
        dec_val(s.take(k)) >= 0,
    decreases k,
{
    if k > 0 {
        lemma_dec_val_nonneg(s, k - 1);
        assert(s.take(k).drop_last() =~= s.take(k - 1));
        assert(s.take(k).last() == s[k - 1]);
    }
}

/// On an all-digit string, the value of any prefix is at most the value of
/// the whole.
pub proof fn lemma_dec_val_prefix(s: Seq<char>, k: int)
    requires
        0 <= k <= s.len(),
        all_digits(s),
    ensures
        dec_val(s.take(k)) <= dec_val(s),
    decreases s.len() - k,
{
    if k == s.len() {
        assert(s.take(k) =~= s);
    } else {
        lemma_dec_val_prefix(s, k + 1);
        lemma_dec_val_nonneg(s, k);
        assert(s.take(k + 1).drop_last() =~= s.take(k));
        assert(s.take(k + 1).last() == s[k]);
        assert(dec_val(s.take(k + 1)) == dec_val(s.take(k)) * 10 + (s[k] as int - 48));
    }
}

/// Leading and trailing whitespace dropped.
pub open spec fn trim_end_spec(s: Seq<char>) -> Seq<char>
    decreases s.len(),
{
    if s.len() > 0 && is_space_char(s.last()) {
        trim_end_spec(s.drop_last())
    } else {
        s
    }
}

pub open spec fn trim_start_spec(s: Seq<char>) -> Seq<char>
    decreases s.len(),
{
    if s.len() > 0 && is_space_char(s[0]) {
        trim_start_spec(s.skip(1))
    } else {
        s
    }
}

pub open spec fn trim_spec(s: Seq<char>) -> Seq<char> {
    trim_start_spec(trim_end_spec(s))
}

/// The characters of a string, one element per char.
pub fn chars_of(s: &str) -> (v: Vec<char>)
    ensures
        v@ == s@,
{
    let n = s.unicode_len();
    let mut v: Vec<char> = Vec::new();
    let mut i: usize = 0;
    while i < n
        invariant
            n == s@.len(),
            i <= n,
            v@ == s@.take(i as int),
        decreases n - i,
    {
        v.push(s.get_char(i));
        proof {
            assert(s@.take(i + 1) =~= s@.take(i as int).push(s@[i as int]));
        }
        i = i + 1;
    }
    proof {
        assert(s@.take(n as int) =~= s@);
    }
    v
}

/// Splits on a delimiter character, keeping empty pieces, as the spec
/// `split_on` describes.
pub fn split_char(s: &Vec<char>, d: char) -> (r: Vec<Vec<char>>)
    ensures
        vecs_view(r@) == split_on(s@, d),
        r@.len() >= 1,
{
    let mut out: Vec<Vec<char>> = Vec::new();
    let mut cur: Vec<char> = Vec::new();
    let mut i: usize = 0;
    proof {
        assert(split_on(s@.take(0), d) =~= vecs_view(out@).push(cur@));
    }
    while i < s.len()
        invariant
            i <= s@.len(),
            split_on(s@.take(i as int), d) == vecs_view(out@).push(cur@),
        decreases s@.len() - i,
    {
        let c = s[i];
        proof {
            assert(s@.take(i + 1).drop_last() =~= s@.take(i as int));
            assert(s@.take(i + 1).last() == s@[i as int]);
        }
        if c == d {
            out.push(cur);
            cur = Vec::new();
            proof {
                assert(split_on(s@.take(i + 1), d) =~= vecs_view(out@).push(cur@));
            }
        } else {
            cur.push(c);
            proof {
                assert(split_on(s@.take(i + 1), d) =~= vecs_view(out@).push(cur@));
            }
        }
        i = i + 1;
    }
    proof {
        assert(s@.take(s@.len() as int) =~= s@);
    }
    out.push(cur);
    proof {
        assert(vecs_view(out@) =~~= split_on(s@, d));
    }
    out
}

/// Splits on whitespace, dropping empty tokens, as the spec `ws_tokens`
/// describes.
pub fn ws_split(s: &Vec<char>) -> (r: Vec<Vec<char>>)
    ensures
        vecs_view(r@) == ws_tokens(s@),
{
    let mut out: Vec<Vec<char>> = Vec::new();
    let mut cur: Vec<char> = Vec::new();
    let mut i: usize = 0;
    while i < s.len()
        invariant
            i <= s@.len(),
            cur@.len() > 0 ==> i > 0 && !is_space_char(s@[i - 1]),
            cur@.len() > 0 ==> ws_tokens(s@.take(i as int)) == vecs_view(out@).push(cur@),
            cur@.len() == 0 ==> (i == 0 || is_space_char(s@[i - 1])),
            cur@.len() == 0 ==> ws_tokens(s@.take(i as int)) == vecs_view(out@),
        decreases s@.len() - i,
    {
        let c = s[i];
        let is_sp = c == ' ' || c == '\t' || c == '\n' || c == '\r';
        proof {
            assert(s@.take(i + 1).drop_last() =~= s@.take(i as int));
            assert(s@.take(i + 1).last() == s@[i as int]);
        }
        if is_sp {
            if cur.len() > 0 {
                out.push(cur);
                cur = Vec::new();
            }
            proof {
                assert(ws_tokens(s@.take(i + 1)) =~~= vecs_view(out@));
            }
        } else {
            cur.push(c);
            proof {
                assert(ws_tokens(s@.take(i + 1)) =~~= vecs_view(out@).push(cur@));
            }
        }
        i = i + 1;
    }
    proof {
        assert(s@.take(s@.len() as int) =~= s@);
    }
    if cur.len() > 0 {
        out.push(cur);
    }
    proof {
        assert(vecs_view(out@) =~~= ws_tokens(s@));
    }
    out
}

/// Parses a decimal numeral: `Some` exactly when the token is nonempty, all
/// digits, and its value fits in `u32`.
pub fn parse_u32_chars(s: &Vec<char>) -> (r: Option<u32>)
    ensures
        r is Some <==> parses_as_u32(s@),
        r matches Some(v) ==> v as int == dec_val(s@),
{
    if s.len() == 0 {
        return None;
    }
    let mut acc: u32 = 0;
    let mut i: usize = 0;
    while i < s.len()
        invariant
            i <= s@.len(),
            s@.len() > 0,
            forall|t: int| 0 <= t < i ==> is_digit_char(#[trigger] s@[t]),
            acc as int == dec_val(s@.take(i as int)),
        decreases s@.len() - i,
    {
        let c = s[i];
        if !(c >= '0' && c <= '9') {
            return None;
        }
        proof {
            assert(s@.take(i + 1).drop_last() =~= s@.take(i as int));
            assert(s@.take(i + 1).last() == s@[i as int]);
        }
        let d: u32 = (c as u32) - 48;
        let wide: u64 = (acc as u64) * 10 + (d as u64);
        if wide > u32::MAX as u64 {
            proof {
                if all_digits(s@) {
                    lemma_dec_val_prefix(s@, i + 1);
                }
            }
            return None;
        }
        acc = (wide) as u32;
        i = i + 1;
    }
    proof {
        assert(s@.take(s@.len() as int) =~= s@);
    }
    Some(acc)
}

/// Drops leading and trailing whitespace.
pub fn trim_chars(s: &Vec<char>) -> (r: Vec<char>)
    ensures
        r@ == trim_spec(s@),
{
    let mut hi: usize = s.len();
    let mut hi_done = false;
    proof {
        assert(s@.take(s@.len() as int) =~= s@);
    }
    while !hi_done && hi > 0
        invariant
            hi <= s@.len(),
            trim_end_spec(s@) == trim_end_spec(s@.take(hi as int)),
            hi_done ==> hi > 0 && !is_space_char(s@[hi - 1]),
        decreases hi + (if hi_done { 0int } else { 1int }),
    {
        let c = s[hi - 1];
        if c == ' ' || c == '\t' || c == '\n' || c == '\r' {
            proof {
                assert(s@.take(hi as int).drop_last() =~= s@.take(hi - 1));
            }
            hi = hi - 1;
        } else {
            hi_done = true;
        }
    }
    proof {
        assert(trim_end_spec(s@.take(hi as int)) == s@.take(hi as int));
        assert(s@.take(hi as int).skip(0) =~= s@.take(hi as int));
    }
    let mut lo: usize = 0;
    let mut lo_done = false;
    while !lo_done && lo < hi
        invariant
            lo <= hi <= s@.len(),
            trim_end_spec(s@) == s@.take(hi as int),
            trim_start_spec(s@.take(hi as int)) == trim_start_spec(
                s@.take(hi as int).skip(lo as int),
            ),
            lo_done ==> lo < hi && !is_space_char(s@[lo as int]),
        decreases hi - lo + (if lo_done { 0int } else { 1int }),
    {
        let c = s[lo];
        if c == ' ' || c == '\t' || c == '\n' || c == '\r' {
            proof {
                assert(s@.take(hi as int).skip(lo as int).skip(1) =~= s@.take(hi as int).skip(
                    lo + 1,
                ));
            }
            lo = lo + 1;
        } else {
            lo_done = true;
        }
    }
    proof {
        assert(trim_start_spec(s@.take(hi as int).skip(lo as int)) == s@.take(hi as int).skip(
            lo as int,
        ));
    }
    let mut r: Vec<char> = Vec::new();
    let mut i: usize = lo;
    while i < hi
        invariant
            lo <= i <= hi <= s@.len(),
            r@ == s@.subrange(lo as int, i as int),
        decreases hi - i,
    {
        r.push(s[i]);
        proof {
            assert(s@.subrange(lo as int, i + 1) =~= s@.subrange(lo as int, i as int).push(
                s@[i as int],
            ));
        }
        i = i + 1;
    }
    proof {
        assert(r@ =~= s@.take(hi as int).skip(lo as int));
    }
    r
}

} // verus!
