//! Calibration extractor: collects the digits of a line, for part two also
//! recognizing spelled-out digit words as it scans, and combines the first
//! and last into a two-digit value.

use crate::text::is_digit_char;
use vstd::prelude::*;

verus! {

pub open spec fn is_alpha_char(c: char) -> bool {
    ('a' <= c && c <= 'z') || ('A' <= c && c <= 'Z')
}

pub open spec fn word_of(k: int) -> Seq<char> {
    if k == 1 {
        seq!['o', 'n', 'e']
    } else if k == 2 {
        seq!['t', 'w', 'o']
    } else if k == 3 {
        seq!['t', 'h', 'r', 'e', 'e']
    } else if k == 4 {
        seq!['f', 'o', 'u', 'r']
    } else if k == 5 {
        seq!['f', 'i', 'v', 'e']
    } else if k == 6 {
        seq!['s', 'i', 'x']
    } else if k == 7 {
        seq!['s', 'e', 'v', 'e', 'n']
    } else if k == 8 {
        seq!['e', 'i', 'g', 'h', 't']
    } else {
        seq!['n', 'i', 'n', 'e']
    }
}

/// `needle` occurs somewhere inside `hay`.
pub open spec fn contains_seq(hay: Seq<char>, needle: Seq<char>) -> bool {
    exists|i: int|
        0 <= i <= hay.len() - needle.len() && #[trigger] hay.subrange(i, i + needle.len())
            == needle
}

/// The first digit word, in the order one through nine, that the scratch word
/// holds; zero when none does.
pub open spec fn first_word_in(cw: Seq<char>) -> int {
    if contains_seq(cw, word_of(1)) {
        1
    } else if contains_seq(cw, word_of(2)) {
        2
    } else if contains_seq(cw, word_of(3)) {
        3
    } else if contains_seq(cw, word_of(4)) {
        4
    } else if contains_seq(cw, word_of(5)) {
        5
    } else if contains_seq(cw, word_of(6)) {
        6
    } else if contains_seq(cw, word_of(7)) {
        7
    } else if contains_seq(cw, word_of(8)) {
        8
    } else if contains_seq(cw, word_of(9)) {
        9
    } else {
        0
    }
}

/// One step of the scan. A digit is pushed and shrinks the scratch word to
/// its last letter; a letter grows the scratch word, and a completed digit
/// word is pushed and likewise shrinks it; any other character is ignored.
pub open spec fn day1_step(nums: Seq<u32>, cw: Seq<char>, c: char) -> (Seq<u32>, Seq<char>) {
    if is_digit_char(c) {
        let n1 = nums.push(((c as int) - 48) as u32);
        if cw.len() > 0 {
            let k = first_word_in(cw);
            ((if k > 0 {
                n1.push(k as u32)
            } else {
                n1
            }), seq![cw.last()])
        } else {
            (n1, cw)
        }
    } else if is_alpha_char(c) {
        let cw1 = cw.push(c);
        let k = first_word_in(cw1);
        if k > 0 {
            (nums.push(k as u32), seq![cw1.last()])
        } else {
            (nums, cw1)
        }
    } else {
        (nums, cw)
    }
}

pub open spec fn day1_scan(s: Seq<char>) -> (Seq<u32>, Seq<char>)
    decreases s.len(),
{
    if s.len() == 0 {
        (Seq::empty(), Seq::empty())
    } else {
        let pre = day1_scan(s.drop_last());
        day1_step(pre.0, pre.1, s.last())
    }
}

/// The digits a line yields, literal and spelled out, in scan order.
pub open spec fn day1_numbers(s: Seq<char>) -> Seq<u32> {
    day1_scan(s).0
}

fn contains_chars(hay: &Vec<char>, needle: &Vec<char>) -> (b: bool)
    ensures
        b == contains_seq(hay@, needle@),
{
    let nl = needle.len();
    let hl = hay.len();
    if nl > hl {
        return false;
    }
    let mut i: usize = 0;
    while i <= hl - nl
        invariant
            nl == needle@.len(),
            hl == hay@.len(),
            nl <= hl,
            i <= hl - nl + 1,
            forall|t: int|
                0 <= t < i ==> #[trigger] hay@.subrange(t, t + needle@.len()) != needle@,
        decreases hl + 1 - nl - i,
    {
        let mut j: usize = 0;
        let mut same = true;
        while j < nl
            invariant
                nl == needle@.len(),
                hl == hay@.len(),
                i + nl <= hl,
                j <= nl,
                same ==> (forall|t: int|
                    0 <= t < j ==> #[trigger] hay@[i + t] == needle@[t]),
                !same ==> (exists|t: int|
                    0 <= t < needle@.len() && #[trigger] hay@[i + t] != needle@[t]),
            decreases nl - j,
        {
            if hay[i + j] != needle[j] {
                proof {
                    assert(hay@[i + j as int] != needle@[j as int]);
                }
                same = false;
                j = nl;
            } else {
                proof {
                    if same {
                        assert forall|t: int| 0 <= t < j + 1 implies #[trigger] hay@[i + t]
                            == needle@[t] by {
                            if t == j {
                                assert(hay@[i + j as int] == needle@[j as int]);
                            }
                        }
                    }
                }
                j = j + 1;
            }
        }
        if same {
            proof {
                assert forall|t: int|
                    0 <= t < needle@.len() implies hay@.subrange(i as int, i + needle@.len())[t]
                    == needle@[t] by {
                    assert(hay@[i + t] == needle@[t]);
                }
                assert(hay@.subrange(i as int, i + needle@.len()) =~= needle@);
            }
            return true;
        }
        proof {
            assert(hay@.subrange(i as int, i + needle@.len()) != needle@) by {
                if hay@.subrange(i as int, i + needle@.len()) == needle@ {
                    let t = choose|t: int|
                        0 <= t < needle@.len() && #[trigger] hay@[i + t] != needle@[t];
                    assert(hay@.subrange(i as int, i + needle@.len())[t] == hay@[i + t]);
                }
            }
        }
        i = i + 1;
    }
    false
}

fn find_number_word(cw: &Vec<char>) -> (r: u32)
    ensures
        r as int == first_word_in(cw@),
{
    let w1: Vec<char> = vec!['o', 'n', 'e'];
    let w2: Vec<char> = vec!['t', 'w', 'o'];
    let w3: Vec<char> = vec!['t', 'h', 'r', 'e', 'e'];
    let w4: Vec<char> = vec!['f', 'o', 'u', 'r'];
    let w5: Vec<char> = vec!['f', 'i', 'v', 'e'];
    let w6: Vec<char> = vec!['s', 'i', 'x'];
    let w7: Vec<char> = vec!['s', 'e', 'v', 'e', 'n'];
    let w8: Vec<char> = vec!['e', 'i', 'g', 'h', 't'];
    let w9: Vec<char> = vec!['n', 'i', 'n', 'e'];
    proof {
        assert(w1@ =~= word_of(1));
        assert(w2@ =~= word_of(2));
        assert(w3@ =~= word_of(3));
        assert(w4@ =~= word_of(4));
        assert(w5@ =~= word_of(5));
        assert(w6@ =~= word_of(6));
        assert(w7@ =~= word_of(7));
        assert(w8@ =~= word_of(8));
        assert(w9@ =~= word_of(9));
    }
    if contains_chars(cw, &w1) {
        1
    } else if contains_chars(cw, &w2) {
        2
    } else if contains_chars(cw, &w3) {
        3
    } else if contains_chars(cw, &w4) {
        4
    } else if contains_chars(cw, &w5) {
        5
    } else if contains_chars(cw, &w6) {
        6
    } else if contains_chars(cw, &w7) {
        7
    } else if contains_chars(cw, &w8) {
        8
    } else if contains_chars(cw, &w9) {
        9
    } else {
        0
    }
}

/// The part-two scan of one line: every literal digit, and every spelled-out
/// digit word completed while scanning, in order; the line yields `Err` when
/// no digit at all was found.
pub fn parse(input: &str) -> (r: Result<Vec<u32>, ()>)
    ensures
        r is Ok <==> day1_numbers(input@).len() > 0,
        r matches Ok(v) ==> v@ == day1_numbers(input@),
        r matches Ok(v) ==> forall|k: int| 0 <= k < v@.len() ==> #[trigger] v@[k] <= 9,
{
    let cs = crate::text::chars_of(input);
    let mut numbers: Vec<u32> = Vec::new();
    let mut cw: Vec<char> = Vec::new();
    let mut i: usize = 0;
    while i < cs.len()
        invariant
            cs@ == input@,
            i <= cs@.len(),
            (numbers@, cw@) == day1_scan(input@.take(i as int)),
            forall|k: int| 0 <= k < numbers@.len() ==> #[trigger] numbers@[k] <= 9,
        decreases cs@.len() - i,
    {
        let c = cs[i];
        proof {
            assert(input@.take(i + 1).drop_last() =~= input@.take(i as int));
            assert(input@.take(i + 1).last() == input@[i as int]);
        }
        if c >= '0' && c <= '9' {
            numbers.push((c as u32) - 48);
            if cw.len() > 0 {
                let k = find_number_word(&cw);
                if k > 0 {
                    numbers.push(k);
                }
                let last = cw[cw.len() - 1];
                cw = vec![last];
            }
        } else if (c >= 'a' && c <= 'z') || (c >= 'A' && c <= 'Z') {
            cw.push(c);
            let k = find_number_word(&cw);
            if k > 0 {
                numbers.push(k);
                let last = cw[cw.len() - 1];
                cw = vec![last];
            }
        }
        proof {
            assert((numbers@, cw@) == day1_scan(input@.take(i + 1)));
        }
        i = i + 1;
    }
    proof {
        assert(input@.take(cs@.len() as int) =~= input@);
    }
    if numbers.len() == 0 {
        Err(())
    } else {
        Ok(numbers)
    }
}

/// The digit values of a line's literal digits, in order.
pub open spec fn digit_values(s: Seq<char>) -> Seq<u32>
    decreases s.len(),
{
    if s.len() == 0 {
        Seq::empty()
    } else {
        let pre = digit_values(s.drop_last());
        if is_digit_char(s.last()) {
            pre.push(((s.last() as int) - 48) as u32)
        } else {
            pre
        }
    }
}

/// The part-one extraction: only literal digits, in order.
pub fn line_digits(line: &str) -> (v: Vec<u32>)
    ensures
        v@ == digit_values(line@),
        forall|k: int| 0 <= k < v@.len() ==> #[trigger] v@[k] <= 9,
{
    let cs = crate::text::chars_of(line);
    let mut v: Vec<u32> = Vec::new();
    let mut i: usize = 0;
    while i < cs.len()
        invariant
            cs@ == line@,
            i <= cs@.len(),
            v@ == digit_values(line@.take(i as int)),
            forall|k: int| 0 <= k < v@.len() ==> #[trigger] v@[k] <= 9,
        decreases cs@.len() - i,
    {
        let c = cs[i];
        proof {
            assert(line@.take(i + 1).drop_last() =~= line@.take(i as int));
            assert(line@.take(i + 1).last() == line@[i as int]);
        }
        if c >= '0' && c <= '9' {
            v.push((c as u32) - 48);
        }
        i = i + 1;
    }
    proof {
        assert(line@.take(cs@.len() as int) =~= line@);
    }
    v
}

/// Combines a line's digits into its calibration value: ten times the first
/// digit plus the last; `None` when there is no digit.
pub fn first_last_value(nums: &Vec<u32>) -> (r: Option<u32>)
    requires
        nums@.len() > 0 ==> nums@[0] <= 9 && nums@[nums@.len() - 1] <= 9,
    ensures
        r is Some <==> nums@.len() > 0,
        r matches Some(v) ==> v == nums@[0] * 10 + nums@[nums@.len() - 1],
{
    if nums.len() == 0 {
        None
    } else {
        let first = nums[0];
        let last = nums[nums.len() - 1];
        Some(first * 10 + last)
    }
}

} // verus!
