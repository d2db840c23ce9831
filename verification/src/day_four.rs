//! Scratchcard scorer: parses cards of winning and drawn numbers, counts the
//! matches of each card, scores part one by doubling, and propagates card
//! copies for part two.

use crate::text::{
    chars_of, dec_val, parses_as_u32, split_char, split_on, trim_chars, trim_spec, vecs_view,
};
use vstd::arithmetic::power2::{
    lemma2_to64, lemma2_to64_rest, lemma_pow2_strictly_increases, lemma_pow2_unfold, pow2,
};
use vstd::pervasive::VecAdditionalExecFns;
use vstd::prelude::*;

verus! {

// ---------------------------------------------------------------------------
// Card parsing.
// ---------------------------------------------------------------------------

/// The numbers of one half of a card: its trimmed text split on single
/// spaces, each token that is a plain decimal numeral fitting `u32` kept.
pub open spec fn parsed_nums(toks: Seq<Seq<char>>) -> Seq<u32>
    decreases toks.len(),
{
    if toks.len() == 0 {
        Seq::empty()
    } else {
        let pre = parsed_nums(toks.drop_last());
        if parses_as_u32(toks.last()) {
            pre.push(dec_val(toks.last()) as u32)
        } else {
            pre
        }
    }
}

pub open spec fn card_nums(part: Seq<char>) -> Seq<u32> {
    parsed_nums(split_on(trim_spec(part), ' '))
}

/// The text between the first and second `:` of the line.
pub open spec fn card_seg(s: Seq<char>) -> Seq<char> {
    split_on(s, ':')[1]
}

/// A card line is well formed when a `:` introduces the hand and a `|`
/// separates its two halves.
pub open spec fn card_wf(s: Seq<char>) -> bool {
    split_on(s, ':').len() >= 2 && split_on(card_seg(s), '|').len() >= 2
}

/// The two number lists of a card: winning numbers, then drawn numbers.
pub open spec fn card_spec(s: Seq<char>) -> (Seq<u32>, Seq<u32>) {
    (card_nums(split_on(card_seg(s), '|')[0]), card_nums(split_on(card_seg(s), '|')[1]))
}

fn nums_of_part(part: &Vec<char>) -> (v: Vec<u32>)
    ensures
        v@ == card_nums(part@),
{
    let trimmed = trim_chars(part);
    let toks = split_char(&trimmed, ' ');
    let ghost tseq = vecs_view(toks@);
    let mut v: Vec<u32> = Vec::new();
    let mut k: usize = 0;
    while k < toks.len()
        invariant
            tseq == vecs_view(toks@),
            tseq == split_on(trim_spec(part@), ' '),
            k <= toks@.len(),
            v@ == parsed_nums(tseq.take(k as int)),
        decreases toks@.len() - k,
    {
        proof {
            assert(tseq.take(k + 1).drop_last() =~= tseq.take(k as int));
            assert(tseq.take(k + 1).last() == toks@[k as int]@);
        }
        match crate::text::parse_u32_chars(&toks[k]) {
            Some(x) => {
                v.push(x);
            },
            None => {},
        }
        k = k + 1;
    }
    proof {
        assert(tseq.take(toks@.len() as int) =~= tseq);
    }
    v
}

/// Parses one card line, total: `None` exactly when the line lacks the `:`
/// or the `|` that the card format demands.
pub fn try_parse_card(card: &str) -> (r: Option<(Vec<u32>, Vec<u32>)>)
    ensures
        r is Some <==> card_wf(card@),
        r matches Some(v) ==> v.0@ == card_spec(card@).0 && v.1@ == card_spec(card@).1,
{
    let cs = chars_of(card);
    let parts = split_char(&cs, ':');
    if parts.len() < 2 {
        return None;
    }
    let seg = &parts[1];
    proof {
        assert(seg@ == split_on(card@, ':')[1]);
    }
    let halves = split_char(seg, '|');
    if halves.len() < 2 {
        return None;
    }
    let a = nums_of_part(&halves[0]);
    let b = nums_of_part(&halves[1]);
    proof {
        assert(halves@[0]@ == split_on(card_seg(card@), '|')[0]);
        assert(halves@[1]@ == split_on(card_seg(card@), '|')[1]);
    }
    Some((a, b))
}

/// Parses one card line into its two number lists; the line must hold a `:`
/// and a `|`.
pub fn parse_card(card: &str) -> (r: (Vec<u32>, Vec<u32>))
    requires
        card_wf(card@),
    ensures
        r.0@ == card_spec(card@).0,
        r.1@ == card_spec(card@).1,
{
    try_parse_card(card).unwrap()
}

// ---------------------------------------------------------------------------
// Matching and scoring.
// ---------------------------------------------------------------------------

/// The elements of `a`, in order, that `b` also holds.
pub open spec fn inter_spec(a: Seq<u32>, b: Seq<u32>) -> Seq<u32> {
    a.filter(|x: u32| b.contains(x))
}

fn contains_u32(v: &[u32], x: u32) -> (b: bool)
    ensures
        b == v@.contains(x),
{
    let mut i: usize = 0;
    while i < v.len()
        invariant
            i <= v@.len(),
            forall|k: int| 0 <= k < i ==> v@[k] != x,
        decreases v@.len() - i,
    {
        if v[i] == x {
            return true;
        }
        i = i + 1;
    }
    false
}

/// The winning numbers that were also drawn, in the order of the first list.
pub fn intersection(vec1: &[u32], vec2: &[u32]) -> (r: Vec<u32>)
    ensures
        r@ == inter_spec(vec1@, vec2@),
{
    let mut r: Vec<u32> = Vec::new();
    let mut i: usize = 0;
    while i < vec1.len()
        invariant
            i <= vec1@.len(),
            r@ == inter_spec(vec1@.take(i as int), vec2@),
        decreases vec1@.len() - i,
    {
        proof {
            reveal(Seq::filter);
            assert(vec1@.take(i + 1).drop_last() =~= vec1@.take(i as int));
            assert(vec1@.take(i + 1).last() == vec1@[i as int]);
            assert(inter_spec(vec1@.take(i + 1), vec2@) == (if vec2@.contains(vec1@[i as int]) {
                inter_spec(vec1@.take(i as int), vec2@).push(vec1@[i as int])
            } else {
                inter_spec(vec1@.take(i as int), vec2@)
            }));
        }
        if contains_u32(vec2, vec1[i]) {
            r.push(vec1[i]);
        }
        i = i + 1;
    }
    proof {
        assert(vec1@.take(vec1@.len() as int) =~= vec1@);
    }
    r
}

/// The score of a card with `n` matches: nothing for no match, otherwise one
/// point doubled for each further match, saturating at the largest `u64`.
pub open spec fn score_spec(n: nat) -> int {
    if n == 0 {
        0
    } else if n <= 64 {
        pow2((n - 1) as nat) as int
    } else {
        u64::MAX as int
    }
}

/// The score of a winning list: `2^(len - 1)`, or zero for an empty list.
pub fn calculate(winning_list: Vec<u32>) -> (r: u64)
    ensures
        r as int == score_spec(winning_list@.len()),
{
    let n = winning_list.len();
    if n == 0 {
        return 0;
    }
    let e = n - 1;
    if e >= 64 {
        proof {
            lemma2_to64();
        }
        return u64::MAX;
    }
    proof {
        lemma2_to64();
        lemma2_to64_rest();
    }
    let mut r: u64 = 1;
    let mut k: usize = 0;
    while k < e
        invariant
            k <= e < 64,
            r as int == pow2(k as nat),
        decreases e - k,
    {
        proof {
            lemma_pow2_unfold((k + 1) as nat);
            if k + 1 < 63 {
                lemma_pow2_strictly_increases((k + 1) as nat, 63);
            }
            lemma2_to64_rest();
            assert(pow2((k + 1) as nat) <= pow2(63));
        }
        r = r * 2;
        k = k + 1;
    }
    r
}

pub open spec fn game_view(g: Seq<(Vec<u32>, Vec<u32>)>) -> Seq<(Seq<u32>, Seq<u32>)> {
    g.map_values(|p: (Vec<u32>, Vec<u32>)| (p.0@, p.1@))
}

pub open spec fn card_matches(card: (Seq<u32>, Seq<u32>)) -> nat {
    inter_spec(card.0, card.1).len()
}

pub open spec fn card_score(card: (Seq<u32>, Seq<u32>)) -> int {
    score_spec(card_matches(card))
}

pub open spec fn scores_sum(cards: Seq<(Seq<u32>, Seq<u32>)>) -> int
    decreases cards.len(),
{
    if cards.len() == 0 {
        0
    } else {
        scores_sum(cards.drop_last()) + card_score(cards.last())
    }
}

proof fn lemma_scores_sum_nonneg(cards: Seq<(Seq<u32>, Seq<u32>)>)
    ensures
        scores_sum(cards) >= 0,
    decreases cards.len(),
{
    if cards.len() > 0 {
        lemma_scores_sum_nonneg(cards.drop_last());
    }
}

proof fn lemma_scores_sum_prefix(cards: Seq<(Seq<u32>, Seq<u32>)>, k: int)
    requires
        0 <= k <= cards.len(),
    ensures
        0 <= scores_sum(cards.take(k)) <= scores_sum(cards),
    decreases cards.len() - k,
{
    lemma_scores_sum_nonneg(cards.take(k));
    if k == cards.len() {
        assert(cards.take(k) =~= cards);
    } else {
        lemma_scores_sum_prefix(cards, k + 1);
        assert(cards.take(k + 1).drop_last() =~= cards.take(k));
        assert(cards.take(k + 1).last() == cards[k]);
        assert(scores_sum(cards.take(k + 1)) == scores_sum(cards.take(k)) + card_score(cards[k]));
    }
}

/// The part-one total, total over every game: `None` exactly when the sum of
/// the card scores does not fit in `u64`.
pub fn try_part_one(game: &Vec<(Vec<u32>, Vec<u32>)>) -> (r: Option<u64>)
    ensures
        r is Some <==> scores_sum(game_view(game@)) <= u64::MAX,
        r matches Some(v) ==> v as int == scores_sum(game_view(game@)),
{
    let ghost cards = game_view(game@);
    let mut sum: u64 = 0;
    let mut i: usize = 0;
    while i < game.len()
        invariant
            cards == game_view(game@),
            i <= game@.len(),
            sum as int == scores_sum(cards.take(i as int)),
        decreases game@.len() - i,
    {
        let pair = &game[i];
        let inter = intersection(pair.0.as_slice(), pair.1.as_slice());
        let score = calculate(inter);
        proof {
            assert(cards[i as int] == (game@[i as int].0@, game@[i as int].1@));
            assert(score as int == card_score(cards[i as int]));
            assert(cards.take(i + 1).drop_last() =~= cards.take(i as int));
            assert(cards.take(i + 1).last() == cards[i as int]);
        }
        if score > u64::MAX - sum {
            proof {
                lemma_scores_sum_prefix(cards, i + 1);
            }
            return None;
        }
        sum = sum + score;
        i = i + 1;
    }
    proof {
        assert(cards.take(game@.len() as int) =~= cards);
    }
    Some(sum)
}

/// The part-one answer: the sum of every card's score.
pub fn part_one(game: Vec<(Vec<u32>, Vec<u32>)>) -> (r: u64)
    requires
        scores_sum(game_view(game@)) <= u64::MAX,
    ensures
        r as int == scores_sum(game_view(game@)),
{
    try_part_one(&game).unwrap()
}

// ---------------------------------------------------------------------------
// Part two: propagating card copies.
// ---------------------------------------------------------------------------

pub open spec fn matches_of(cards: Seq<(Seq<u32>, Seq<u32>)>, i: int) -> int {
    card_matches(cards[i]) as int
}

/// Each card's matches stay within the card list: card `i` never reaches past
/// the last card.
pub open spec fn cards_wf(cards: Seq<(Seq<u32>, Seq<u32>)>) -> bool {
    forall|i: int|
        0 <= i < cards.len() - 1 ==> i + #[trigger] matches_of(cards, i) < cards.len()
}

pub open spec fn ones(n: nat) -> Seq<int> {
    Seq::new(n, |k: int| 1int)
}

/// Adds one copy of card `i`'s count to each of the `m` cards after it.
pub open spec fn apply_card(copies: Seq<int>, i: int, m: int) -> Seq<int> {
    Seq::new(copies.len(), |k: int| if i + 1 <= k <= i + m { copies[k] + copies[i] } else { copies[k] })
}

/// The copy counts after the first `n` cards have been processed; the last
/// card is never processed.
pub open spec fn draw_upto(cards: Seq<(Seq<u32>, Seq<u32>)>, n: int) -> Seq<int>
    decreases n,
{
    if n <= 0 {
        ones(cards.len())
    } else {
        let pre = draw_upto(cards, n - 1);
        if n - 1 == cards.len() - 1 {
            pre
        } else {
            apply_card(pre, n - 1, matches_of(cards, n - 1))
        }
    }
}

/// The final copy count of every card.
pub open spec fn draw_spec(cards: Seq<(Seq<u32>, Seq<u32>)>) -> Seq<int> {
    draw_upto(cards, cards.len() as int)
}

pub open spec fn draw_fit(cards: Seq<(Seq<u32>, Seq<u32>)>) -> bool {
    forall|k: int| 0 <= k < cards.len() ==> #[trigger] draw_spec(cards)[k] <= u64::MAX
}

pub open spec fn ints_view(s: Seq<u64>) -> Seq<int> {
    s.map_values(|x: u64| x as int)
}

proof fn lemma_draw_len(cards: Seq<(Seq<u32>, Seq<u32>)>, n: int)
    ensures
        draw_upto(cards, n).len() == cards.len(),
    decreases n,
{
    if n > 0 {
        lemma_draw_len(cards, n - 1);
    }
}

proof fn lemma_draw_nonneg(cards: Seq<(Seq<u32>, Seq<u32>)>, n: int)
    requires
        n <= cards.len(),
    ensures
        forall|k: int| 0 <= k < cards.len() ==> #[trigger] draw_upto(cards, n)[k] >= 1,
    decreases n,
{
    lemma_draw_len(cards, n);
    if n > 0 {
        lemma_draw_nonneg(cards, n - 1);
        lemma_draw_len(cards, n - 1);
    }
}

proof fn lemma_draw_mono(cards: Seq<(Seq<u32>, Seq<u32>)>, n1: int, n2: int)
    requires
        0 <= n1 <= n2 <= cards.len(),
    ensures
        forall|k: int|
            0 <= k < cards.len() ==> #[trigger] draw_upto(cards, n1)[k] <= draw_upto(cards, n2)[k],
    decreases n2 - n1,
{
    lemma_draw_len(cards, n1);
    lemma_draw_len(cards, n2);
    if n1 < n2 {
        lemma_draw_mono(cards, n1, n2 - 1);
        lemma_draw_len(cards, n2 - 1);
        lemma_draw_nonneg(cards, n2 - 1);
    }
}

/// The copy counts, total over every game: `None` exactly when a card's
/// matches run past the end of the list or some copy count does not fit in
/// `u64`.
pub fn try_draw_cards(game: &Vec<(Vec<u32>, Vec<u32>)>) -> (r: Option<Vec<u64>>)
    ensures
        r is Some <==> (cards_wf(game_view(game@)) && draw_fit(game_view(game@))),
        r matches Some(v) ==> ints_view(v@) == draw_spec(game_view(game@)),
{
    let ghost cards = game_view(game@);
    let n = game.len();
    let mut copies: Vec<u64> = Vec::new();
    let mut z: usize = 0;
    while z < n
        invariant
            z <= n,
            copies@.len() == z,
            forall|k: int| 0 <= k < z ==> copies@[k] == 1u64,
        decreases n - z,
    {
        copies.push(1);
        z = z + 1;
    }
    proof {
        assert(ints_view(copies@) =~= draw_upto(cards, 0));
    }
    let mut i: usize = 0;
    while i < n
        invariant
            cards == game_view(game@),
            n == game@.len(),
            cards.len() == n,
            i <= n,
            copies@.len() == n,
            ints_view(copies@) == draw_upto(cards, i as int),
            forall|t: int|
                0 <= t < i && t < n - 1 ==> t + #[trigger] matches_of(cards, t) < n,
        decreases n - i,
    {
        if i + 1 < n {
            let pair = &game[i];
            let inter = intersection(pair.0.as_slice(), pair.1.as_slice());
            let m = inter.len();
            proof {
                assert(cards[i as int] == (game@[i as int].0@, game@[i as int].1@));
                assert(m as int == matches_of(cards, i as int));
            }
            if n - i - 1 < m {
                proof {
                    assert(!cards_wf(cards));
                }
                return None;
            }
            let ghost pre = draw_upto(cards, i as int);
            proof {
                lemma_draw_len(cards, i as int);
            }
            let mut j: usize = 0;
            while j < m
                invariant
                    cards == game_view(game@),
                    n == game@.len(),
                    cards.len() == n,
                    i + 1 < n,
                    i + m < n,
                    m as int == matches_of(cards, i as int),
                    j <= m,
                    copies@.len() == n,
                    pre == draw_upto(cards, i as int),
                    pre.len() == n,
                    forall|k: int|
                        0 <= k < n ==> #[trigger] ints_view(copies@)[k] == (if i + 1 <= k <= i + j {
                            pre[k] + pre[i as int]
                        } else {
                            pre[k]
                        }),
                decreases m - j,
            {
                let idx = i + j + 1;
                let add = copies[i];
                proof {
                    assert(ints_view(copies@)[i as int] == pre[i as int]);
                    assert(ints_view(copies@)[idx as int] == pre[idx as int]);
                }
                if copies[idx] > u64::MAX - add {
                    proof {
                        lemma_draw_mono(cards, i + 1, n as int);
                        lemma_draw_len(cards, i + 1);
                        assert(draw_upto(cards, i + 1) == apply_card(
                            pre,
                            i as int,
                            matches_of(cards, i as int),
                        ));
                        assert(draw_upto(cards, i + 1)[idx as int] == pre[idx as int] + pre[i as int]);
                        assert(draw_spec(cards)[idx as int] > u64::MAX);
                        assert(!draw_fit(cards));
                    }
                    return None;
                }
                let ghost old_copies = copies@;
                copies.set(idx, copies[idx] + add);
                proof {
                    assert forall|k: int| 0 <= k < n implies #[trigger] ints_view(copies@)[k] == (
                    if i + 1 <= k <= i + j + 1 {
                        pre[k] + pre[i as int]
                    } else {
                        pre[k]
                    }) by {
                        assert(ints_view(old_copies)[k] == old_copies[k] as int);
                        if k == idx as int {
                            assert(copies@[k] == old_copies[k] + add);
                        } else {
                            assert(copies@[k] == old_copies[k]);
                        }
                    }
                }
                j = j + 1;
            }
            proof {
                assert(ints_view(copies@) =~= apply_card(pre, i as int, m as int));
                assert(draw_upto(cards, i + 1) == apply_card(
                    pre,
                    i as int,
                    matches_of(cards, i as int),
                ));
            }
        } else {
            proof {
                assert(draw_upto(cards, i + 1) == draw_upto(cards, i as int));
            }
        }
        i = i + 1;
    }
    proof {
        assert(cards_wf(cards));
        lemma_draw_len(cards, n as int);
        assert forall|k: int| 0 <= k < cards.len() implies #[trigger] draw_spec(cards)[k]
            <= u64::MAX by {
            assert(draw_spec(cards)[k] == ints_view(copies@)[k]);
            assert(copies@[k] <= u64::MAX);
        }
    }
    Some(copies)
}

/// The copy counts of every card after propagation; matches must stay within
/// the list and every count must fit in `u64`.
pub fn draw_cards(game: Vec<(Vec<u32>, Vec<u32>)>) -> (r: Vec<u64>)
    requires
        cards_wf(game_view(game@)),
        draw_fit(game_view(game@)),
    ensures
        ints_view(r@) == draw_spec(game_view(game@)),
{
    try_draw_cards(&game).unwrap()
}

pub open spec fn seq_sum(s: Seq<int>) -> int
    decreases s.len(),
{
    if s.len() == 0 {
        0
    } else {
        seq_sum(s.drop_last()) + s.last()
    }
}

proof fn lemma_seq_sum_nonneg(s: Seq<int>)
    requires
        forall|t: int| 0 <= t < s.len() ==> #[trigger] s[t] >= 0,
    ensures
        seq_sum(s) >= 0,
    decreases s.len(),
{
    if s.len() > 0 {
        lemma_seq_sum_nonneg(s.drop_last());
    }
}

proof fn lemma_seq_sum_prefix(s: Seq<int>, k: int)
    requires
        0 <= k <= s.len(),
        forall|t: int| 0 <= t < s.len() ==> #[trigger] s[t] >= 0,
    ensures
        0 <= seq_sum(s.take(k)) <= seq_sum(s),
    decreases s.len() - k,
{
    lemma_seq_sum_nonneg(s.take(k));
    if k == s.len() {
        assert(s.take(k) =~= s);
    } else {
        lemma_seq_sum_prefix(s, k + 1);
        assert(s.take(k + 1).drop_last() =~= s.take(k));
        assert(s.take(k + 1).last() == s[k]);
    }
}

/// The part-two total, total over every game: `None` exactly when the copy
/// propagation itself has no answer or the total does not fit in `u64`.
pub fn try_part_two(game: &Vec<(Vec<u32>, Vec<u32>)>) -> (r: Option<u64>)
    ensures
        r is Some <==> (cards_wf(game_view(game@)) && draw_fit(game_view(game@)) && seq_sum(
            draw_spec(game_view(game@)),
        ) <= u64::MAX),
        r matches Some(v) ==> v as int == seq_sum(draw_spec(game_view(game@))),
{
    let ghost cards = game_view(game@);
    let copies = match try_draw_cards(game) {
        Some(v) => v,
        None => {
            return None;
        },
    };
    proof {
        lemma_draw_len(cards, cards.len() as int);
        lemma_draw_nonneg(cards, cards.len() as int);
    }
    let mut sum: u64 = 0;
    let mut i: usize = 0;
    while i < copies.len()
        invariant
            cards == game_view(game@),
            ints_view(copies@) == draw_spec(cards),
            copies@.len() == cards.len(),
            forall|t: int| 0 <= t < cards.len() ==> #[trigger] draw_spec(cards)[t] >= 1,
            i <= copies@.len(),
            sum as int == seq_sum(draw_spec(cards).take(i as int)),
        decreases copies@.len() - i,
    {
        proof {
            assert(draw_spec(cards).take(i + 1).drop_last() =~= draw_spec(cards).take(i as int));
            assert(draw_spec(cards).take(i + 1).last() == draw_spec(cards)[i as int]);
            assert(ints_view(copies@)[i as int] == copies@[i as int]);
        }
        let c = copies[i];
        if c > u64::MAX - sum {
            proof {
                lemma_seq_sum_prefix(draw_spec(cards), i + 1);
            }
            return None;
        }
        sum = sum + c;
        i = i + 1;
    }
    proof {
        assert(draw_spec(cards).take(copies@.len() as int) =~= draw_spec(cards));
    }
    Some(sum)
}

/// The part-two answer: the total number of card copies after propagation.
pub fn part_two(game: Vec<(Vec<u32>, Vec<u32>)>) -> (r: u64)
    requires
        cards_wf(game_view(game@)),
        draw_fit(game_view(game@)),
        seq_sum(draw_spec(game_view(game@))) <= u64::MAX,
    ensures
        r as int == seq_sum(draw_spec(game_view(game@))),
{
    try_part_two(&game).unwrap()
}

} // verus!
