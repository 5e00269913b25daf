//! Classification of five cards into a hand, comparison of hands, and
//! selection of the winning hands.

use vstd::prelude::*;
use vstd::multiset::Multiset;
use crate::errors::{ParseError, ParseErrorView};
use crate::types::{
    Card, Hand, HandView, Rank, Suit, category, compare_spec, key, lex, parse_hand, rank_at,
    rank_index, words_of,
};
use std::cmp::Ordering;

verus! {

/// Compares two sequences in lexicographic order.
fn lex_compare(a: &Vec<u8>, b: &Vec<u8>) -> (r: Ordering)
    ensures
        r == lex(a@, b@),
{
    let mut i: usize = 0;
    assert(a@.skip(0) =~= a@);
    assert(b@.skip(0) =~= b@);
    while i < a.len() && i < b.len()
        invariant
            i <= a@.len(),
            i <= b@.len(),
            lex(a@, b@) == lex(a@.skip(i as int), b@.skip(i as int)),
        decreases a@.len() - i,
    {
        if a[i] < b[i] {
            return Ordering::Less;
        } else if a[i] > b[i] {
            return Ordering::Greater;
        }
        assert(a@.skip(i as int).drop_first() =~= a@.skip(i + 1 as int));
        assert(b@.skip(i as int).drop_first() =~= b@.skip(i + 1 as int));
        i = i + 1;
    }
    if i < b.len() {
        Ordering::Less
    } else if i < a.len() {
        Ordering::Greater
    } else {
        Ordering::Equal
    }
}

/// Compares two hands: by category first, then by the ranks that break ties
/// within the category, most significant first.
pub fn compare(a: &Hand, b: &Hand) -> (r: Ordering)
    ensures
        r == compare_spec(a@, b@),
{
    lex_compare(&a.key(), &b.key())
}

proof fn lemma_lex_antisymmetric(a: Seq<u8>, b: Seq<u8>)
    ensures
        lex(a, b) == Ordering::Less <==> lex(b, a) == Ordering::Greater,
        lex(a, b) == Ordering::Equal <==> a == b,
    decreases a.len(),
{
    if a.len() > 0 && b.len() > 0 && a[0] == b[0] {
        lemma_lex_antisymmetric(a.drop_first(), b.drop_first());
        if a.drop_first() == b.drop_first() {
            assert(a =~= seq![a[0]] + a.drop_first());
            assert(b =~= seq![b[0]] + b.drop_first());
        }
    }
    if a == b && a.len() > 0 {
        lemma_lex_antisymmetric(a.drop_first(), b.drop_first());
    }
    if a.len() == 0 && b.len() == 0 {
        assert(a =~= b);
    }
}

proof fn lemma_lex_transitive(a: Seq<u8>, b: Seq<u8>, c: Seq<u8>)
    requires
        lex(a, b) == Ordering::Less,
        lex(b, c) == Ordering::Less,
    ensures
        lex(a, c) == Ordering::Less,
    decreases a.len(),
{
    if a.len() > 0 && b.len() > 0 && c.len() > 0 && a[0] == b[0] && b[0] == c[0] {
        lemma_lex_transitive(a.drop_first(), b.drop_first(), c.drop_first());
    }
}

proof fn lemma_indices_injective(x: Seq<Rank>, y: Seq<Rank>)
    requires
        crate::types::indices(x) == crate::types::indices(y),
    ensures
        x == y,
{
    assert(x.len() == crate::types::indices(x).len());
    assert(y.len() == crate::types::indices(y).len());
    assert forall|i: int| 0 <= i < x.len() implies x[i] == y[i] by {
        assert(crate::types::indices(x)[i] == rank_index(x[i]));
        assert(crate::types::indices(y)[i] == rank_index(y[i]));
        crate::types::lemma_rank_index_inverse(x[i]);
        crate::types::lemma_rank_index_inverse(y[i]);
    }
    assert(x =~= y);
}

proof fn lemma_key_injective(a: HandView, b: HandView)
    requires
        key(a) == key(b),
    ensures
        a == b,
{
    assert(key(a)[0] == category(a));
    assert(key(b)[0] == category(b));
    let ka = key(a).drop_first();
    let kb = key(b).drop_first();
    assert(ka == kb);
    match (a, b) {
        (HandView::HighCard { ranks: x }, HandView::HighCard { ranks: y }) => {
            assert(ka =~= crate::types::indices(x));
            assert(kb =~= crate::types::indices(y));
            lemma_indices_injective(x, y);
        },
        (HandView::Flush { ranks: x }, HandView::Flush { ranks: y }) => {
            assert(ka =~= crate::types::indices(x));
            assert(kb =~= crate::types::indices(y));
            lemma_indices_injective(x, y);
        },
        (HandView::OnePair { pair: p, remaining: x }, HandView::OnePair { pair: q, remaining: y }) => {
            assert(ka[0] == kb[0]);
            crate::types::lemma_rank_index_inverse(p);
            crate::types::lemma_rank_index_inverse(q);
            assert(ka.drop_first() =~= crate::types::indices(x));
            assert(kb.drop_first() =~= crate::types::indices(y));
            lemma_indices_injective(x, y);
        },
        (
            HandView::ThreeOfAKind { triple: p, remaining: x },
            HandView::ThreeOfAKind { triple: q, remaining: y },
        ) => {
            assert(ka[0] == kb[0]);
            crate::types::lemma_rank_index_inverse(p);
            crate::types::lemma_rank_index_inverse(q);
            assert(ka.drop_first() =~= crate::types::indices(x));
            assert(kb.drop_first() =~= crate::types::indices(y));
            lemma_indices_injective(x, y);
        },
        _ => {
            if category(a) == category(b) {
                assert(ka.len() == kb.len());
                assert(forall|i: int| 0 <= i < ka.len() ==> ka[i] == kb[i]);
                match a {
                    HandView::TwoPair { high_pair, low_pair, remaining } => {
                        assert(ka[0] == rank_index(high_pair) && ka[1] == rank_index(low_pair)
                            && ka[2] == rank_index(remaining));
                        assert(kb[0] == rank_index(b->TwoPair_high_pair) && kb[1] == rank_index(b->TwoPair_low_pair)
                            && kb[2] == rank_index(b->TwoPair_remaining));
                        lemma_rank_index_injective(high_pair, b->TwoPair_high_pair);
                        lemma_rank_index_injective(low_pair, b->TwoPair_low_pair);
                        lemma_rank_index_injective(remaining, b->TwoPair_remaining);
                    },
                    HandView::Straight { high } => {
                        assert(ka[0] == rank_index(high) && kb[0] == rank_index(b->Straight_high));
                        lemma_rank_index_injective(high, b->Straight_high);
                    },
                    HandView::FullHouse { triple, pair } => {
                        assert(ka[0] == rank_index(triple) && ka[1] == rank_index(pair));
                        assert(kb[0] == rank_index(b->FullHouse_triple) && kb[1] == rank_index(b->FullHouse_pair));
                        lemma_rank_index_injective(triple, b->FullHouse_triple);
                        lemma_rank_index_injective(pair, b->FullHouse_pair);
                    },
                    HandView::FourOfAKind { quad, remaining } => {
                        assert(ka[0] == rank_index(quad) && ka[1] == rank_index(remaining));
                        assert(kb[0] == rank_index(b->FourOfAKind_quad) && kb[1] == rank_index(b->FourOfAKind_remaining));
                        lemma_rank_index_injective(quad, b->FourOfAKind_quad);
                        lemma_rank_index_injective(remaining, b->FourOfAKind_remaining);
                    },
                    HandView::StraightFlush { high } => {
                        assert(ka[0] == rank_index(high) && kb[0] == rank_index(b->StraightFlush_high));
                        lemma_rank_index_injective(high, b->StraightFlush_high);
                    },
                    _ => {},
                }
            }
        },
    }
}

proof fn lemma_rank_index_injective(r: Rank, s: Rank)
    ensures
        rank_index(r) == rank_index(s) <==> r == s,
{
    crate::types::lemma_rank_index_inverse(r);
    crate::types::lemma_rank_index_inverse(s);
}

/// Comparison of hands is a strict total order whose ties are exactly the
/// equal hands: it is antisymmetric, transitive, and a hand compares equal to
/// another exactly when the two have the same category and the same payload.
pub proof fn lemma_compare_total_order(a: HandView, b: HandView, c: HandView)
    ensures
        compare_spec(a, b) == Ordering::Less <==> compare_spec(b, a) == Ordering::Greater,
        compare_spec(a, b) == Ordering::Equal <==> a == b,
        compare_spec(a, b) == Ordering::Less && compare_spec(b, c) == Ordering::Less
            ==> compare_spec(a, c) == Ordering::Less,
{
    lemma_lex_antisymmetric(key(a), key(b));
    if compare_spec(a, b) == Ordering::Equal {
        lemma_key_injective(a, b);
    }
    if compare_spec(a, b) == Ordering::Less && compare_spec(b, c) == Ordering::Less {
        lemma_lex_transitive(key(a), key(b), key(c));
    }
}

/// A hand of a stronger category beats any hand of a weaker one, whatever
/// the ranks of either.
pub proof fn lemma_category_precedence(a: HandView, b: HandView)
    requires
        category(a) < category(b),
    ensures
        compare_spec(a, b) == Ordering::Less,
        compare_spec(b, a) == Ordering::Greater,
{
    assert(key(a)[0] == category(a));
    assert(key(b)[0] == category(b));
}


/// Number of cards among `s` whose rank sits at position `k`.
pub open spec fn rank_count(s: Seq<Card>, k: int) -> nat
    decreases s.len(),
{
    if s.len() == 0 {
        0
    } else {
        rank_count(s.drop_last(), k) + if rank_index(s.last().rank) == k {
            1nat
        } else {
            0nat
        }
    }
}

/// How many cards of each rank `s` holds, by rank position.
pub open spec fn rank_counts(s: Seq<Card>) -> Seq<nat> {
    Seq::new(13, |k: int| rank_count(s, k))
}

/// The ranks at positions below `n`, highest first, each repeated as often as
/// `c` counts it.
pub open spec fn ranks_desc(c: Seq<nat>, n: nat) -> Seq<Rank>
    decreases n,
{
    if n == 0 {
        seq![]
    } else {
        Seq::new(c[n - 1], |_i: int| rank_at(n - 1)) + ranks_desc(c, (n - 1) as nat)
    }
}

/// The ranks at positions below `n` that `c` counts exactly `m` times,
/// highest first.
pub open spec fn bucket(c: Seq<nat>, m: nat, n: nat) -> Seq<Rank>
    decreases n,
{
    if n == 0 {
        seq![]
    } else {
        (if c[n - 1] == m {
            seq![rank_at(n - 1)]
        } else {
            seq![]
        }) + bucket(c, m, (n - 1) as nat)
    }
}

/// All cards share one suit.
pub open spec fn is_flush(s: Seq<Card>) -> bool {
    forall|i: int| 0 <= i < s.len() ==> #[trigger] s[i].suit == s[0].suit
}

/// Five distinct ranks Two, Three, Four, Five and Ace: the ace plays low.
pub open spec fn is_wheel(c: Seq<nat>) -> bool {
    bucket(c, 1, 13) == seq![Rank::Ace, Rank::Five, Rank::Four, Rank::Three, Rank::Two]
}

/// Five distinct ranks whose highest is four above the lowest.
pub open spec fn is_run(c: Seq<nat>) -> bool {
    let o = bucket(c, 1, 13);
    o.len() == 5 && rank_index(o[0]) == rank_index(o[4]) + 4
}

/// Five distinct ranks in a run, the ace playing high or low.
pub open spec fn is_straight(c: Seq<nat>) -> bool {
    is_run(c) || is_wheel(c)
}

/// The rank a straight is ranked by: Five for the ace-low straight, else its top.
pub open spec fn straight_high(c: Seq<nat>) -> Rank {
    if is_wheel(c) {
        Rank::Five
    } else {
        bucket(c, 1, 13)[0]
    }
}

/// The hand made of cards with the rank counts `c`, all of one suit when
/// `flush` holds. The first case that applies decides.
pub open spec fn classify_counts(c: Seq<nat>, flush: bool) -> HandView {
    let quads = bucket(c, 4, 13);
    let triples = bucket(c, 3, 13);
    let pairs = bucket(c, 2, 13);
    let singles = bucket(c, 1, 13);
    if is_straight(c) && flush {
        HandView::StraightFlush { high: straight_high(c) }
    } else if quads.len() > 0 && singles.len() > 0 {
        HandView::FourOfAKind { quad: quads[0], remaining: singles[0] }
    } else if triples.len() > 0 && pairs.len() > 0 {
        HandView::FullHouse { triple: triples[0], pair: pairs[0] }
    } else if is_straight(c) {
        HandView::Straight { high: straight_high(c) }
    } else if flush {
        HandView::Flush { ranks: ranks_desc(c, 13) }
    } else if triples.len() > 0 && singles.len() > 0 {
        HandView::ThreeOfAKind { triple: triples[0], remaining: singles }
    } else if pairs.len() == 2 && singles.len() > 0 {
        HandView::TwoPair { high_pair: pairs[0], low_pair: pairs[1], remaining: singles[0] }
    } else if pairs.len() == 1 && singles.len() > 0 {
        HandView::OnePair { pair: pairs[0], remaining: singles }
    } else {
        HandView::HighCard { ranks: ranks_desc(c, 13) }
    }
}

/// The hand that the cards `s` make.
pub open spec fn classify(s: Seq<Card>) -> HandView {
    classify_counts(rank_counts(s), is_flush(s))
}

/// The counts held in `v`, as natural numbers.
pub open spec fn as_nats(v: Seq<u8>) -> Seq<nat> {
    v.map_values(|x: u8| x as nat)
}

proof fn lemma_rank_count_bound(s: Seq<Card>, k: int)
    ensures
        rank_count(s, k) <= s.len(),
    decreases s.len(),
{
    if s.len() > 0 {
        lemma_rank_count_bound(s.drop_last(), k);
    }
}

/// Counts the cards of each rank, by rank position.
fn count_ranks(cards: &[Card; 5]) -> (r: Vec<u8>)
    ensures
        r@.len() == 13,
        as_nats(r@) == rank_counts(cards@),
{
    let mut counts: Vec<u8> = Vec::new();
    let mut k: usize = 0;
    while k < 13
        invariant
            k <= 13,
            counts@.len() == k,
            forall|j: int| 0 <= j < k ==> counts@[j] == 0,
        decreases 13 - k,
    {
        counts.push(0);
        k = k + 1;
    }
    let mut i: usize = 0;
    while i < 5
        invariant
            i <= 5,
            counts@.len() == 13,
            forall|j: int| 0 <= j < 13 ==> counts@[j] as nat == rank_count(cards@.subrange(0, i as int), j),
        decreases 5 - i,
    {
        let ghost prev = counts@;
        let idx = cards[i].rank.index() as usize;
        proof {
            lemma_rank_count_bound(cards@.subrange(0, i as int), idx as int);
            assert(cards@.subrange(0, i + 1 as int).drop_last() =~= cards@.subrange(0, i as int));
        }
        let n = counts[idx] + 1;
        counts.set(idx, n);
        i = i + 1;
        assert forall|j: int| 0 <= j < 13 implies counts@[j] as nat == rank_count(cards@.subrange(0, i as int), j) by {
            assert(cards@.subrange(0, i as int).drop_last() =~= cards@.subrange(0, i - 1 as int));
        }
    }
    assert(cards@.subrange(0, 5) =~= cards@);
    assert(as_nats(counts@) =~= rank_counts(cards@));
    counts
}

/// The ranks that `counts` holds, highest first, each as often as counted.
fn ranks_from_counts(counts: &Vec<u8>) -> (r: Vec<Rank>)
    requires
        counts@.len() == 13,
    ensures
        r@ == ranks_desc(as_nats(counts@), 13),
{
    let ghost c = as_nats(counts@);
    let mut out: Vec<Rank> = Vec::new();
    let mut n: u8 = 13;
    assert(out@ + ranks_desc(c, 13) =~= ranks_desc(c, 13));
    while n > 0
        invariant
            n <= 13,
            counts@.len() == 13,
            c == as_nats(counts@),
            out@ + ranks_desc(c, n as nat) == ranks_desc(c, 13),
        decreases n,
    {
        let rank = Rank::from_index(n - 1);
        let times = counts[(n - 1) as usize];
        let ghost before = out@;
        let mut t: u8 = 0;
        while t < times
            invariant
                t <= times,
                rank == rank_at(n - 1),
                out@ == before + Seq::new(t as nat, |_i: int| rank_at(n - 1)),
            decreases times - t,
        {
            out.push(rank);
            t = t + 1;
            assert(out@ =~= before + Seq::new(t as nat, |_i: int| rank_at(n - 1)));
        }
        assert(c[n - 1] == times as nat);
        assert(before + ranks_desc(c, n as nat) =~= out@ + ranks_desc(c, (n - 1) as nat));
        n = n - 1;
    }
    assert(out@ + ranks_desc(c, 0) =~= out@);
    out
}

/// The ranks that `counts` counts exactly `m` times, highest first.
fn bucket_of(counts: &Vec<u8>, m: u8) -> (r: Vec<Rank>)
    requires
        counts@.len() == 13,
    ensures
        r@ == bucket(as_nats(counts@), m as nat, 13),
{
    let ghost c = as_nats(counts@);
    let mut out: Vec<Rank> = Vec::new();
    let mut n: u8 = 13;
    assert(out@ + bucket(c, m as nat, 13) =~= bucket(c, m as nat, 13));
    while n > 0
        invariant
            n <= 13,
            counts@.len() == 13,
            c == as_nats(counts@),
            out@ + bucket(c, m as nat, n as nat) == bucket(c, m as nat, 13),
        decreases n,
    {
        let ghost before = out@;
        if counts[(n - 1) as usize] == m {
            out.push(Rank::from_index(n - 1));
        }
        assert(before + bucket(c, m as nat, n as nat) =~= out@ + bucket(c, m as nat, (n - 1) as nat));
        n = n - 1;
    }
    assert(out@ + bucket(c, m as nat, 0) =~= out@);
    out
}


/// Whether all five cards share one suit.
fn all_one_suit(cards: &[Card; 5]) -> (r: bool)
    ensures
        r == is_flush(cards@),
{
    let mut i: usize = 1;
    while i < 5
        invariant
            1 <= i <= 5,
            forall|j: int| 0 <= j < i ==> #[trigger] cards@[j].suit == cards@[0].suit,
        decreases 5 - i,
    {
        if cards[i].suit != cards[0].suit {
            return false;
        }
        i = i + 1;
    }
    true
}

/// Classifies five cards into a hand. The result depends only on how many
/// cards of each rank there are and on whether all share one suit, so the
/// order of the cards does not matter.
pub fn to_hand(cards: [Card; 5]) -> (r: Hand)
    ensures
        r@ == classify(cards@),
{
    let counts = count_ranks(&cards);
    let flush = all_one_suit(&cards);
    let ghost c = as_nats(counts@);
    let quads = bucket_of(&counts, 4);
    let triples = bucket_of(&counts, 3);
    let pairs = bucket_of(&counts, 2);
    let singles = bucket_of(&counts, 1);
    let is_wheel = singles.len() == 5 && singles[0] == Rank::Ace && singles[1] == Rank::Five
        && singles[2] == Rank::Four && singles[3] == Rank::Three && singles[4] == Rank::Two;
    proof {
        if singles@.len() == 5 {
            assert(is_wheel == (singles@ =~= seq![Rank::Ace, Rank::Five, Rank::Four, Rank::Three, Rank::Two]));
        } else {
            assert(singles@ != seq![Rank::Ace, Rank::Five, Rank::Four, Rank::Three, Rank::Two]);
        }
    }
    let is_straight = is_wheel || (singles.len() == 5 && singles[0].index() == singles[4].index() + 4);
    if is_straight {
        let high = if is_wheel {
            Rank::Five
        } else {
            singles[0]
        };
        if flush {
            return Hand::StraightFlush { high };
        }
        if quads.len() == 0 && !(triples.len() > 0 && pairs.len() > 0) {
            return Hand::Straight { high };
        }
    }
    if quads.len() > 0 && singles.len() > 0 {
        Hand::FourOfAKind { quad: quads[0], remaining: singles[0] }
    } else if triples.len() > 0 && pairs.len() > 0 {
        Hand::FullHouse { triple: triples[0], pair: pairs[0] }
    } else if flush {
        Hand::Flush { ranks: ranks_from_counts(&counts) }
    } else if triples.len() > 0 && singles.len() > 0 {
        Hand::ThreeOfAKind { triple: triples[0], remaining: singles }
    } else if pairs.len() == 2 && singles.len() > 0 {
        Hand::TwoPair { high_pair: pairs[0], low_pair: pairs[1], remaining: singles[0] }
    } else if pairs.len() == 1 && singles.len() > 0 {
        Hand::OnePair { pair: pairs[0], remaining: singles }
    } else {
        Hand::HighCard { ranks: ranks_from_counts(&counts) }
    }
}


/// Number of cards of the rank at position `k` in the multiset `m`.
spec fn suit_sum(m: Multiset<Card>, k: int) -> nat {
    m.count(Card { rank: rank_at(k), suit: Suit::Spades }) + m.count(
        Card { rank: rank_at(k), suit: Suit::Hearts },
    ) + m.count(Card { rank: rank_at(k), suit: Suit::Diamonds }) + m.count(
        Card { rank: rank_at(k), suit: Suit::Clubs },
    )
}

proof fn lemma_rank_count_multiset(s: Seq<Card>, k: int)
    requires
        0 <= k < 13,
    ensures
        rank_count(s, k) == suit_sum(s.to_multiset(), k),
    decreases s.len(),
{
    broadcast use vstd::seq_lib::group_to_multiset_ensures;

    if s.len() == 0 {
        assert(s.to_multiset() =~= Multiset::empty());
    } else {
        let t = s.drop_last();
        let x = s.last();
        lemma_rank_count_multiset(t, k);
        assert(s =~= t.push(x));
        assert(s.to_multiset() =~= t.to_multiset().insert(x));
        crate::types::lemma_rank_index_inverse(x.rank);
        crate::types::lemma_rank_at_inverse(k);
    }
}

/// Classification does not depend on the order of the cards: two sequences
/// that hold the same cards, each as often, make the same hand.
pub proof fn lemma_classify_order_independent(a: Seq<Card>, b: Seq<Card>)
    requires
        a.to_multiset() == b.to_multiset(),
    ensures
        classify(a) == classify(b),
{
    broadcast use vstd::seq_lib::group_to_multiset_ensures;

    assert forall|k: int| 0 <= k < 13 implies rank_count(a, k) == rank_count(b, k) by {
        lemma_rank_count_multiset(a, k);
        lemma_rank_count_multiset(b, k);
    }
    assert(rank_counts(a) =~= rank_counts(b));
    assert(a.len() == b.len()) by {
        assert(a.len() == a.to_multiset().len());
        assert(b.len() == b.to_multiset().len());
    }
    if is_flush(a) && a.len() > 0 {
        assert(b.contains(b[0]));
        assert forall|i: int| 0 <= i < b.len() implies #[trigger] b[i].suit == b[0].suit by {
            assert(b.contains(b[i]));
            assert(a.to_multiset().count(b[i]) > 0);
            assert(a.to_multiset().count(b[0]) > 0);
            assert(a.contains(b[i]));
            assert(a.contains(b[0]));
        }
    }
    if is_flush(b) && b.len() > 0 {
        assert(a.contains(a[0]));
        assert forall|i: int| 0 <= i < a.len() implies #[trigger] a[i].suit == a[0].suit by {
            assert(a.contains(a[i]));
            assert(b.to_multiset().count(a[i]) > 0);
            assert(b.to_multiset().count(a[0]) > 0);
            assert(b.contains(a[i]));
            assert(b.contains(a[0]));
        }
    }
}


/// The views of a list of hands.
pub open spec fn views(hs: Seq<Hand>) -> Seq<HandView> {
    hs.map_values(|h: Hand| h@)
}

/// No hand of `hs` beats the one at `i`.
pub open spec fn is_best(hs: Seq<HandView>, i: int) -> bool {
    forall|j: int| 0 <= j < hs.len() ==> compare_spec(#[trigger] hs[j], hs[i]) != Ordering::Greater
}

/// The labels, among the first `n`, of the hands that no hand of `hs`
/// beats, in their order.
pub open spec fn winners<L>(labels: Seq<L>, hs: Seq<HandView>, n: nat) -> Seq<L>
    decreases n,
{
    if n == 0 {
        seq![]
    } else {
        winners(labels, hs, (n - 1) as nat) + if is_best(hs, n - 1) {
            seq![labels[n - 1]]
        } else {
            seq![]
        }
    }
}

/// The labels, among the first `n`, of the hands equal to `x`, in their order.
spec fn ties<L>(labels: Seq<L>, hs: Seq<HandView>, x: HandView, n: nat) -> Seq<L>
    decreases n,
{
    if n == 0 {
        seq![]
    } else {
        ties(labels, hs, x, (n - 1) as nat) + if hs[n - 1] == x {
            seq![labels[n - 1]]
        } else {
            seq![]
        }
    }
}

proof fn lemma_ties_none<L>(labels: Seq<L>, hs: Seq<HandView>, x: HandView, n: nat)
    requires
        forall|j: int| 0 <= j < n ==> hs[j] != x,
    ensures
        ties(labels, hs, x, n) == Seq::<L>::empty(),
    decreases n,
{
    if n > 0 {
        lemma_ties_none(labels, hs, x, (n - 1) as nat);
        assert(ties(labels, hs, x, n) =~= Seq::<L>::empty());
    }
}

proof fn lemma_winners_are_ties<L>(labels: Seq<L>, hs: Seq<HandView>, b: int, n: nat)
    requires
        0 <= b < hs.len(),
        n <= hs.len(),
        is_best(hs, b),
    ensures
        winners(labels, hs, n) == ties(labels, hs, hs[b], n),
    decreases n,
{
    if n > 0 {
        lemma_winners_are_ties(labels, hs, b, (n - 1) as nat);
        let h = hs[n - 1];
        lemma_compare_total_order(h, hs[b], h);
        lemma_compare_total_order(hs[b], h, h);
        if h == hs[b] {
            assert forall|j: int| 0 <= j < hs.len() implies compare_spec(#[trigger] hs[j], hs[n - 1])
                != Ordering::Greater by {
                assert(compare_spec(hs[j], hs[b]) != Ordering::Greater);
            }
        }
    }
}

/// The labels of the hands that no other hand beats, in their order. A hand
/// that beats the best so far replaces the winners; one equal to it joins them.
pub fn select_winners<'a>(labels: &[&'a str], hands: &[Hand]) -> (r: Vec<&'a str>)
    requires
        labels@.len() == hands@.len(),
    ensures
        r@ == winners(labels@, views(hands@), hands@.len() as nat),
{
    let ghost hs = views(hands@);
    let mut out: Vec<&'a str> = Vec::new();
    if hands.len() == 0 {
        assert(out@ =~= winners(labels@, hs, 0));
        return out;
    }
    let mut best: usize = 0;
    let mut best_key = hands[0].key();
    out.push(labels[0]);
    assert(ties(labels@, hs, hs[0], 0) =~= Seq::<&'a str>::empty());
    assert(out@ =~= ties(labels@, hs, hs[0], 1));
    proof {
        lemma_compare_total_order(hs[0], hs[0], hs[0]);
    }
    let mut i: usize = 1;
    while i < hands.len()
        invariant
            1 <= i <= hands@.len(),
            labels@.len() == hands@.len(),
            hs == views(hands@),
            hs.len() == hands@.len(),
            best < i,
            best_key@ == key(hs[best as int]),
            forall|j: int| 0 <= j < i ==> compare_spec(#[trigger] hs[j], hs[best as int]) != Ordering::Greater,
            out@ == ties(labels@, hs, hs[best as int], i as nat),
        decreases hands@.len() - i,
    {
        let k = hands[i].key();
        let ord = lex_compare(&k, &best_key);
        let ghost h = hs[i as int];
        let ghost old_best = hs[best as int];
        proof {
            lemma_compare_total_order(h, old_best, h);
        }
        match ord {
            Ordering::Greater => {
                assert forall|j: int| 0 <= j < i implies hs[j] != h by {
                    lemma_compare_total_order(hs[j], old_best, h);
                    lemma_compare_total_order(old_best, h, h);
                    if compare_spec(hs[j], old_best) == Ordering::Equal {
                        assert(hs[j] == old_best);
                    }
                }
                assert forall|j: int| 0 <= j <= i implies compare_spec(#[trigger] hs[j], h)
                    != Ordering::Greater by {
                    lemma_compare_total_order(hs[j], old_best, h);
                    lemma_compare_total_order(old_best, h, h);
                    lemma_compare_total_order(h, h, h);
                    if compare_spec(hs[j], old_best) == Ordering::Equal {
                        assert(hs[j] == old_best);
                    }
                }
                proof {
                    lemma_ties_none(labels@, hs, h, i as nat);
                }
                best = i;
                best_key = k;
                out = Vec::new();
                out.push(labels[i]);
                assert(out@ =~= ties(labels@, hs, h, (i + 1) as nat));
            },
            Ordering::Equal => {
                out.push(labels[i]);
                assert(out@ =~= ties(labels@, hs, old_best, (i + 1) as nat));
            },
            Ordering::Less => {
                assert(out@ =~= ties(labels@, hs, old_best, (i + 1) as nat));
            },
        }
        i = i + 1;
    }
    proof {
        lemma_winners_are_ties(labels@, hs, best as int, hs.len());
    }
    out
}

/// The hands of the texts `hs`, each read and classified; meaningful where
/// every text reads as a hand.
pub open spec fn classified(hs: Seq<&str>) -> Seq<HandView> {
    Seq::new(hs.len(), |i: int| classify(parse_hand(words_of(hs[i]@))->Ok_0))
}

/// Reads and classifies every hand, then returns the texts of the winning
/// hands in their order. The first text that is no hand stops the work and
/// gives the error.
pub fn find_winners<'a>(hands_str: &[&'a str]) -> (r: Result<Vec<&'a str>, ParseError>)
    ensures
        match r {
            Ok(w) => {
                &&& forall|i: int| 0 <= i < hands_str@.len() ==> #[trigger] parse_hand(words_of(hands_str@[i]@)) is Ok
                &&& w@ == winners(hands_str@, classified(hands_str@), hands_str@.len() as nat)
            },
            Err(e) => exists|i: int| {
                &&& 0 <= i < hands_str@.len()
                &&& #[trigger] parse_hand(words_of(hands_str@[i]@)) == Err::<Seq<Card>, ParseErrorView>(e@)
                &&& forall|j: int| 0 <= j < i ==> #[trigger] parse_hand(words_of(hands_str@[j]@)) is Ok
            },
        },
{
    let mut hands: Vec<Hand> = Vec::new();
    let mut i: usize = 0;
    while i < hands_str.len()
        invariant
            i <= hands_str@.len(),
            hands@.len() == i,
            forall|j: int| 0 <= j < i ==> #[trigger] parse_hand(words_of(hands_str@[j]@)) is Ok,
            forall|j: int| 0 <= j < i ==> #[trigger] hands@[j]@ == classified(hands_str@)[j],
        decreases hands_str@.len() - i,
    {
        match Card::five_cards_from_str(hands_str[i]) {
            Ok(cards) => {
                hands.push(to_hand(cards));
            },
            Err(e) => {
                return Err(e);
            },
        }
        i = i + 1;
    }
    assert(views(hands@) =~= classified(hands_str@));
    Ok(select_winners(hands_str, hands.as_slice()))
}

/// A single hand that reads well always wins alone: `find_winners` then
/// returns its text and nothing else.
pub proof fn lemma_single_hand_wins(text: &str)
    ensures
        winners(seq![text], classified(seq![text]), 1) == seq![text],
{
    let h = classified(seq![text])[0];
    assert(classified(seq![text]) =~= seq![h]);
    lemma_compare_total_order(h, h, h);
    assert(is_best(seq![h], 0));
    assert(winners(seq![text], seq![h], 0) =~= Seq::<&str>::empty());
    assert(winners(seq![text], seq![h], 1) =~= seq![text]);
}

proof fn lemma_counts_of_five(s: Seq<Card>)
    requires
        s.len() == 5,
    ensures
        rank_counts(s) == Seq::new(
            13,
            |k: int|
                (if rank_index(s[0].rank) == k { 1nat } else { 0nat }) + (if rank_index(s[1].rank) == k {
                    1nat
                } else {
                    0nat
                }) + (if rank_index(s[2].rank) == k { 1nat } else { 0nat }) + (if rank_index(s[3].rank)
                    == k {
                    1nat
                } else {
                    0nat
                }) + (if rank_index(s[4].rank) == k { 1nat } else { 0nat }),
        ),
{
    reveal_with_fuel(rank_count, 6);
    assert(s.drop_last().drop_last().drop_last().drop_last().drop_last().len() == 0);
    assert(rank_counts(s) =~= Seq::new(
        13,
        |k: int|
            (if rank_index(s[0].rank) == k { 1nat } else { 0nat }) + (if rank_index(s[1].rank) == k {
                1nat
            } else {
                0nat
            }) + (if rank_index(s[2].rank) == k { 1nat } else { 0nat }) + (if rank_index(s[3].rank)
                == k {
                1nat
            } else {
                0nat
            }) + (if rank_index(s[4].rank) == k { 1nat } else { 0nat }),
    ));
}

/// The ranks of a sequence of cards.
pub open spec fn ranks_of(s: Seq<Card>) -> Seq<Rank> {
    s.map_values(|c: Card| c.rank)
}

proof fn lemma_rank_count_ranks(s: Seq<Card>, k: int)
    requires
        0 <= k < 13,
    ensures
        rank_count(s, k) == ranks_of(s).to_multiset().count(rank_at(k)),
    decreases s.len(),
{
    broadcast use vstd::seq_lib::group_to_multiset_ensures;

    if s.len() == 0 {
        assert(ranks_of(s) =~= Seq::<Rank>::empty());
        assert(ranks_of(s).to_multiset() =~= Multiset::empty());
    } else {
        let t = s.drop_last();
        let x = s.last();
        lemma_rank_count_ranks(t, k);
        assert(ranks_of(s) =~= ranks_of(t).push(x.rank));
        assert(ranks_of(s).to_multiset() =~= ranks_of(t).to_multiset().insert(x.rank));
        crate::types::lemma_rank_index_inverse(x.rank);
        crate::types::lemma_rank_at_inverse(k);
    }
}

proof fn lemma_same_ranks_same_counts(a: Seq<Card>, b: Seq<Card>)
    requires
        ranks_of(a).to_multiset() == ranks_of(b).to_multiset(),
    ensures
        rank_counts(a) == rank_counts(b),
{
    assert forall|k: int| 0 <= k < 13 implies rank_count(a, k) == rank_count(b, k) by {
        lemma_rank_count_ranks(a, k);
        lemma_rank_count_ranks(b, k);
    }
    assert(rank_counts(a) =~= rank_counts(b));
}

/// Five spades with the given ranks, in order.
spec fn spades(r: Seq<Rank>) -> Seq<Card> {
    Seq::new(5, |i: int| Card { rank: r[i], suit: Suit::Spades })
}

/// The ace-low straight is the weakest straight. Five cards ranked Two,
/// Three, Four, Five and Ace, in any order, make a straight (a straight flush
/// when all share one suit) ranked by its Five. It loses to the straight Two
/// to Six of the same kind, and beats every hand of a category below the
/// straight.
pub proof fn lemma_ace_low_straight(a: Seq<Card>, b: Seq<Card>, h: HandView)
    requires
        ranks_of(a).to_multiset() == seq![Rank::Two, Rank::Three, Rank::Four, Rank::Five, Rank::Ace].to_multiset(),
        ranks_of(b).to_multiset() == seq![Rank::Two, Rank::Three, Rank::Four, Rank::Five, Rank::Six].to_multiset(),
        category(h) < 5,
    ensures
        !is_flush(a) ==> classify(a) == (HandView::Straight { high: Rank::Five }),
        is_flush(a) ==> classify(a) == (HandView::StraightFlush { high: Rank::Five }),
        !is_flush(b) ==> classify(b) == (HandView::Straight { high: Rank::Six }),
        is_flush(b) ==> classify(b) == (HandView::StraightFlush { high: Rank::Six }),
        is_flush(a) == is_flush(b) ==> compare_spec(classify(a), classify(b)) == Ordering::Less,
        compare_spec(classify(a), h) == Ordering::Greater,
{
    let wa = seq![Rank::Two, Rank::Three, Rank::Four, Rank::Five, Rank::Ace];
    let wb = seq![Rank::Two, Rank::Three, Rank::Four, Rank::Five, Rank::Six];
    let oa = spades(wa);
    let ob = spades(wb);
    assert(ranks_of(oa) =~= wa);
    assert(ranks_of(ob) =~= wb);
    lemma_same_ranks_same_counts(a, oa);
    lemma_same_ranks_same_counts(b, ob);
    reveal_with_fuel(bucket, 14);
    lemma_counts_of_five(oa);
    lemma_counts_of_five(ob);
    let ca = rank_counts(a);
    let cb = rank_counts(b);
    assert(bucket(ca, 1, 13) =~= seq![Rank::Ace, Rank::Five, Rank::Four, Rank::Three, Rank::Two]);
    assert(bucket(ca, 4, 13) =~= Seq::<Rank>::empty());
    assert(bucket(ca, 3, 13) =~= Seq::<Rank>::empty());
    assert(bucket(cb, 1, 13) =~= seq![Rank::Six, Rank::Five, Rank::Four, Rank::Three, Rank::Two]);
    assert(bucket(cb, 4, 13) =~= Seq::<Rank>::empty());
    assert(bucket(cb, 3, 13) =~= Seq::<Rank>::empty());
    assert(bucket(cb, 1, 13) != seq![Rank::Ace, Rank::Five, Rank::Four, Rank::Three, Rank::Two]);
    assert(key(HandView::Straight { high: Rank::Five }) =~= seq![5u8, 3u8]);
    assert(key(HandView::Straight { high: Rank::Six }) =~= seq![5u8, 4u8]);
    assert(key(HandView::StraightFlush { high: Rank::Five }) =~= seq![9u8, 3u8]);
    assert(key(HandView::StraightFlush { high: Rank::Six }) =~= seq![9u8, 4u8]);
    assert(seq![5u8, 3u8].drop_first() =~= seq![3u8]);
    assert(seq![5u8, 4u8].drop_first() =~= seq![4u8]);
    assert(seq![9u8, 3u8].drop_first() =~= seq![3u8]);
    assert(seq![9u8, 4u8].drop_first() =~= seq![4u8]);
    assert(lex(seq![3u8], seq![4u8]) == Ordering::Less);
    lemma_category_precedence(h, classify(a));
}

/// The order on hands carries over to the winners: when the hand `a` beats
/// `b` and `b` beats `c`, then `a` alone wins against `c`, and `a` alone wins
/// among all three, whatever their order.
pub proof fn lemma_winners_transitive<L>(x: L, y: L, z: L, a: HandView, b: HandView, c: HandView)
    requires
        compare_spec(a, b) == Ordering::Greater,
        compare_spec(b, c) == Ordering::Greater,
    ensures
        winners(seq![x, z], seq![a, c], 2) == seq![x],
        winners(seq![z, x], seq![c, a], 2) == seq![x],
        winners(seq![z, y, x], seq![c, b, a], 3) == seq![x],
        winners(seq![x, y, z], seq![a, b, c], 3) == seq![x],
{
    lemma_compare_total_order(a, b, c);
    lemma_compare_total_order(b, a, c);
    lemma_compare_total_order(c, b, a);
    lemma_compare_total_order(b, c, a);
    lemma_compare_total_order(a, c, b);
    lemma_compare_total_order(c, a, b);
    lemma_compare_total_order(a, a, a);
    reveal_with_fuel(winners, 4);
    let s2 = seq![a, c];
    assert(is_best(s2, 0)) by {
        assert(s2[1] == c);
    }
    assert(!is_best(s2, 1)) by {
        assert(compare_spec(s2[0], s2[1]) == Ordering::Greater);
    }
    assert(winners(seq![x, z], s2, 2) =~= seq![x]);
    let r2 = seq![c, a];
    assert(is_best(r2, 1)) by {
        assert(r2[0] == c);
    }
    assert(!is_best(r2, 0)) by {
        assert(compare_spec(r2[1], r2[0]) == Ordering::Greater);
    }
    assert(winners(seq![z, x], r2, 2) =~= seq![x]);
    let s3 = seq![c, b, a];
    assert(is_best(s3, 2)) by {
        assert(s3[0] == c && s3[1] == b);
    }
    assert(!is_best(s3, 0)) by {
        assert(compare_spec(s3[2], s3[0]) == Ordering::Greater);
    }
    assert(!is_best(s3, 1)) by {
        assert(compare_spec(s3[2], s3[1]) == Ordering::Greater);
    }
    assert(winners(seq![z, y, x], s3, 3) =~= seq![x]);
    let t3 = seq![a, b, c];
    assert(is_best(t3, 0)) by {
        assert(t3[1] == b && t3[2] == c);
    }
    assert(!is_best(t3, 1)) by {
        assert(compare_spec(t3[0], t3[1]) == Ordering::Greater);
    }
    assert(!is_best(t3, 2)) by {
        assert(compare_spec(t3[0], t3[2]) == Ordering::Greater);
    }
    assert(winners(seq![x, y, z], t3, 3) =~= seq![x]);
}

/// When the first of two differently labelled hands wins alone, it beats
/// the second.
proof fn lemma_lone_first_winner_beats<L>(x: L, y: L, a: HandView, b: HandView)
    requires
        x != y,
        winners(seq![x, y], seq![a, b], 2) == seq![x],
    ensures
        compare_spec(a, b) == Ordering::Greater,
{
    reveal_with_fuel(winners, 3);
    let s = seq![a, b];
    lemma_compare_total_order(b, b, b);
    if is_best(s, 1) {
        assert(winners(seq![x, y], s, 2).last() == y);
    }
    assert(!is_best(s, 1));
    let j = choose|j: int| 0 <= j < s.len() && compare_spec(#[trigger] s[j], s[1]) == Ordering::Greater;
    assert(j == 0);
}

/// The order that `find_winners` shows between pairs of hands is
/// transitive: when `x` alone wins against `y`, and `y` alone wins against
/// `z`, then `x` alone wins against `z`, and alone among all three in
/// either order.
pub proof fn lemma_winners_transitive_by_results<L>(
    x: L,
    y: L,
    z: L,
    a: HandView,
    b: HandView,
    c: HandView,
)
    requires
        x != y,
        y != z,
        winners(seq![x, y], seq![a, b], 2) == seq![x],
        winners(seq![y, z], seq![b, c], 2) == seq![y],
    ensures
        winners(seq![x, z], seq![a, c], 2) == seq![x],
        winners(seq![z, y, x], seq![c, b, a], 3) == seq![x],
        winners(seq![x, y, z], seq![a, b, c], 3) == seq![x],
{
    lemma_lone_first_winner_beats(x, y, a, b);
    lemma_lone_first_winner_beats(y, z, b, c);
    lemma_winners_transitive(x, y, z, a, b, c);
}

} // verus!
