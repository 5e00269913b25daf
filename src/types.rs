//! Ranks, suits and cards.

use vstd::prelude::*;
use vstd::string::StrSliceExecFns;
use crate::errors::{ParseError, ParseErrorView};

verus! {

/// Card ranks, from lowest to highest.
#[derive(Debug, PartialEq, Eq, Structural, PartialOrd, Ord, Hash, Copy, Clone)]
pub enum Rank {
    Two,
    Three,
    Four,
    Five,
    Six,
    Seven,
    Eight,
    Nine,
    Ten,
    Jack,
    Queen,
    King,
    Ace,
}

/// Position of a rank in the order Two < Three < ... < Ace, from 0 to 12.
pub open spec fn rank_index(r: Rank) -> u8 {
    match r {
        Rank::Two => 0,
        Rank::Three => 1,
        Rank::Four => 2,
        Rank::Five => 3,
        Rank::Six => 4,
        Rank::Seven => 5,
        Rank::Eight => 6,
        Rank::Nine => 7,
        Rank::Ten => 8,
        Rank::Jack => 9,
        Rank::Queen => 10,
        Rank::King => 11,
        Rank::Ace => 12,
    }
}

/// The rank at a position; inverse of `rank_index` on 0..13.
pub open spec fn rank_at(i: int) -> Rank {
    if i <= 0 {
        Rank::Two
    } else if i == 1 {
        Rank::Three
    } else if i == 2 {
        Rank::Four
    } else if i == 3 {
        Rank::Five
    } else if i == 4 {
        Rank::Six
    } else if i == 5 {
        Rank::Seven
    } else if i == 6 {
        Rank::Eight
    } else if i == 7 {
        Rank::Nine
    } else if i == 8 {
        Rank::Ten
    } else if i == 9 {
        Rank::Jack
    } else if i == 10 {
        Rank::Queen
    } else if i == 11 {
        Rank::King
    } else {
        Rank::Ace
    }
}

/// `rank_at` undoes `rank_index`.
pub proof fn lemma_rank_index_inverse(r: Rank)
    ensures
        rank_index(r) < 13,
        rank_at(rank_index(r) as int) == r,
{
}

/// `rank_index` undoes `rank_at` on positions 0 to 12.
pub proof fn lemma_rank_at_inverse(i: int)
    requires
        0 <= i < 13,
    ensures
        rank_index(rank_at(i)) as int == i,
{
}

impl Rank {
    /// Position of the rank, Two being 0 and Ace 12.
    pub fn index(&self) -> (r: u8)
        ensures
            r == rank_index(*self),
    {
        match self {
            Rank::Two => 0,
            Rank::Three => 1,
            Rank::Four => 2,
            Rank::Five => 3,
            Rank::Six => 4,
            Rank::Seven => 5,
            Rank::Eight => 6,
            Rank::Nine => 7,
            Rank::Ten => 8,
            Rank::Jack => 9,
            Rank::Queen => 10,
            Rank::King => 11,
            Rank::Ace => 12,
        }
    }

    /// The rank at position `i`.
    pub fn from_index(i: u8) -> (r: Rank)
        requires
            i < 13,
        ensures
            r == rank_at(i as int),
            rank_index(r) == i,
    {
        match i {
            0 => Rank::Two,
            1 => Rank::Three,
            2 => Rank::Four,
            3 => Rank::Five,
            4 => Rank::Six,
            5 => Rank::Seven,
            6 => Rank::Eight,
            7 => Rank::Nine,
            8 => Rank::Ten,
            9 => Rank::Jack,
            10 => Rank::Queen,
            11 => Rank::King,
            _ => Rank::Ace,
        }
    }
}

/// Card suits; they are only ever compared for equality.
#[derive(Debug, PartialEq, Eq, Structural, Copy, Clone, Hash)]
pub enum Suit {
    Spades,
    Hearts,
    Diamonds,
    Clubs,
}

/// The suit that a letter names.
pub open spec fn suit_of_char(c: char) -> Option<Suit> {
    if c == 'S' {
        Some(Suit::Spades)
    } else if c == 'H' {
        Some(Suit::Hearts)
    } else if c == 'D' {
        Some(Suit::Diamonds)
    } else if c == 'C' {
        Some(Suit::Clubs)
    } else {
        None
    }
}

impl Suit {
    /// Reads a suit from its letter: S, H, D or C.
    pub fn from_char(c: char) -> (r: Result<Suit, ParseError>)
        ensures
            match suit_of_char(c) {
                Some(s) => r == Ok::<Suit, ParseError>(s),
                None => r == Err::<Suit, ParseError>(ParseError::InvalidSuit(c)),
            },
    {
        match c {
            'S' => Ok(Suit::Spades),
            'H' => Ok(Suit::Hearts),
            'D' => Ok(Suit::Diamonds),
            'C' => Ok(Suit::Clubs),
            _ => Err(ParseError::InvalidSuit(c)),
        }
    }
}

/// The rank that a token names: 2 to 10, J, Q, K or A.
pub open spec fn rank_of_token(t: Seq<char>) -> Option<Rank> {
    if t == seq!['1', '0'] {
        Some(Rank::Ten)
    } else if t.len() != 1 {
        None
    } else if t[0] == '2' {
        Some(Rank::Two)
    } else if t[0] == '3' {
        Some(Rank::Three)
    } else if t[0] == '4' {
        Some(Rank::Four)
    } else if t[0] == '5' {
        Some(Rank::Five)
    } else if t[0] == '6' {
        Some(Rank::Six)
    } else if t[0] == '7' {
        Some(Rank::Seven)
    } else if t[0] == '8' {
        Some(Rank::Eight)
    } else if t[0] == '9' {
        Some(Rank::Nine)
    } else if t[0] == 'J' {
        Some(Rank::Jack)
    } else if t[0] == 'Q' {
        Some(Rank::Queen)
    } else if t[0] == 'K' {
        Some(Rank::King)
    } else if t[0] == 'A' {
        Some(Rank::Ace)
    } else {
        None
    }
}

impl Rank {
    /// Reads a rank from its token.
    pub fn parse(s: &str) -> (r: Result<Rank, ParseError>)
        ensures
            match r {
                Ok(rank) => rank_of_token(s@) == Some(rank),
                Err(e) => rank_of_token(s@) is None && e@ == ParseErrorView::InvalidRank(s@),
            },
    {
        let n = s.unicode_len();
        if n == 1 {
            let c = s.get_char(0);
            match c {
                '2' => return Ok(Rank::Two),
                '3' => return Ok(Rank::Three),
                '4' => return Ok(Rank::Four),
                '5' => return Ok(Rank::Five),
                '6' => return Ok(Rank::Six),
                '7' => return Ok(Rank::Seven),
                '8' => return Ok(Rank::Eight),
                '9' => return Ok(Rank::Nine),
                'J' => return Ok(Rank::Jack),
                'Q' => return Ok(Rank::Queen),
                'K' => return Ok(Rank::King),
                'A' => return Ok(Rank::Ace),
                _ => {},
            }
        } else if n == 2 {
            if s.get_char(0) == '1' && s.get_char(1) == '0' {
                assert(s@ =~= seq!['1', '0']);
                return Ok(Rank::Ten);
            }
        }
        assert(s@ != seq!['1', '0']);
        Err(ParseError::InvalidRank(s.to_owned()))
    }
}

impl std::str::FromStr for Rank {
    type Err = ParseError;

    /// Reads a rank from its token, as [`Rank::parse`] does.
    fn from_str(s: &str) -> (r: Result<Rank, ParseError>)
        ensures
            match r {
                Ok(rank) => rank_of_token(s@) == Some(rank),
                Err(e) => rank_of_token(s@) is None && e@ == ParseErrorView::InvalidRank(s@),
            },
    {
        Rank::parse(s)
    }
}

/// A single card.
#[derive(Debug, PartialEq, Eq, Structural, Copy, Clone)]
pub struct Card {
    pub rank: Rank,
    pub suit: Suit,
}


/// What reading a card from its token gives: the rank is the token but its
/// last character, which names the suit; the rank is read first.
pub open spec fn parse_card(t: Seq<char>) -> Result<Card, ParseErrorView> {
    if t.len() == 0 {
        Err(ParseErrorView::EmptyCardStr)
    } else {
        match rank_of_token(t.drop_last()) {
            None => Err(ParseErrorView::InvalidRank(t.drop_last())),
            Some(rank) => match suit_of_char(t.last()) {
                None => Err(ParseErrorView::InvalidSuit(t.last())),
                Some(suit) => Ok(Card { rank, suit }),
            },
        }
    }
}

/// Reads the cards of `ts` in order, stopping at the first token that is no card.
pub open spec fn parse_cards(ts: Seq<Seq<char>>) -> Result<Seq<Card>, ParseErrorView>
    decreases ts.len(),
{
    if ts.len() == 0 {
        Ok(seq![])
    } else {
        match parse_cards(ts.drop_last()) {
            Err(e) => Err(e),
            Ok(cs) => match parse_card(ts.last()) {
                Err(e) => Err(e),
                Ok(c) => Ok(cs.push(c)),
            },
        }
    }
}

/// What reading a hand from its tokens gives: the empty-input error when
/// there is no token, else exactly five cards or the first error.
pub open spec fn parse_hand(ts: Seq<Seq<char>>) -> Result<Seq<Card>, ParseErrorView> {
    if ts.len() == 0 {
        Err(ParseErrorView::EmptyCardStr)
    } else {
        match parse_cards(ts) {
            Err(e) => Err(e),
            Ok(cs) => if cs.len() == 5 {
                Ok(cs)
            } else {
                Err(ParseErrorView::InvalidCardCount(cs.len()))
            },
        }
    }
}

/// The text of each token.
pub open spec fn token_views(ts: Seq<&str>) -> Seq<Seq<char>> {
    ts.map_values(|t: &str| t@)
}

/// The mathematical content of the result of reading a hand.
pub open spec fn hand_result_view(r: Result<[Card; 5], ParseError>) -> Result<Seq<Card>, ParseErrorView> {
    match r {
        Ok(cards) => Ok(cards@),
        Err(e) => Err(e@),
    }
}

/// The words of a text, as `str::split_whitespace` gives them.
pub uninterp spec fn words_of(s: Seq<char>) -> Seq<Seq<char>>;

/// Relies on `str::split_whitespace`: the words of `s` in order, which depend
/// on the text alone.
#[verifier::external_body]
fn split_words(s: &str) -> (r: Vec<&str>)
    ensures
        token_views(r@) == words_of(s@),
{
    s.split_whitespace().collect()
}

impl Card {
    /// Reads a card from its token, such as "10H" or "QS".
    pub fn parse(s: &str) -> (r: Result<Card, ParseError>)
        ensures
            match r {
                Ok(c) => parse_card(s@) == Ok::<Card, ParseErrorView>(c),
                Err(e) => parse_card(s@) == Err::<Card, ParseErrorView>(e@),
            },
    {
        let n = s.unicode_len();
        if n == 0 {
            return Err(ParseError::EmptyCardStr);
        }
        let suit_char = s.get_char(n - 1);
        let rank_str = s.substring_char(0, n - 1);
        assert(rank_str@ =~= s@.drop_last());
        let rank = match Rank::parse(rank_str) {
            Ok(rank) => rank,
            Err(e) => return Err(e),
        };
        let suit = match Suit::from_char(suit_char) {
            Ok(suit) => suit,
            Err(e) => return Err(e),
        };
        Ok(Card { rank, suit })
    }

    /// Reads five cards from the tokens of a hand. No token at all is the
    /// empty-input error. Tokens are read in order and the first one that is
    /// no card gives the error; when all are cards but there are not five,
    /// the error gives their number.
    pub fn five_cards_from_tokens(tokens: &[&str]) -> (r: Result<[Card; 5], ParseError>)
        ensures
            hand_result_view(r) == parse_hand(token_views(tokens@)),
    {
        let ghost ts = token_views(tokens@);
        if tokens.len() == 0 {
            return Err(ParseError::EmptyCardStr);
        }
        let mut cards: Vec<Card> = Vec::new();
        let mut i: usize = 0;
        assert(ts.take(0) =~= Seq::<Seq<char>>::empty());
        while i < tokens.len()
            invariant
                i <= tokens@.len(),
                ts == token_views(tokens@),
                parse_cards(ts.take(i as int)) == Ok::<Seq<Card>, ParseErrorView>(cards@),
            decreases tokens@.len() - i,
        {
            let res = Card::parse(tokens[i]);
            assert(ts.take(i + 1 as int).drop_last() =~= ts.take(i as int));
            assert(ts.take(i + 1 as int).last() == tokens@[i as int]@);
            match res {
                Ok(c) => cards.push(c),
                Err(e) => {
                    proof {
                        lemma_parse_cards_stops(ts, i as int + 1);
                        assert(ts.take(ts.len() as int) =~= ts);
                    }
                    return Err(e);
                },
            }
            i = i + 1;
        }
        assert(ts.take(i as int) =~= ts);
        if cards.len() != 5 {
            return Err(ParseError::InvalidCardCount(cards.len()));
        }
        let five = [cards[0], cards[1], cards[2], cards[3], cards[4]];
        assert(five@ =~= cards@);
        Ok(five)
    }

    /// Reads five cards from a hand such as "4S 5S 7H 8D JC": the words of
    /// the text are the tokens of [`Card::five_cards_from_tokens`], so a text
    /// that is empty or only whitespace gives the empty-input error.
    pub fn five_cards_from_str(s: &str) -> (r: Result<[Card; 5], ParseError>)
        ensures
            hand_result_view(r) == parse_hand(words_of(s@)),
    {
        let words = split_words(s);
        Card::five_cards_from_tokens(words.as_slice())
    }
}

/// Once the first `n` tokens hold one that is no card, the error stays.
proof fn lemma_parse_cards_stops(ts: Seq<Seq<char>>, n: int)
    requires
        0 <= n <= ts.len(),
        parse_cards(ts.take(n)) is Err,
    ensures
        parse_cards(ts) == parse_cards(ts.take(n)),
    decreases ts.len() - n,
{
    if n < ts.len() {
        assert(ts.take(n + 1).drop_last() =~= ts.take(n));
        lemma_parse_cards_stops(ts, n + 1);
    } else {
        assert(ts.take(n) =~= ts);
    }
}

impl std::str::FromStr for Card {
    type Err = ParseError;

    /// Reads a card from its token, as [`Card::parse`] does.
    fn from_str(s: &str) -> (r: Result<Card, ParseError>)
        ensures
            match r {
                Ok(c) => parse_card(s@) == Ok::<Card, ParseErrorView>(c),
                Err(e) => parse_card(s@) == Err::<Card, ParseErrorView>(e@),
            },
    {
        Card::parse(s)
    }
}

/// A classified hand: its category and the ranks that break ties within it.
/// Every list of ranks runs from the highest rank to the lowest, so the
/// derived order agrees with [`crate::poker::compare`].
#[derive(Debug, PartialEq, Eq, PartialOrd, Ord, Hash, Clone)]
pub enum Hand {
    HighCard { ranks: Vec<Rank> },
    OnePair { pair: Rank, remaining: Vec<Rank> },
    TwoPair { high_pair: Rank, low_pair: Rank, remaining: Rank },
    ThreeOfAKind { triple: Rank, remaining: Vec<Rank> },
    Straight { high: Rank },
    Flush { ranks: Vec<Rank> },
    FullHouse { triple: Rank, pair: Rank },
    FourOfAKind { quad: Rank, remaining: Rank },
    StraightFlush { high: Rank },
}

/// The mathematical content of a [`Hand`].
pub enum HandView {
    HighCard { ranks: Seq<Rank> },
    OnePair { pair: Rank, remaining: Seq<Rank> },
    TwoPair { high_pair: Rank, low_pair: Rank, remaining: Rank },
    ThreeOfAKind { triple: Rank, remaining: Seq<Rank> },
    Straight { high: Rank },
    Flush { ranks: Seq<Rank> },
    FullHouse { triple: Rank, pair: Rank },
    FourOfAKind { quad: Rank, remaining: Rank },
    StraightFlush { high: Rank },
}

impl View for Hand {
    type V = HandView;

    open spec fn view(&self) -> HandView {
        match self {
            Hand::HighCard { ranks } => HandView::HighCard { ranks: ranks@ },
            Hand::OnePair { pair, remaining } => HandView::OnePair { pair: *pair, remaining: remaining@ },
            Hand::TwoPair { high_pair, low_pair, remaining } => HandView::TwoPair {
                high_pair: *high_pair,
                low_pair: *low_pair,
                remaining: *remaining,
            },
            Hand::ThreeOfAKind { triple, remaining } => HandView::ThreeOfAKind {
                triple: *triple,
                remaining: remaining@,
            },
            Hand::Straight { high } => HandView::Straight { high: *high },
            Hand::Flush { ranks } => HandView::Flush { ranks: ranks@ },
            Hand::FullHouse { triple, pair } => HandView::FullHouse { triple: *triple, pair: *pair },
            Hand::FourOfAKind { quad, remaining } => HandView::FourOfAKind {
                quad: *quad,
                remaining: *remaining,
            },
            Hand::StraightFlush { high } => HandView::StraightFlush { high: *high },
        }
    }
}

/// Strength of a hand's category, from 1 (high card) to 9 (straight flush).
pub open spec fn category(h: HandView) -> u8 {
    match h {
        HandView::HighCard { .. } => 1,
        HandView::OnePair { .. } => 2,
        HandView::TwoPair { .. } => 3,
        HandView::ThreeOfAKind { .. } => 4,
        HandView::Straight { .. } => 5,
        HandView::Flush { .. } => 6,
        HandView::FullHouse { .. } => 7,
        HandView::FourOfAKind { .. } => 8,
        HandView::StraightFlush { .. } => 9,
    }
}

/// The positions of a list of ranks.
pub open spec fn indices(rs: Seq<Rank>) -> Seq<u8> {
    rs.map_values(|r: Rank| rank_index(r))
}

/// The sequence that orders hands: the category first, then the payload's
/// ranks, most significant first.
pub open spec fn key(h: HandView) -> Seq<u8> {
    seq![category(h)] + match h {
        HandView::HighCard { ranks } => indices(ranks),
        HandView::OnePair { pair, remaining } => seq![rank_index(pair)] + indices(remaining),
        HandView::TwoPair { high_pair, low_pair, remaining } => seq![
            rank_index(high_pair),
            rank_index(low_pair),
            rank_index(remaining),
        ],
        HandView::ThreeOfAKind { triple, remaining } => seq![rank_index(triple)] + indices(
            remaining,
        ),
        HandView::Straight { high } => seq![rank_index(high)],
        HandView::Flush { ranks } => indices(ranks),
        HandView::FullHouse { triple, pair } => seq![rank_index(triple), rank_index(pair)],
        HandView::FourOfAKind { quad, remaining } => seq![rank_index(quad), rank_index(remaining)],
        HandView::StraightFlush { high } => seq![rank_index(high)],
    }
}

/// Lexicographic comparison of two sequences; a proper prefix comes first.
pub open spec fn lex(a: Seq<u8>, b: Seq<u8>) -> std::cmp::Ordering
    decreases a.len(),
{
    if a.len() == 0 {
        if b.len() == 0 {
            std::cmp::Ordering::Equal
        } else {
            std::cmp::Ordering::Less
        }
    } else if b.len() == 0 {
        std::cmp::Ordering::Greater
    } else if a[0] < b[0] {
        std::cmp::Ordering::Less
    } else if a[0] > b[0] {
        std::cmp::Ordering::Greater
    } else {
        lex(a.drop_first(), b.drop_first())
    }
}

/// How two classified hands compare.
pub open spec fn compare_spec(a: HandView, b: HandView) -> std::cmp::Ordering {
    lex(key(a), key(b))
}

fn push_indices(out: &mut Vec<u8>, rs: &Vec<Rank>)
    ensures
        final(out)@ == old(out)@ + indices(rs@),
{
    let mut i: usize = 0;
    while i < rs.len()
        invariant
            i <= rs@.len(),
            out@ == old(out)@ + indices(rs@.subrange(0, i as int)),
        decreases rs@.len() - i,
    {
        out.push(rs[i].index());
        i = i + 1;
        assert(indices(rs@.subrange(0, i as int)) =~= indices(rs@.subrange(0, i - 1 as int)).push(
            rank_index(rs@[i - 1]),
        ));
    }
    assert(rs@.subrange(0, i as int) =~= rs@);
}

impl Hand {
    /// The sequence that orders this hand among all hands.
    pub fn key(&self) -> (r: Vec<u8>)
        ensures
            r@ == key(self@),
    {
        let mut out: Vec<u8> = Vec::new();
        match self {
            Hand::HighCard { ranks } => {
                out.push(1);
                push_indices(&mut out, ranks);
            },
            Hand::OnePair { pair, remaining } => {
                out.push(2);
                out.push(pair.index());
                push_indices(&mut out, remaining);
            },
            Hand::TwoPair { high_pair, low_pair, remaining } => {
                out.push(3);
                out.push(high_pair.index());
                out.push(low_pair.index());
                out.push(remaining.index());
            },
            Hand::ThreeOfAKind { triple, remaining } => {
                out.push(4);
                out.push(triple.index());
                push_indices(&mut out, remaining);
            },
            Hand::Straight { high } => {
                out.push(5);
                out.push(high.index());
            },
            Hand::Flush { ranks } => {
                out.push(6);
                push_indices(&mut out, ranks);
            },
            Hand::FullHouse { triple, pair } => {
                out.push(7);
                out.push(triple.index());
                out.push(pair.index());
            },
            Hand::FourOfAKind { quad, remaining } => {
                out.push(8);
                out.push(quad.index());
                out.push(remaining.index());
            },
            Hand::StraightFlush { high } => {
                out.push(9);
                out.push(high.index());
            },
        }
        assert(out@ =~= key(self@));
        out
    }
}

} // verus!
