use poker::poker::{compare, find_winners, select_winners, to_hand};
use poker::types::{Card, Hand, Rank, Suit};
use std::cmp::Ordering;

fn cards(s: &str) -> [Card; 5] {
    Card::five_cards_from_str(s).unwrap()
}

fn hand(s: &str) -> Hand {
    to_hand(cards(s))
}

#[test]
fn test_to_hand_four_of_a_kind() {
    let cards: [Card; 5] = [
        "3S".parse().unwrap(),
        "3H".parse().unwrap(),
        "2S".parse().unwrap(),
        "3D".parse().unwrap(),
        "3C".parse().unwrap(),
    ];
    assert_eq!(to_hand(cards), Hand::FourOfAKind { quad: Rank::Three, remaining: Rank::Two });
}

#[test]
fn test_find_winners_doc_example() {
    let hands = ["3S 3H 2S 3D 4C", "3S 3H 2S 3D 5C", "3S 3H 2S 3D 6C", "3S 3H 2S 3D 7C"];
    assert_eq!(find_winners(&hands).unwrap(), vec!["3S 3H 2S 3D 7C"]);
}

#[test]
fn test_every_category() {
    assert_eq!(hand("2S 4H 7D 9C KS"), Hand::HighCard { ranks: vec![Rank::King, Rank::Nine, Rank::Seven, Rank::Four, Rank::Two] });
    assert_eq!(hand("2S 4H 7D 4C KS"), Hand::OnePair { pair: Rank::Four, remaining: vec![Rank::King, Rank::Seven, Rank::Two] });
    assert_eq!(
        hand("2S 4H 2D 4C KS"),
        Hand::TwoPair { high_pair: Rank::Four, low_pair: Rank::Two, remaining: Rank::King }
    );
    assert_eq!(
        hand("4S 4H 7D 4C KS"),
        Hand::ThreeOfAKind { triple: Rank::Four, remaining: vec![Rank::King, Rank::Seven] }
    );
    assert_eq!(hand("9S 10H JD QC KS"), Hand::Straight { high: Rank::King });
    assert_eq!(hand("2S 4S 7S 9S KS"), Hand::Flush { ranks: vec![Rank::King, Rank::Nine, Rank::Seven, Rank::Four, Rank::Two] });
    assert_eq!(hand("4S 4H 7D 4C 7S"), Hand::FullHouse { triple: Rank::Four, pair: Rank::Seven });
    assert_eq!(hand("4S 4H KD 4C 4D"), Hand::FourOfAKind { quad: Rank::Four, remaining: Rank::King });
    assert_eq!(hand("10H JH QH KH AH"), Hand::StraightFlush { high: Rank::Ace });
}

#[test]
fn test_order_of_cards_does_not_matter() {
    let base = hand("3S 4S 5D 6H JH");
    assert_eq!(hand("JH 6H 5D 4S 3S"), base);
    assert_eq!(hand("5D 3S JH 4S 6H"), base);
    let full = hand("5H 9S 5S 9D 5D");
    assert_eq!(hand("9D 9S 5D 5S 5H"), full);
    assert_eq!(full, Hand::FullHouse { triple: Rank::Five, pair: Rank::Nine });
}

#[test]
fn test_compare_is_antisymmetric_and_transitive() {
    let a = hand("4D 5S 6S 8D 3C");
    let b = hand("2S 4C 7S 9H 10H");
    let c = hand("3S 4S 5D 6H JH");
    assert_eq!(compare(&a, &b), Ordering::Less);
    assert_eq!(compare(&b, &a), Ordering::Greater);
    assert_eq!(compare(&b, &c), Ordering::Less);
    assert_eq!(compare(&a, &c), Ordering::Less);
    assert_eq!(compare(&c, &hand("3H 4H 5C 6C JD")), Ordering::Equal);
}

#[test]
fn test_category_precedence() {
    let order = [
        "2S 4H 7D 9C KS",
        "2S 4H 7D 4C KS",
        "2S 4H 2D 4C KS",
        "4S 4H 7D 4C KS",
        "2S 3H 4D 5C AS",
        "2S 3S 4S 5S 7S",
        "2S 2H 3D 3C 3S",
        "2S 2H 2D 2C 3S",
        "AS 2S 3S 4S 5S",
    ];
    let strongest_of_lower = [
        "AS KH QD JC 9S",
        "AS AH KD QC JS",
        "AS AH KD KC QS",
        "AS AH AD KC QS",
        "10S JH QD KC AS",
        "AS KS QS JS 9S",
        "AS AH AD KC KS",
        "AS AH AD AC KS",
    ];
    for i in 1..order.len() {
        let weak = hand(strongest_of_lower[i - 1]);
        let strong = hand(order[i]);
        assert_eq!(compare(&weak, &strong), Ordering::Less, "{}", order[i]);
        assert_eq!(compare(&strong, &weak), Ordering::Greater, "{}", order[i]);
    }
}

#[test]
fn test_ace_low_straight() {
    let wheel = hand("2S 3H 4D 5C AS");
    let six_high = hand("2H 3C 4S 5D 6H");
    assert_eq!(wheel, Hand::Straight { high: Rank::Five });
    assert_eq!(compare(&wheel, &six_high), Ordering::Less);
    assert_eq!(compare(&wheel, &hand("AS AH AD KC QS")), Ordering::Greater);
    assert_eq!(compare(&wheel, &hand("2S 3H 4D 6C AS")), Ordering::Greater);
    assert_eq!(hand("AH 2H 3H 4H 5H"), Hand::StraightFlush { high: Rank::Five });
}

#[test]
fn test_single_hand_wins_alone() {
    assert_eq!(find_winners(&["4S 5S 7H 8D JC"]).unwrap(), vec!["4S 5S 7H 8D JC"]);
    assert_eq!(find_winners(&["2S 3H 4D 5C 7S"]).unwrap(), vec!["2S 3H 4D 5C 7S"]);
}

#[test]
fn test_jack_high_wins() {
    let hands = ["4D 5S 6S 8D 3C", "2S 4C 7S 9H 10H", "3S 4S 5D 6H JH"];
    assert_eq!(find_winners(&hands).unwrap(), vec!["3S 4S 5D 6H JH"]);
}

#[test]
fn test_exact_tie_keeps_both_in_order() {
    let hands = ["3S 4S 5D 6H JH", "3H 4H 5C 6C JD"];
    assert_eq!(find_winners(&hands).unwrap(), vec!["3S 4S 5D 6H JH", "3H 4H 5C 6C JD"]);
}

#[test]
fn test_three_of_a_kind_remaining_cascade() {
    let hands = ["3S 3H 2S 3D 4C", "3S 3H 2S 3D 5C"];
    assert_eq!(
        hand(hands[0]),
        Hand::ThreeOfAKind { triple: Rank::Three, remaining: vec![Rank::Four, Rank::Two] }
    );
    assert_eq!(
        hand(hands[1]),
        Hand::ThreeOfAKind { triple: Rank::Three, remaining: vec![Rank::Five, Rank::Two] }
    );
    assert_eq!(find_winners(&hands).unwrap(), vec!["3S 3H 2S 3D 5C"]);
}

#[test]
fn test_cascade_looks_below_the_top_rank() {
    let hands = ["KS 9H 7D 4C 2S", "KH 9S 7C 4D 3S"];
    assert_eq!(find_winners(&hands).unwrap(), vec!["KH 9S 7C 4D 3S"]);
}

#[test]
fn test_no_hands_no_winners() {
    let hands: [&str; 0] = [];
    assert_eq!(find_winners(&hands).unwrap(), Vec::<&str>::new());
    assert_eq!(select_winners(&[], &[]), Vec::<&str>::new());
}

#[test]
fn test_select_winners_replaces_and_ties() {
    let labels = ["a", "b", "c", "d", "e"];
    let hands = [
        hand("2S 4H 7D 9C KS"),
        hand("2S 4H 7D 4C KS"),
        hand("2S 4H 7D 9C KH"),
        hand("2D 4C 7H 4S KD"),
        hand("3S 4H 7D 4C KS"),
    ];
    assert_eq!(select_winners(&labels, &hands), vec!["e"]);
    assert_eq!(select_winners(&labels[..4], &hands[..4]), vec!["b", "d"]);
}

#[test]
fn test_flush_and_suits() {
    let flush = hand("2C 9C 7C 4C KC");
    assert_eq!(flush, Hand::Flush { ranks: vec![Rank::King, Rank::Nine, Rank::Seven, Rank::Four, Rank::Two] });
    let not_flush = to_hand([
        Card { rank: Rank::Two, suit: Suit::Clubs },
        Card { rank: Rank::Nine, suit: Suit::Clubs },
        Card { rank: Rank::Seven, suit: Suit::Clubs },
        Card { rank: Rank::Four, suit: Suit::Clubs },
        Card { rank: Rank::King, suit: Suit::Hearts },
    ]);
    assert_eq!(compare(&not_flush, &flush), Ordering::Less);
}

#[test]
fn test_hand_key() {
    assert_eq!(hand("2S 4H 2D 4C KS").key(), vec![3, 2, 0, 11]);
    assert_eq!(hand("2S 3H 4D 5C AS").key(), vec![5, 3]);
}

#[test]
fn test_ace_low_straight_any_order() {
    let wheel = "AS 4D 2S 5C 3H";
    assert_eq!(hand(wheel), Hand::Straight { high: Rank::Five });
    for lower in ["AS KH QD JC 9S", "AS AH KD QC JS", "AS AH KD KC QS", "AS AH AD KC QS"] {
        assert_eq!(find_winners(&[lower, wheel]).unwrap(), vec![wheel]);
        assert_eq!(find_winners(&[wheel, lower]).unwrap(), vec![wheel]);
    }
    assert_eq!(find_winners(&[wheel, "6H 2C 5D 4S 3H"]).unwrap(), vec!["6H 2C 5D 4S 3H"]);
}

#[test]
fn test_winners_are_transitive() {
    let x = "2S 4H 2D 4C KS";
    let y = "2S 4H 7D 4C KS";
    let z = "2S 4H 7D 9C KS";
    assert_eq!(find_winners(&[x, y]).unwrap(), vec![x]);
    assert_eq!(find_winners(&[y, z]).unwrap(), vec![y]);
    assert_eq!(find_winners(&[x, z]).unwrap(), vec![x]);
    assert_eq!(find_winners(&[z, y, x]).unwrap(), vec![x]);
}

#[test]
fn test_derived_order_agrees_with_compare() {
    let texts = [
        "2S 4H 7D 9C KS",
        "3S 4H 7D 9C KS",
        "2S 4H 7D 4C KS",
        "2S 4H 2D 4C KS",
        "4S 4H 7D 4C KS",
        "2S 3H 4D 5C AS",
        "2H 3C 4S 5D 6H",
        "2S 3S 4S 5S 7S",
        "2S 2H 3D 3C 3S",
        "2S 2H 2D 2C 3S",
        "AS 2S 3S 4S 5S",
    ];
    for a in texts {
        for b in texts {
            assert_eq!(hand(a).cmp(&hand(b)), compare(&hand(a), &hand(b)), "{} {}", a, b);
        }
    }
}
