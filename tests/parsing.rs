use poker::errors::ParseError;
use poker::poker::find_winners;
use poker::types::{Card, Rank, Suit};

#[test]
fn test_parse_card() {
    let err: ParseError = "".parse::<Card>().expect_err("Unexpected parse success");
    assert_eq!(err.to_string(), "empty Card");
}

#[test]
fn test_too_many_cards() {
    let err = find_winners(&["3S 3H 2S 3D 3C 4H"]).expect_err("Unexpected parse success");
    assert_eq!(err, ParseError::InvalidCardCount(6));
    assert_eq!(err.to_string(), "invalid Card count 6");
}

#[test]
fn test_too_few_cards() {
    let err = find_winners(&["3S 3H 2S"]).expect_err("Unexpected parse success");
    assert_eq!(err.to_string(), "invalid Card count 3");
}

#[test]
fn test_invalid_suit() {
    let err = find_winners(&["3S 3H 2S 3H 6X"]).expect_err("Unexpected parse success");
    assert_eq!(err.to_string(), "invalid Suit X");
}

#[test]
fn test_invalid_suit_among_five() {
    let err = find_winners(&["3S 3H 2S 3D 6X"]).expect_err("Unexpected parse success");
    assert_eq!(err, ParseError::InvalidSuit('X'));
}

#[test]
fn test_invalid_rank() {
    let err = find_winners(&["3S 3H 2S 3H 666H"]).expect_err("Unexpected parse success");
    assert_eq!(err.to_string(), "invalid Rank 666");
}

#[test]
fn test_first_error_wins() {
    let err = find_winners(&["4S 5S 7H 8D JC", "3S 1H", "3S 3H 2S 3D 6X"]).unwrap_err();
    assert_eq!(err, ParseError::InvalidRank("1".to_string()));
}

#[test]
fn test_error_stops_even_after_good_hands() {
    let err = find_winners(&["4S 5S 7H 8D JC", "2S 3S"]).unwrap_err();
    assert_eq!(err, ParseError::InvalidCardCount(2));
}

#[test]
fn test_empty_hand_is_empty_input() {
    let err = find_winners(&["   "]).unwrap_err();
    assert_eq!(err, ParseError::EmptyCardStr);
    let err = find_winners(&["4S 5S 7H 8D JC", ""]).unwrap_err();
    assert_eq!(err, ParseError::EmptyCardStr);
    assert_eq!(Card::five_cards_from_str("\t\n").unwrap_err().to_string(), "empty Card");
    assert_eq!(Card::five_cards_from_tokens(&[]), Err(ParseError::EmptyCardStr));
}

#[test]
fn test_large_card_count_message() {
    let hand = ["2S"; 12].join(" ");
    let err = find_winners(&[hand.as_str()]).unwrap_err();
    assert_eq!(err.to_string(), "invalid Card count 12");
}

#[test]
fn test_rank_error_before_suit_error() {
    assert_eq!(Card::parse("1X"), Err(ParseError::InvalidRank("1".to_string())));
    assert_eq!(Card::parse("X"), Err(ParseError::InvalidRank(String::new())));
}

#[test]
fn test_card_parse() {
    assert_eq!(Card::parse("10H"), Ok(Card { rank: Rank::Ten, suit: Suit::Hearts }));
    assert_eq!(Card::parse("QS"), Ok(Card { rank: Rank::Queen, suit: Suit::Spades }));
    assert_eq!("AC".parse::<Card>(), Ok(Card { rank: Rank::Ace, suit: Suit::Clubs }));
    assert_eq!(Card::parse("JZ"), Err(ParseError::InvalidSuit('Z')));
    assert_eq!(Card::parse(""), Err(ParseError::EmptyCardStr));
}

#[test]
fn test_rank_parse() {
    let tokens = ["2", "3", "4", "5", "6", "7", "8", "9", "10", "J", "Q", "K", "A"];
    for (i, t) in tokens.iter().enumerate() {
        let r = Rank::parse(t).unwrap();
        assert_eq!(r.index() as usize, i);
        assert_eq!(Rank::from_index(i as u8), r);
        assert_eq!(t.parse::<Rank>(), Ok(r));
    }
    assert_eq!(Rank::parse("1"), Err(ParseError::InvalidRank("1".to_string())));
    assert_eq!(Rank::parse("11"), Err(ParseError::InvalidRank("11".to_string())));
    assert_eq!(Rank::parse("j"), Err(ParseError::InvalidRank("j".to_string())));
}

#[test]
fn test_suit_from_char() {
    assert_eq!(Suit::from_char('S'), Ok(Suit::Spades));
    assert_eq!(Suit::from_char('H'), Ok(Suit::Hearts));
    assert_eq!(Suit::from_char('D'), Ok(Suit::Diamonds));
    assert_eq!(Suit::from_char('C'), Ok(Suit::Clubs));
    assert_eq!(Suit::from_char('s'), Err(ParseError::InvalidSuit('s')));
}

#[test]
fn test_five_cards_from_str() {
    let cards = Card::five_cards_from_str("  3S\t3H 2S\n3D 3C ").unwrap();
    assert_eq!(cards[0], Card { rank: Rank::Three, suit: Suit::Spades });
    assert_eq!(cards[2], Card { rank: Rank::Two, suit: Suit::Spades });
    assert_eq!(cards[4], Card { rank: Rank::Three, suit: Suit::Clubs });
}

#[test]
fn test_five_cards_from_tokens() {
    let cards = Card::five_cards_from_tokens(&["2S", "3S", "4S", "5S", "10D"]).unwrap();
    assert_eq!(cards[4], Card { rank: Rank::Ten, suit: Suit::Diamonds });
    assert_eq!(
        Card::five_cards_from_tokens(&["2S", "3S"]),
        Err(ParseError::InvalidCardCount(2))
    );
    assert_eq!(
        Card::five_cards_from_tokens(&["2S", "", "4S", "5S", "6S"]),
        Err(ParseError::EmptyCardStr)
    );
}

#[test]
fn test_error_messages() {
    assert_eq!(ParseError::EmptyCardStr.to_string(), "empty Card");
    assert_eq!(ParseError::InvalidSuit('Q').to_string(), "invalid Suit Q");
    assert_eq!(ParseError::InvalidRank("1".to_string()).to_string(), "invalid Rank 1");
    assert_eq!(ParseError::InvalidCardCount(0).to_string(), "invalid Card count 0");
    assert_eq!(ParseError::InvalidCardCount(105).to_string(), "invalid Card count 105");
}

#[test]
fn test_card_from_str_examples() {
    assert_eq!("10H".parse::<Card>(), Ok(Card { rank: Rank::Ten, suit: Suit::Hearts }));
    assert_eq!("6X".parse::<Card>(), Err(ParseError::InvalidSuit('X')));
    assert_eq!("1X".parse::<Card>(), Err(ParseError::InvalidRank("1".to_string())));
    assert_eq!("H".parse::<Card>(), Err(ParseError::InvalidRank(String::new())));
}

#[test]
fn test_rank_from_str_examples() {
    assert_eq!("666".parse::<Rank>(), Err(ParseError::InvalidRank("666".to_string())));
    assert_eq!("A".parse::<Rank>(), Ok(Rank::Ace));
    assert_eq!("a".parse::<Rank>(), Err(ParseError::InvalidRank("a".to_string())));
    assert_eq!("1".parse::<Rank>(), Err(ParseError::InvalidRank("1".to_string())));
    assert!("10".parse::<Rank>().unwrap() < "J".parse::<Rank>().unwrap());
    assert!("9".parse::<Rank>().unwrap() < "10".parse::<Rank>().unwrap());
}
