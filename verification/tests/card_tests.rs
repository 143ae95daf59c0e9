use farm_solitaire::card::{Card, Suit, DECK_SIZE, NUM_RANKS, NUM_SUITS, RANKS_PER_SUIT};

#[test]
fn card_to_code_test() {
    let card = Card { rank: -1, suit: Suit::Melon };
    assert_eq!("-1M", card.code())
}

#[test]
fn card_from_code_test() {
    let card = Card { rank: -1, suit: Suit::Melon };
    assert_eq!(Some(card), Card::from_code("-1M"))
}

#[test]
fn card_code_extremes() {
    assert_eq!(Card { rank: -128, suit: Suit::Corn }.code(), "-128C");
    assert_eq!(Card { rank: 127, suit: Suit::Eggplant }.code(), "127E");
    assert_eq!(Card { rank: 0, suit: Suit::Blueberry }.code(), "0B");
    assert_eq!(Card { rank: 10, suit: Suit::Melon }.code(), "10M");
    assert_eq!(Card { rank: -100, suit: Suit::Melon }.code(), "-100M");
}

#[test]
fn card_code_roundtrip_all() {
    for r in i8::MIN..=i8::MAX {
        for s in Suit::all() {
            let c = Card { rank: r, suit: s };
            assert_eq!(Card::from_code(&c.code()), Some(c));
            assert_eq!(c.code(), format!("{}{}", r, s.code()));
        }
    }
}

#[test]
fn card_from_code_accepts_what_parse_accepts() {
    assert_eq!(Card::from_code("+3B"), Some(Card { rank: 3, suit: Suit::Blueberry }));
    assert_eq!(Card::from_code("007M"), Some(Card { rank: 7, suit: Suit::Melon }));
    assert_eq!(Card::from_code("-0E"), Some(Card { rank: 0, suit: Suit::Eggplant }));
    assert_eq!(Card::from_code("-128C"), Some(Card { rank: -128, suit: Suit::Corn }));
}

#[test]
fn card_from_code_rejects() {
    assert_eq!(Card::from_code(""), None);
    assert_eq!(Card::from_code("M"), None);
    assert_eq!(Card::from_code("-M"), None);
    assert_eq!(Card::from_code("+M"), None);
    assert_eq!(Card::from_code("3X"), None);
    assert_eq!(Card::from_code("3m"), None);
    assert_eq!(Card::from_code("128M"), None);
    assert_eq!(Card::from_code("-129M"), None);
    assert_eq!(Card::from_code("99999999999M"), None);
    assert_eq!(Card::from_code(" 1M"), None);
    assert_eq!(Card::from_code("1 M"), None);
    assert_eq!(Card::from_code("1_0M"), None);
    assert_eq!(Card::from_code("--1M"), None);
    assert_eq!(Card::from_code("1\u{1F348}"), None);
}

#[test]
fn card_from_code_matches_std_parse() {
    let samples = ["0", "1", "-1", "+1", "12", "127", "128", "-128", "-129", "0000012", "+", "-", "",
        "1a", "a1", "+-1", "300", "-300", "٣"];
    for body in samples {
        for s in Suit::all() {
            let code = format!("{}{}", body, s.code());
            let expected = body.parse::<i8>().ok().map(|rank| Card { rank, suit: s });
            assert_eq!(Card::from_code(&code), expected, "{}", code);
        }
    }
}

#[test]
fn suit_codes() {
    let codes: Vec<char> = Suit::all().iter().map(|s| s.code()).collect();
    assert_eq!(codes, vec!['M', 'C', 'B', 'E']);
    for s in Suit::all() {
        assert_eq!(Suit::from_code(s.code()), Some(s));
    }
    assert_eq!(Suit::from_code('X'), None);
    assert_eq!(Suit::from_code('m'), None);
}

#[test]
fn deck_constants() {
    assert_eq!(NUM_RANKS, RANKS_PER_SUIT.len());
    assert_eq!(NUM_SUITS, 4);
    assert_eq!(DECK_SIZE, 48);
    assert_eq!(RANKS_PER_SUIT.iter().map(|&r| r as i32).sum::<i32>(), 0);
}
