use farm_solitaire::card::{Suit, RANKS_PER_SUIT};
use farm_solitaire::skin::{rank_text, ColorMode, ColorSkin, RankSkin, Skin, SuitSkin, KATEX_SUITS_FONT_STR};

#[test]
fn displayed_ranks() {
    assert_eq!(RankSkin::Signed.displayed_rank(-3), -3);
    assert_eq!(RankSkin::From1To7.displayed_rank(-3), 1);
    assert_eq!(RankSkin::From1To7.displayed_rank(3), 7);
    assert_eq!(RankSkin::From7To13.displayed_rank(-3), 7);
    assert_eq!(RankSkin::From7To13.displayed_rank(3), 13);
}

#[test]
fn rank_skin_rules_on_a_group() {
    let group = [-3i8, 1, 2, 0];
    assert_eq!(group.iter().map(|&r| RankSkin::Signed.displayed_rank(r) as i32).sum::<i32>(), 0);
    assert_eq!(group.iter().map(|&r| RankSkin::From1To7.displayed_rank(r) as i32).sum::<i32>(), 16);
    assert_eq!(group.iter().map(|&r| RankSkin::From7To13.displayed_rank(r) as i32).sum::<i32>() % 10, 0);
    for r in RANKS_PER_SUIT {
        assert!((1..=7).contains(&RankSkin::From1To7.displayed_rank(r)));
        assert!((7..=13).contains(&RankSkin::From7To13.displayed_rank(r)));
    }
}

#[test]
fn from_repr() {
    assert_eq!(RankSkin::from_repr(0), Some(RankSkin::Signed));
    assert_eq!(RankSkin::from_repr(1), Some(RankSkin::From1To7));
    assert_eq!(RankSkin::from_repr(2), Some(RankSkin::From7To13));
    assert_eq!(RankSkin::from_repr(3), None);
    assert_eq!(ColorMode::from_repr(0), Some(ColorMode::Dark));
    assert_eq!(ColorMode::from_repr(1), Some(ColorMode::Light));
    assert_eq!(ColorMode::from_repr(2), None);
}

#[test]
fn defaults() {
    assert_eq!(RankSkin::default(), RankSkin::Signed);
    assert_eq!(ColorMode::default(), ColorMode::Light);
    assert_eq!(
        Skin::default(),
        Skin { ranks: RankSkin::Signed, suits: SuitSkin::Default, colors: ColorSkin::Default }
    );
}

#[test]
fn colors_and_symbols() {
    assert_eq!(ColorSkin::Default.color(Suit::Melon, ColorMode::Dark), "#062");
    assert_eq!(ColorSkin::Default.color(Suit::Melon, ColorMode::Light), "#00ff55");
    assert_eq!(ColorSkin::Default.color(Suit::Corn, ColorMode::Dark), "#b70");
    assert_eq!(ColorSkin::Default.color(Suit::Corn, ColorMode::Light), "#ffb433");
    assert_eq!(ColorSkin::Default.color(Suit::Blueberry, ColorMode::Dark), "#00d");
    assert_eq!(ColorSkin::Default.color(Suit::Blueberry, ColorMode::Light), "#aaaaff");
    assert_eq!(ColorSkin::Default.color(Suit::Eggplant, ColorMode::Dark), "#60c");
    assert_eq!(ColorSkin::Default.color(Suit::Eggplant, ColorMode::Light), "#cf99ff");
    assert_eq!(SuitSkin::Default.suit_symbol(Suit::Melon), "\u{1F348}");
    assert_eq!(SuitSkin::Default.suit_symbol(Suit::Corn), "\u{1F33D}");
    assert_eq!(SuitSkin::Default.suit_symbol(Suit::Blueberry), "\u{1FAD0}");
    assert_eq!(SuitSkin::Default.suit_symbol(Suit::Eggplant), "\u{1F346}");
    assert_eq!(KATEX_SUITS_FONT_STR, "KaTeX_Suits");
}

#[test]
fn rank_texts() {
    assert_eq!(rank_text(RankSkin::Signed, 3), "+3");
    assert_eq!(rank_text(RankSkin::Signed, -2), "\u{2012}2");
    assert_eq!(rank_text(RankSkin::Signed, 0), "0");
    assert_eq!(rank_text(RankSkin::Signed, 127), "+127");
    assert_eq!(rank_text(RankSkin::Signed, -127), "\u{2012}127");
    assert_eq!(rank_text(RankSkin::From1To7, -3), "1");
    assert_eq!(rank_text(RankSkin::From1To7, -10), "-6");
    assert_eq!(rank_text(RankSkin::From7To13, 3), "13");
    assert_eq!(rank_text(RankSkin::From7To13, -128), "-118");
}
