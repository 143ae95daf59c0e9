use vstd::prelude::*;
use crate::card::Suit;
use crate::text::{digits, i8_text, signed_text};

verus! {

/// How ranks are written on the cards.
#[derive(Clone, Copy, PartialEq, Eq, Structural, Hash, Debug)]
pub enum RankSkin {
    /// Ranks as they are, -3 to 3: a harvested group sums to 0.
    Signed,
    /// Ranks shifted to 1 to 7: a harvested group averages 4.
    From1To7,
    /// Ranks shifted to 7 to 13: a harvested group's sum ends in 0.
    From7To13,
}

/// The rank shown for `rank` under `skin`.
pub open spec fn spec_displayed_rank(skin: RankSkin, rank: int) -> int {
    match skin {
        RankSkin::Signed => rank,
        RankSkin::From1To7 => rank + 4,
        RankSkin::From7To13 => rank + 10,
    }
}

impl RankSkin {
    pub fn displayed_rank(self, rank: i8) -> (r: i8)
        requires
            -128 <= spec_displayed_rank(self, rank as int) <= 127,
        ensures
            r == spec_displayed_rank(self, rank as int),
    {
        match self {
            RankSkin::Signed => rank,
            RankSkin::From1To7 => rank + 4,
            RankSkin::From7To13 => rank + 10,
        }
    }

    /// The skin numbered `r` in declaration order, if any.
    pub fn from_repr(r: u8) -> (s: Option<Self>)
        ensures
            s == if r == 0 {
                Some(RankSkin::Signed)
            } else if r == 1 {
                Some(RankSkin::From1To7)
            } else if r == 2 {
                Some(RankSkin::From7To13)
            } else {
                None::<RankSkin>
            },
    {
        match r {
            0 => Some(RankSkin::Signed),
            1 => Some(RankSkin::From1To7),
            2 => Some(RankSkin::From7To13),
            _ => None,
        }
    }
}

impl Default for RankSkin {
    fn default() -> (r: Self)
        ensures
            r == RankSkin::Signed,
    {
        RankSkin::Signed
    }
}

/// How suits are drawn.
#[derive(Clone, Copy, PartialEq, Eq, Structural, Hash, Debug)]
pub enum SuitSkin {
    Default,
}

/// The emoji of a suit: melon, ear of maize, blueberries, aubergine.
pub open spec fn suit_symbol_text(suit: Suit) -> Seq<char> {
    match suit {
        Suit::Melon => "\u{1F348}"@,
        Suit::Corn => "\u{1F33D}"@,
        Suit::Blueberry => "\u{1FAD0}"@,
        Suit::Eggplant => "\u{1F346}"@,
    }
}

impl SuitSkin {
    pub fn suit_symbol(self, suit: Suit) -> (r: &'static str)
        ensures
            r@ == suit_symbol_text(suit),
    {
        match suit {
            Suit::Melon => "\u{1F348}",
            Suit::Corn => "\u{1F33D}",
            Suit::Blueberry => "\u{1FAD0}",
            Suit::Eggplant => "\u{1F346}",
        }
    }
}

impl Default for SuitSkin {
    fn default() -> (r: Self)
        ensures
            r == SuitSkin::Default,
    {
        SuitSkin::Default
    }
}

pub const KATEX_SUITS_FONT_STR: &'static str = "KaTeX_Suits";

/// Whether text is drawn for a dark or a light background.
#[derive(Clone, Copy, PartialEq, Eq, Structural, Hash, Debug)]
pub enum ColorMode {
    Dark,
    Light,
}

impl ColorMode {
    /// The mode numbered `r` in declaration order, if any.
    pub fn from_repr(r: u8) -> (m: Option<Self>)
        ensures
            m == if r == 0 {
                Some(ColorMode::Dark)
            } else if r == 1 {
                Some(ColorMode::Light)
            } else {
                None::<ColorMode>
            },
    {
        match r {
            0 => Some(ColorMode::Dark),
            1 => Some(ColorMode::Light),
            _ => None,
        }
    }
}

impl Default for ColorMode {
    fn default() -> (r: Self)
        ensures
            r == ColorMode::Light,
    {
        ColorMode::Light
    }
}

/// How suits are coloured.
#[derive(Clone, Copy, PartialEq, Eq, Structural, Hash, Debug)]
pub enum ColorSkin {
    Default,
}

/// The colour of a suit: green melons, amber corn, blue blueberries, purple eggplants;
/// a dark shade for `Dark`, a light one for `Light`.
pub open spec fn suit_color_text(suit: Suit, mode: ColorMode) -> Seq<char> {
    match (suit, mode) {
        (Suit::Melon, ColorMode::Dark) => "#062"@,
        (Suit::Melon, ColorMode::Light) => "#00ff55"@,
        (Suit::Corn, ColorMode::Dark) => "#b70"@,
        (Suit::Corn, ColorMode::Light) => "#ffb433"@,
        (Suit::Blueberry, ColorMode::Dark) => "#00d"@,
        (Suit::Blueberry, ColorMode::Light) => "#aaaaff"@,
        (Suit::Eggplant, ColorMode::Dark) => "#60c"@,
        (Suit::Eggplant, ColorMode::Light) => "#cf99ff"@,
    }
}

impl ColorSkin {
    pub fn color(self, suit: Suit, mode: ColorMode) -> (r: &'static str)
        ensures
            r@ == suit_color_text(suit, mode),
    {
        let res: [&'static str; 2] = match suit {
            Suit::Melon => ["#062", "#00ff55"],
            Suit::Corn => ["#b70", "#ffb433"],
            Suit::Blueberry => ["#00d", "#aaaaff"],
            Suit::Eggplant => ["#60c", "#cf99ff"],
        };
        let i: usize = match mode {
            ColorMode::Dark => 0,
            ColorMode::Light => 1,
        };
        res[i]
    }
}

impl Default for ColorSkin {
    fn default() -> (r: Self)
        ensures
            r == ColorSkin::Default,
    {
        ColorSkin::Default
    }
}

#[derive(Clone, Copy, PartialEq, Eq, Structural, Hash, Debug)]
pub struct Skin {
    pub ranks: RankSkin,
    pub suits: SuitSkin,
    pub colors: ColorSkin,
}

impl Default for Skin {
    fn default() -> (r: Self)
        ensures
            r == (Skin { ranks: RankSkin::Signed, suits: SuitSkin::Default, colors: ColorSkin::Default }),
    {
        Skin { ranks: RankSkin::default(), suits: SuitSkin::default(), colors: ColorSkin::default() }
    }
}

/// The text of rank `rank` on a card under `skin`. With `Signed`, a non-zero rank gets a sign,
/// `+` or a figure dash, before its absolute value; the shifted skins show the shifted rank in
/// plain decimal.
pub open spec fn rank_text_spec(skin: RankSkin, rank: int) -> Seq<char> {
    let d = spec_displayed_rank(skin, rank);
    match skin {
        RankSkin::Signed => (if d > 0 {
            seq!['+']
        } else if d < 0 {
            seq!['\u{2012}']
        } else {
            Seq::<char>::empty()
        }) + digits((if d < 0 { -d } else { d }) as nat),
        _ => signed_text(d),
    }
}

/// The text shown for rank `rank` under `skin`.
pub fn rank_text(skin: RankSkin, rank: i8) -> (r: String)
    requires
        -128 <= spec_displayed_rank(skin, rank as int) <= 127,
        skin == RankSkin::Signed ==> rank != i8::MIN,
    ensures
        r@ == rank_text_spec(skin, rank as int),
{
    let d = skin.displayed_rank(rank);
    match skin {
        RankSkin::Signed => {
            let mut s = String::new();
            proof {
                reveal_strlit("+");
                reveal_strlit("\u{2012}");
            }
            if d > 0 {
                s.append("+");
            } else if d < 0 {
                s.append("\u{2012}");
            }
            let a: i8 = if d < 0 { 0 - d } else { d };
            let t = i8_text(a);
            s.append(t.as_str());
            proof {
                assert(s@ =~= rank_text_spec(skin, rank as int));
            }
            s
        },
        _ => i8_text(d),
    }
}

/// The sum of a sequence of ranks.
pub open spec fn rank_sum(s: Seq<int>) -> int
    decreases s.len(),
{
    if s.len() == 0 {
        0
    } else {
        rank_sum(s.drop_last()) + s.last()
    }
}

/// The ranks of `s` as `skin` shows them.
pub open spec fn displayed_ranks(skin: RankSkin, s: Seq<int>) -> Seq<int> {
    s.map_values(|r: int| spec_displayed_rank(skin, r))
}

proof fn lemma_shifted_sum(skin: RankSkin, s: Seq<int>, k: int)
    requires
        forall|r: int| spec_displayed_rank(skin, r) == r + k,
    ensures
        rank_sum(displayed_ranks(skin, s)) == rank_sum(s) + k * s.len(),
    decreases s.len(),
{
    if s.len() > 0 {
        lemma_shifted_sum(skin, s.drop_last(), k);
        assert(displayed_ranks(skin, s).drop_last() =~= displayed_ranks(skin, s.drop_last()));
        assert(k * s.len() == k * (s.len() - 1) + k) by (nonlinear_arith);
    }
}

/// What each rank skin promises of a harvested group, whose ranks (each from -3 to 3) sum to 0:
/// `Signed` shows ranks summing to 0; `From1To7` shows ranks from 1 to 7 averaging exactly 4;
/// `From7To13` shows ranks from 7 to 13 whose sum ends in 0.
pub proof fn law_rank_skin_rules(s: Seq<int>)
    requires
        forall|i: int| 0 <= i < s.len() ==> -3 <= #[trigger] s[i] <= 3,
        rank_sum(s) == 0,
    ensures
        rank_sum(displayed_ranks(RankSkin::Signed, s)) == 0,
        rank_sum(displayed_ranks(RankSkin::From1To7, s)) == 4 * s.len(),
        rank_sum(displayed_ranks(RankSkin::From7To13, s)) % 10 == 0,
        forall|i: int|
            0 <= i < s.len() ==> 1 <= #[trigger] displayed_ranks(RankSkin::From1To7, s)[i] <= 7,
        forall|i: int|
            0 <= i < s.len() ==> 7 <= #[trigger] displayed_ranks(RankSkin::From7To13, s)[i] <= 13,
{
    lemma_shifted_sum(RankSkin::Signed, s, 0);
    lemma_shifted_sum(RankSkin::From1To7, s, 4);
    lemma_shifted_sum(RankSkin::From7To13, s, 10);
    assert((10 * s.len()) % 10 == 0) by (nonlinear_arith);
}

} // verus!
