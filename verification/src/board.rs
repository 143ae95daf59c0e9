use vstd::prelude::*;
use crate::bitmask::BitMask;
use crate::card::{Card, DECK_SIZE};
use crate::farm::NUM_FARM_PLOTS;

verus! {

pub const NUM_TABLEAUS: usize = 4;

pub const NUM_FREE_CELLS: usize = 1;

pub const NUM_MARKETS: usize = 1;

pub const NUM_DEPOTS: usize = NUM_TABLEAUS + NUM_FREE_CELLS + NUM_FARM_PLOTS + NUM_MARKETS;

/// The number of cards that a fresh deal puts in each tableau column.
pub const TABLEAU_DEAL: usize = 12;

/// What a depot of the board is for. Depots are numbered role by role, in the order
/// of the variants.
#[derive(Clone, Copy, PartialEq, Eq, Structural, Hash, Debug)]
pub enum DepotRole {
    Tableau,
    FreeCell,
    Farm,
    Market,
}

impl DepotRole {
    /// The number of depots with this role.
    pub open spec fn spec_count(self) -> int {
        match self {
            DepotRole::Tableau => NUM_TABLEAUS as int,
            DepotRole::FreeCell => NUM_FREE_CELLS as int,
            DepotRole::Farm => NUM_FARM_PLOTS as int,
            DepotRole::Market => NUM_MARKETS as int,
        }
    }

    /// The index of the first depot with this role.
    pub open spec fn spec_base(self) -> int {
        match self {
            DepotRole::Tableau => 0,
            DepotRole::FreeCell => NUM_TABLEAUS as int,
            DepotRole::Farm => (NUM_TABLEAUS + NUM_FREE_CELLS) as int,
            DepotRole::Market => (NUM_TABLEAUS + NUM_FREE_CELLS + NUM_FARM_PLOTS) as int,
        }
    }

    /// The role of depot `depot` and its index among the depots of that role.
    pub open spec fn spec_role_and_subindex(depot: int) -> Option<(DepotRole, int)> {
        if 0 <= depot < NUM_TABLEAUS {
            Some((DepotRole::Tableau, depot))
        } else if NUM_TABLEAUS <= depot < NUM_TABLEAUS + NUM_FREE_CELLS {
            Some((DepotRole::FreeCell, depot - NUM_TABLEAUS))
        } else if NUM_TABLEAUS + NUM_FREE_CELLS <= depot < NUM_TABLEAUS + NUM_FREE_CELLS
            + NUM_FARM_PLOTS {
            Some((DepotRole::Farm, depot - (NUM_TABLEAUS + NUM_FREE_CELLS)))
        } else if NUM_TABLEAUS + NUM_FREE_CELLS + NUM_FARM_PLOTS <= depot < NUM_DEPOTS {
            Some((DepotRole::Market, depot - (NUM_TABLEAUS + NUM_FREE_CELLS + NUM_FARM_PLOTS)))
        } else {
            None
        }
    }

    /// The index of the `i`-th depot with this role.
    pub fn id(self, i: usize) -> (r: usize)
        requires
            i < self.spec_count(),
        ensures
            r == self.spec_base() + i,
            r < NUM_DEPOTS,
            DepotRole::spec_role_and_subindex(r as int) == Some((self, i as int)),
    {
        match self {
            DepotRole::Tableau => i,
            DepotRole::FreeCell => NUM_TABLEAUS + i,
            DepotRole::Farm => NUM_TABLEAUS + NUM_FREE_CELLS + i,
            DepotRole::Market => NUM_TABLEAUS + NUM_FREE_CELLS + NUM_FARM_PLOTS + i,
        }
    }

    /// The role of depot `depot` and its index among the depots of that role;
    /// `None` when there is no such depot.
    pub fn role_and_subindex(depot: usize) -> (r: Option<(DepotRole, usize)>)
        ensures
            r matches Some((role, i)) ==> DepotRole::spec_role_and_subindex(depot as int) == Some(
                (role, i as int),
            ),
            r is None ==> DepotRole::spec_role_and_subindex(depot as int) is None,
    {
        if depot < NUM_TABLEAUS {
            Some((DepotRole::Tableau, depot))
        } else if depot < NUM_TABLEAUS + NUM_FREE_CELLS {
            Some((DepotRole::FreeCell, depot - NUM_TABLEAUS))
        } else if depot < NUM_TABLEAUS + NUM_FREE_CELLS + NUM_FARM_PLOTS {
            Some((DepotRole::Farm, depot - (NUM_TABLEAUS + NUM_FREE_CELLS)))
        } else if depot < NUM_DEPOTS {
            Some((DepotRole::Market, depot - (NUM_TABLEAUS + NUM_FREE_CELLS + NUM_FARM_PLOTS)))
        } else {
            None
        }
    }

    /// The role of depot `depot`; `None` when there is no such depot.
    pub fn role(depot: usize) -> (r: Option<DepotRole>)
        ensures
            r matches Some(role) ==> (DepotRole::spec_role_and_subindex(depot as int) matches Some(
                p,
            ) && p.0 == role),
            r is None ==> DepotRole::spec_role_and_subindex(depot as int) is None,
    {
        match DepotRole::role_and_subindex(depot) {
            Some((role, _)) => Some(role),
            None => None,
        }
    }
}

/// Depot `depot` has role `role`.
pub open spec fn has_role(depot: int, role: DepotRole) -> bool {
    DepotRole::spec_role_and_subindex(depot) matches Some(p) && p.0 == role
}

/// A place on the board: a depot and a position in its pile (0 is the bottom card).
#[derive(Clone, Copy, PartialEq, Eq, Structural, Hash, Debug)]
pub struct BoardPos {
    pub depot_index: usize,
    pub card_index: usize,
}

impl BoardPos {
    pub fn new(depot_index: usize, card_index: usize) -> (r: Self)
        ensures
            r.depot_index == depot_index,
            r.card_index == card_index,
    {
        BoardPos { depot_index, card_index }
    }
}

/// What the player has selected: a pile of cards from some position up, or a set of
/// farm plots.
#[derive(Clone, Copy, PartialEq, Eq, Structural, Debug)]
pub enum Selection {
    Stack(BoardPos),
    Farm(BitMask),
}

/// A card movement that the board still has to show.
#[derive(Clone, Debug, PartialEq, Eq)]
pub enum AnimationAct {
    Move(Vec<Card>, BoardPos, BoardPos),
}

#[derive(Clone, Debug, PartialEq, Eq)]
pub struct Board {
    pub depots: Vec<Vec<Card>>,
    pub selected: Option<Selection>,
    pub animation_acts: Vec<AnimationAct>,
}

/// The piles after moving the cards of depot `p1.depot_index` from position `p1.card_index`
/// up onto the top of depot `p2.depot_index`.
pub open spec fn moved_piles(ds: Seq<Seq<Card>>, p1: BoardPos, p2: BoardPos) -> Seq<Seq<Card>> {
    let d1 = p1.depot_index as int;
    let d2 = p2.depot_index as int;
    let c1 = p1.card_index as int;
    ds.update(d1, ds[d1].take(c1)).update(d2, ds[d2] + ds[d1].skip(c1))
}

/// The piles that a fresh deal makes: tableau column `t` holds cards
/// `TABLEAU_DEAL * t` to `TABLEAU_DEAL * (t + 1)` of the deal, bottom first;
/// every other depot is empty.
pub open spec fn dealt_piles(deal: Seq<Card>) -> Seq<Seq<Card>> {
    Seq::new(
        NUM_DEPOTS as nat,
        |d: int|
            if d < NUM_TABLEAUS {
                deal.subrange(d * TABLEAU_DEAL, (d + 1) * TABLEAU_DEAL)
            } else {
                Seq::<Card>::empty()
            },
    )
}

impl Board {
    /// The piles of the depots, bottom card first.
    pub open spec fn piles(&self) -> Seq<Seq<Card>> {
        self.depots@.map_values(|d: Vec<Card>| d@)
    }

    /// The board has one pile per depot.
    pub open spec fn wf(&self) -> bool {
        self.depots@.len() == NUM_DEPOTS
    }

    /// `pos` names a card that lies on the board.
    pub open spec fn holds(&self, pos: BoardPos) -> bool {
        &&& pos.depot_index < self.depots@.len()
        &&& pos.card_index < self.depots@[pos.depot_index as int]@.len()
    }

    /// A board with every depot empty.
    pub fn empty() -> (b: Self)
        ensures
            b.wf(),
            forall|d: int| 0 <= d < NUM_DEPOTS ==> #[trigger] b.piles()[d] == Seq::<Card>::empty(),
            b.selected is None,
            b.animation_acts@.len() == 0,
    {
        let mut depots: Vec<Vec<Card>> = Vec::new();
        let mut d: usize = 0;
        while d < NUM_DEPOTS
            invariant
                d <= NUM_DEPOTS,
                depots@.len() == d,
                forall|k: int| 0 <= k < d ==> (#[trigger] depots@[k])@ == Seq::<Card>::empty(),
            decreases NUM_DEPOTS - d,
        {
            depots.push(Vec::new());
            d = d + 1;
        }
        Board { depots, selected: None, animation_acts: Vec::new() }
    }

    /// The board at the start of a game dealt as `deal`.
    pub fn from_deal(deal: &Vec<Card>) -> (b: Self)
        requires
            deal.len() == DECK_SIZE,
        ensures
            b.wf(),
            b.piles() == dealt_piles(deal@),
            b.selected is None,
            b.animation_acts@.len() == 0,
    {
        let mut depots: Vec<Vec<Card>> = Vec::new();
        let mut d: usize = 0;
        while d < NUM_DEPOTS
            invariant
                d <= NUM_DEPOTS,
                deal.len() == DECK_SIZE,
                depots@.len() == d,
                forall|k: int| 0 <= k < d ==> (#[trigger] depots@[k])@ == dealt_piles(deal@)[k],
            decreases NUM_DEPOTS - d,
        {
            let mut pile: Vec<Card> = Vec::new();
            if d < NUM_TABLEAUS {
                let start = d * TABLEAU_DEAL;
                let mut j: usize = 0;
                while j < TABLEAU_DEAL
                    invariant
                        d < NUM_TABLEAUS,
                        start == d * TABLEAU_DEAL,
                        deal.len() == DECK_SIZE,
                        j <= TABLEAU_DEAL,
                        pile@ == deal@.subrange(start as int, start + j),
                    decreases TABLEAU_DEAL - j,
                {
                    pile.push(deal[start + j]);
                    j = j + 1;
                    assert(pile@ =~= deal@.subrange(start as int, start + j));
                }
            }
            depots.push(pile);
            d = d + 1;
        }
        let b = Board { depots, selected: None, animation_acts: Vec::new() };
        assert(b.piles() =~= dealt_piles(deal@));
        b
    }

    /// The position just above the top card of depot `depot`.
    pub fn top_pos(&self, depot: usize) -> (r: BoardPos)
        requires
            depot < self.depots@.len(),
        ensures
            r.depot_index == depot,
            r.card_index == self.piles()[depot as int].len(),
    {
        BoardPos::new(depot, self.depots[depot].len())
    }

    /// Moves the cards of depot `pos1.depot_index` from `pos1.card_index` up onto the top
    /// of depot `pos2.depot_index`, records the movement to be shown, and clears the
    /// selection.
    pub fn do_move(&mut self, pos1: BoardPos, pos2: BoardPos)
        requires
            pos1.depot_index < old(self).depots@.len(),
            pos2.depot_index < old(self).depots@.len(),
            pos1.depot_index != pos2.depot_index,
            pos1.card_index <= old(self).piles()[pos1.depot_index as int].len(),
        ensures
            final(self).piles() == moved_piles(old(self).piles(), pos1, pos2),
            final(self).depots@.len() == old(self).depots@.len(),
            final(self).selected is None,
            final(self).animation_acts@ == old(self).animation_acts@.push(
                AnimationAct::Move(
                    final(self).animation_acts@.last()->0,
                    pos1,
                    pos2,
                ),
            ),
            final(self).animation_acts@.last()->0@ == old(self).piles()[pos1.depot_index as int].skip(
                pos1.card_index as int,
            ),
    {
        let d1 = pos1.depot_index;
        let d2 = pos2.depot_index;
        let ghost old_piles = self.piles();
        let mut moved = self.depots[d1].split_off(pos1.card_index);
        let mut shown: Vec<Card> = Vec::new();
        let mut k: usize = 0;
        while k < moved.len()
            invariant
                k <= moved.len(),
                shown@ == moved@.take(k as int),
            decreases moved.len() - k,
        {
            shown.push(moved[k]);
            k = k + 1;
            assert(shown@ =~= moved@.take(k as int));
        }
        assert(shown@ =~= moved@);
        self.depots[d2].append(&mut moved);
        self.animation_acts.push(AnimationAct::Move(shown, pos1, pos2));
        self.selected = None;
        assert(self.piles() =~= moved_piles(old_piles, pos1, pos2));
    }

    /// Finishes the movements still to be shown.
    pub fn advance_actions(&mut self)
        ensures
            final(self).depots == old(self).depots,
            final(self).selected == old(self).selected,
            final(self).animation_acts@.len() == 0,
    {
        self.animation_acts.clear();
    }
}

} // verus!
