use vstd::prelude::*;
use vstd::multiset::Multiset;
use crate::bitmask::{BitMask, lemma_flip_has, lemma_single_has};
use crate::board::{
    AnimationAct, Board, BoardPos, DepotRole, Selection, has_role, moved_piles, dealt_piles,
    NUM_DEPOTS,
};
use crate::card::{Card, Suit, DECK_SIZE, NUM_RANKS, NUM_SUITS, RANKS_PER_SUIT};
use crate::random::{thread_rng, shuffle_cards};
use rand::rngs::ThreadRng;
use crate::shapes::{crop_group_shape, is_crop_group_shape};
use crate::farm::NUM_FARM_PLOTS;
use crate::skin::{Skin, RankSkin, SuitSkin, ColorSkin};

verus! {

pub type AnimationKey = u16;

/// One card movement of the game, kept so that it can be undone.
#[derive(Clone, Copy, PartialEq, Eq, Structural, Debug)]
pub struct ActionRecord {
    pub pos1: BoardPos,
    pub pos2: BoardPos,
}

/// Which screen is shown.
#[derive(Clone, Copy, PartialEq, Eq, Structural, Debug)]
pub enum ScreenState {
    Game,
    Settings,
    Help,
}

impl Default for ScreenState {
    fn default() -> (r: Self)
        ensures
            r == ScreenState::Game,
    {
        ScreenState::Game
    }
}

/// `front` may lie on `back` in a tableau column: unlike suits, and `front` ranks one below.
pub open spec fn can_stack_spec(back: Card, front: Card) -> bool {
    back.suit != front.suit && front.rank + 1 == back.rank
}

/// The rank of `c` is one that the deck holds.
pub open spec fn rank_in_deck(c: Card) -> bool {
    -3 <= c.rank <= 3
}

/// Every card of the piles has a rank of the deck.
pub open spec fn ranks_ok(piles: Seq<Seq<Card>>) -> bool {
    forall|d: int, k: int|
        0 <= d < piles.len() && 0 <= k < piles[d].len() ==> rank_in_deck(#[trigger] piles[d][k])
}

/// The piles form a board: one pile per depot, cards of the deck only, and at most one card
/// in the free cell and in each farm plot.
pub open spec fn piles_ok(piles: Seq<Seq<Card>>) -> bool {
    &&& piles.len() == NUM_DEPOTS
    &&& ranks_ok(piles)
    &&& forall|d: int|
        0 <= d < piles.len() && (has_role(d, DepotRole::FreeCell) || has_role(d, DepotRole::Farm))
            ==> #[trigger] piles[d].len() <= 1
}

/// A deal: the full number of cards, of the deck's ranks.
pub open spec fn deal_ok(deal: Seq<Card>) -> bool {
    &&& deal.len() == DECK_SIZE
    &&& forall|k: int| 0 <= k < deal.len() ==> rank_in_deck(#[trigger] deal[k])
}

/// The piles after taking back the movement `r`.
pub open spec fn reverse_record(piles: Seq<Seq<Card>>, r: ActionRecord) -> Seq<Seq<Card>> {
    moved_piles(piles, r.pos2, r.pos1)
}

/// The movement `r` can be taken back from `piles` without leaving the board.
pub open spec fn can_reverse(piles: Seq<Seq<Card>>, r: ActionRecord) -> bool {
    &&& r.pos1.depot_index < piles.len()
    &&& r.pos2.depot_index < piles.len()
    &&& r.pos1.depot_index != r.pos2.depot_index
    &&& r.pos2.card_index <= piles[r.pos2.depot_index as int].len()
}

/// The movements of `h` can be taken back one by one, last first, and each step gives a board.
pub open spec fn reversible(piles: Seq<Seq<Card>>, h: Seq<ActionRecord>) -> bool
    decreases h.len(),
{
    if h.len() == 0 {
        true
    } else {
        &&& can_reverse(piles, h.last())
        &&& piles_ok(reverse_record(piles, h.last()))
        &&& reversible(reverse_record(piles, h.last()), h.drop_last())
    }
}

/// The piles after taking back the movements of `h` down to its first `target` ones.
pub open spec fn unwound(piles: Seq<Seq<Card>>, h: Seq<ActionRecord>, target: int) -> Seq<
    Seq<Card>,
>
    decreases h.len(),
{
    if h.len() == 0 || h.len() <= target {
        piles
    } else {
        unwound(reverse_record(piles, h.last()), h.drop_last(), target)
    }
}

/// All the cards of the piles, counted with multiplicity.
pub open spec fn board_cards(piles: Seq<Seq<Card>>) -> Multiset<Card>
    decreases piles.len(),
{
    if piles.len() == 0 {
        Multiset::empty()
    } else {
        board_cards(piles.drop_last()).add(piles.last().to_multiset())
    }
}

proof fn lemma_board_cards_update(ps: Seq<Seq<Card>>, i: int, x: Seq<Card>)
    requires
        0 <= i < ps.len(),
    ensures
        board_cards(ps.update(i, x)).add(ps[i].to_multiset()) == board_cards(ps).add(
            x.to_multiset(),
        ),
    decreases ps.len(),
{
    broadcast use vstd::multiset::group_multiset_axioms;

    let q = ps.update(i, x);
    let dl = ps.drop_last();
    let l = board_cards(q).add(ps[i].to_multiset());
    let r = board_cards(ps).add(x.to_multiset());
    if i == ps.len() - 1 {
        assert(q.drop_last() =~= dl);
        assert(board_cards(q) == board_cards(dl).add(x.to_multiset()));
        assert(board_cards(ps) == board_cards(dl).add(ps[i].to_multiset()));
        assert forall|c: Card| l.count(c) == r.count(c) by {
            assert(l.count(c) == board_cards(q).count(c) + ps[i].to_multiset().count(c));
            assert(board_cards(q).count(c) == board_cards(dl).count(c) + x.to_multiset().count(c));
        }
    } else {
        lemma_board_cards_update(dl, i, x);
        assert(q.drop_last() =~= dl.update(i, x));
        assert(board_cards(q) == board_cards(dl.update(i, x)).add(ps.last().to_multiset()));
        assert(board_cards(ps) == board_cards(dl).add(ps.last().to_multiset()));
        assert(dl[i] == ps[i]);
        assert forall|c: Card| l.count(c) == r.count(c) by {
            let u = board_cards(dl.update(i, x));
            assert(u.add(dl[i].to_multiset()).count(c) == board_cards(dl).add(x.to_multiset()).count(c));
        }
    }
    assert(l =~= r);
}

/// Moving cards between piles keeps the cards of the board.
pub proof fn lemma_moved_cards(piles: Seq<Seq<Card>>, p1: BoardPos, p2: BoardPos)
    requires
        p1.depot_index < piles.len(),
        p2.depot_index < piles.len(),
        p1.depot_index != p2.depot_index,
        p1.card_index <= piles[p1.depot_index as int].len(),
    ensures
        board_cards(moved_piles(piles, p1, p2)) == board_cards(piles),
{
    broadcast use vstd::multiset::group_multiset_axioms;
    broadcast use vstd::seq_lib::lemma_multiset_commutative;

    let d1 = p1.depot_index as int;
    let d2 = p2.depot_index as int;
    let c1 = p1.card_index as int;
    let a = piles[d1];
    let take = a.take(c1);
    let skip = a.skip(c1);
    let q1 = piles.update(d1, take);
    let q2 = q1.update(d2, piles[d2] + skip);
    lemma_board_cards_update(piles, d1, take);
    lemma_board_cards_update(q1, d2, piles[d2] + skip);
    assert(take + skip =~= a);
    assert(q1[d2] == piles[d2]);
    assert forall|c: Card| board_cards(q2).count(c) == board_cards(piles).count(c) by {
        assert(board_cards(q1).add(a.to_multiset()).count(c) == board_cards(piles).add(
            take.to_multiset(),
        ).count(c));
        assert(board_cards(q2).add(piles[d2].to_multiset()).count(c) == board_cards(q1).add(
            (piles[d2] + skip).to_multiset(),
        ).count(c));
        assert((piles[d2] + skip).to_multiset().count(c) == piles[d2].to_multiset().count(c)
            + skip.to_multiset().count(c));
        assert(a.to_multiset().count(c) == take.to_multiset().count(c) + skip.to_multiset().count(
            c,
        ));
    }
    assert(board_cards(q2) =~= board_cards(piles));
}

proof fn lemma_empty_seq_multiset(s: Seq<Card>)
    requires
        s.len() == 0,
    ensures
        s.to_multiset() == Multiset::<Card>::empty(),
{
    broadcast use vstd::seq_lib::to_multiset_len;
    broadcast use vstd::multiset::lemma_multiset_empty_len;

    assert(s.to_multiset().len() == 0);
}

proof fn lemma_dealt_prefix_cards(deal: Seq<Card>, n: int)
    requires
        deal.len() == DECK_SIZE,
        0 <= n <= NUM_DEPOTS,
    ensures
        board_cards(dealt_piles(deal).take(n)) == deal.take(if n < 4 { 12 * n } else { 48 }).to_multiset(),
    decreases n,
{
    broadcast use vstd::multiset::group_multiset_axioms;
    broadcast use vstd::seq_lib::lemma_multiset_commutative;

    let p = dealt_piles(deal);
    if n == 0 {
        assert(p.take(0).len() == 0);
        assert(deal.take(0).len() == 0);
        lemma_empty_seq_multiset(deal.take(0));
    } else {
        lemma_dealt_prefix_cards(deal, n - 1);
        let t = p.take(n);
        let prev = deal.take(if n - 1 < 4 { 12 * (n - 1) } else { 48 });
        assert(t.drop_last() =~= p.take(n - 1));
        assert(t.last() == p[n - 1]);
        assert(board_cards(t) == board_cards(p.take(n - 1)).add(p[n - 1].to_multiset()));
        if n - 1 < 4 {
            let cur = deal.take(12 * n);
            assert(cur =~= prev + p[n - 1]);
            assert forall|c: Card| board_cards(t).count(c) == cur.to_multiset().count(c) by {
                assert((prev + p[n - 1]).to_multiset().count(c) == prev.to_multiset().count(c)
                    + p[n - 1].to_multiset().count(c));
            }
            assert(board_cards(t) =~= cur.to_multiset());
        } else {
            assert(p[n - 1].len() == 0);
            lemma_empty_seq_multiset(p[n - 1]);
            assert(board_cards(t) =~= prev.to_multiset());
        }
    }
}

/// The cards of a fresh deal's piles are those of the deal.
proof fn lemma_dealt_cards(deal: Seq<Card>)
    requires
        deal.len() == DECK_SIZE,
    ensures
        board_cards(dealt_piles(deal)) == deal.to_multiset(),
{
    lemma_dealt_prefix_cards(deal, NUM_DEPOTS as int);
    assert(dealt_piles(deal).take(NUM_DEPOTS as int) =~= dealt_piles(deal));
    assert(deal.take(48) =~= deal);
}

/// No pile holds more cards than the board.
proof fn lemma_pile_len_bound(ps: Seq<Seq<Card>>, d: int)
    requires
        0 <= d < ps.len(),
    ensures
        ps[d].len() <= board_cards(ps).len(),
    decreases ps.len(),
{
    broadcast use vstd::multiset::group_multiset_axioms;
    broadcast use vstd::seq_lib::to_multiset_len;

    if d < ps.len() - 1 {
        lemma_pile_len_bound(ps.drop_last(), d);
        assert(ps.drop_last()[d] == ps[d]);
    }
}

/// The number of cards in the piles.
pub open spec fn total_len(ps: Seq<Seq<Card>>) -> int
    decreases ps.len(),
{
    if ps.len() == 0 {
        0
    } else {
        total_len(ps.drop_last()) + ps.last().len()
    }
}

proof fn lemma_board_cards_len(ps: Seq<Seq<Card>>)
    ensures
        board_cards(ps).len() == total_len(ps),
    decreases ps.len(),
{
    broadcast use vstd::multiset::group_multiset_axioms;
    broadcast use vstd::seq_lib::to_multiset_len;

    if ps.len() > 0 {
        lemma_board_cards_len(ps.drop_last());
    }
}

pub proof fn lemma_total_two(ps: Seq<Seq<Card>>, a: int, b: int)
    requires
        0 <= a < ps.len(),
        0 <= b < ps.len(),
        a != b,
    ensures
        ps[a].len() + ps[b].len() <= total_len(ps),
        ps[a].len() <= total_len(ps),
    decreases ps.len(),
{
    let n = ps.len() - 1;
    if a < n && b < n {
        lemma_total_two(ps.drop_last(), a, b);
    } else if a < n {
        lemma_total_one(ps.drop_last(), a);
    } else if b < n {
        lemma_total_one(ps.drop_last(), b);
    }
    lemma_total_nonneg(ps.drop_last());
    if a < n {
        assert(ps.drop_last()[a] == ps[a]);
    }
    if b < n {
        assert(ps.drop_last()[b] == ps[b]);
    }
}

proof fn lemma_total_one(ps: Seq<Seq<Card>>, a: int)
    requires
        0 <= a < ps.len(),
    ensures
        ps[a].len() <= total_len(ps),
        total_len(ps) >= 0,
    decreases ps.len(),
{
    lemma_total_nonneg(ps.drop_last());
    if a < ps.len() - 1 {
        lemma_total_one(ps.drop_last(), a);
        assert(ps.drop_last()[a] == ps[a]);
    }
}

proof fn lemma_total_nonneg(ps: Seq<Seq<Card>>)
    ensures
        total_len(ps) >= 0,
    decreases ps.len(),
{
    if ps.len() > 0 {
        lemma_total_nonneg(ps.drop_last());
    }
}

pub proof fn lemma_total_only(ps: Seq<Seq<Card>>, m: int)
    requires
        0 <= m < ps.len(),
        forall|d: int| 0 <= d < ps.len() && d != m ==> #[trigger] ps[d].len() == 0,
    ensures
        total_len(ps) == ps[m].len(),
    decreases ps.len(),
{
    let n = ps.len() - 1;
    if m < n {
        lemma_total_only(ps.drop_last(), m);
        assert(ps.drop_last()[m] == ps[m]);
        assert(ps[n].len() == 0);
    } else {
        lemma_total_zero(ps.drop_last());
    }
}

proof fn lemma_total_zero(ps: Seq<Seq<Card>>)
    requires
        forall|d: int| 0 <= d < ps.len() ==> #[trigger] ps[d].len() == 0,
    ensures
        total_len(ps) == 0,
    decreases ps.len(),
{
    if ps.len() > 0 {
        let dl = ps.drop_last();
        assert forall|d: int| 0 <= d < dl.len() implies #[trigger] dl[d].len() == 0 by {
            assert(dl[d] == ps[d]);
        }
        lemma_total_zero(dl);
    }
}

/// In a valid state the piles hold the whole deck, and no more.
pub proof fn lemma_piles_total(v: GameView)
    requires
        v.valid(),
    ensures
        total_len(v.piles) == DECK_SIZE,
{
    broadcast use vstd::seq_lib::to_multiset_len;

    lemma_board_cards_len(v.piles);
}

/// In a valid state no pile holds more than the deck.
pub proof fn lemma_valid_pile_len(v: GameView, d: int)
    requires
        v.valid(),
        0 <= d < v.piles.len(),
    ensures
        v.piles[d].len() <= DECK_SIZE,
{
    broadcast use vstd::seq_lib::to_multiset_len;

    lemma_pile_len_bound(v.piles, d);
}

/// The state of a game, as values.
#[verifier::ext_equal]
pub struct GameView {
    pub piles: Seq<Seq<Card>>,
    pub selected: Option<Selection>,
    pub acts: Seq<(Seq<Card>, BoardPos, BoardPos)>,
    pub deal: Seq<Card>,
    pub animation_key: u16,
    pub history: Seq<ActionRecord>,
    pub undo_stack: Seq<usize>,
    pub already_won: bool,
    pub num_wins: i32,
    pub screen_state: ScreenState,
    pub allow_undo: bool,
    pub skin: Skin,
}

impl GameView {
    /// Card movements are still being shown.
    pub open spec fn busy(self) -> bool {
        self.acts.len() > 0
    }

    /// The selection names cards that lie in a tableau column or the free cell, or farm plots.
    pub open spec fn selection_ok(self) -> bool {
        match self.selected {
            None => true,
            Some(Selection::Stack(p)) => p.depot_index < self.piles.len() && p.card_index
                < self.piles[p.depot_index as int].len() && (has_role(
                p.depot_index as int,
                DepotRole::Tableau,
            ) || has_role(p.depot_index as int, DepotRole::FreeCell)),
            Some(Selection::Farm(m)) => forall|i: u16| #[trigger] m.has(i) ==> i < NUM_FARM_PLOTS,
        }
    }

    /// What the player's clicks need of a board: one pile per depot, cards of the deck's ranks,
    /// and a selection as picking makes it.
    pub open spec fn playable(self) -> bool {
        &&& self.piles.len() == NUM_DEPOTS
        &&& ranks_ok(self.piles)
        &&& self.selection_ok()
    }

    /// The invariant of a game in progress.
    pub open spec fn valid(self) -> bool {
        &&& piles_ok(self.piles)
        &&& deal_ok(self.deal)
        &&& board_cards(self.piles) == self.deal.to_multiset()
        &&& self.selection_ok()
        &&& reversible(self.piles, self.history)
    }

    /// All the deck is in the market.
    pub open spec fn won(self) -> bool {
        self.piles[DepotRole::Market.spec_base()].len() == DECK_SIZE
    }
}

/// The state after moving the cards at `p1` onto depot `p2.depot_index`, recorded in the history.
pub open spec fn record_move(v: GameView, p1: BoardPos, p2: BoardPos) -> GameView {
    GameView {
        piles: moved_piles(v.piles, p1, p2),
        selected: None,
        acts: v.acts.push((v.piles[p1.depot_index as int].skip(p1.card_index as int), p1, p2)),
        history: v.history.push(ActionRecord { pos1: p1, pos2: p2 }),
        ..v
    }
}

/// The player may move the cards at `p1` to `p2`, which must be just above the top of its depot:
/// onto a tableau column that is empty or whose top card takes the first moved card, or a single
/// card into the empty free cell or an empty farm plot.
pub open spec fn move_allowed(v: GameView, p1: BoardPos, p2: BoardPos) -> bool {
    let d1 = p1.depot_index as int;
    let d2 = p2.depot_index as int;
    let num_moved = v.piles[d1].len() - p1.card_index;
    let card = v.piles[d1][p1.card_index as int];
    &&& d1 != d2
    &&& p2.card_index == v.piles[d2].len()
    &&& match DepotRole::spec_role_and_subindex(d2) {
        Some((DepotRole::Tableau, _)) => v.piles[d2].len() == 0 || can_stack_spec(
            v.piles[d2].last(),
            card,
        ),
        Some((DepotRole::FreeCell, _)) => num_moved == 1 && v.piles[d2].len() == 0,
        Some((DepotRole::Farm, _)) => num_moved == 1 && v.piles[d2].len() == 0,
        _ => false,
    }
}

/// The state after the player's move from `p1` to `p2`: one undoable step.
pub open spec fn move_result(v: GameView, p1: BoardPos, p2: BoardPos) -> GameView {
    GameView { undo_stack: v.undo_stack.push(v.history.len() as usize), ..record_move(v, p1, p2) }
}

/// The cards `slice[k]` and `slice[k + 1]` stack.
pub open spec fn stacks_at(slice: Seq<Card>, k: int) -> bool {
    can_stack_spec(slice[k], slice[k + 1])
}

/// The selection after the player picks the card at `pos`: the pile from there up when it
/// is a tableau stack, or the single card of the free cell, or the single card of a farm plot;
/// otherwise the selection is left as it was.
pub open spec fn selection_after_pick(v: GameView, pos: BoardPos) -> Option<Selection> {
    let d = pos.depot_index as int;
    let ord = pos.card_index as int;
    if ord >= v.piles[d].len() {
        v.selected
    } else {
        let slice = v.piles[d].skip(ord);
        match DepotRole::spec_role_and_subindex(d) {
            Some((DepotRole::Tableau, _)) => if forall|k: int|
                0 <= k < slice.len() - 1 ==> #[trigger] stacks_at(slice, k) {
                Some(Selection::Stack(pos))
            } else {
                v.selected
            },
            Some((DepotRole::FreeCell, _)) => if slice.len() == 1 {
                Some(Selection::Stack(pos))
            } else {
                v.selected
            },
            Some((DepotRole::Farm, i)) => if slice.len() == 1 {
                Some(Selection::Farm(BitMask(1u16 << (i as u16))))
            } else {
                v.selected
            },
            _ => v.selected,
        }
    }
}

/// Taking back a movement onto the top of a depot restores the piles.
pub proof fn lemma_reverse_inverts(piles: Seq<Seq<Card>>, p1: BoardPos, p2: BoardPos)
    requires
        p1.depot_index < piles.len(),
        p2.depot_index < piles.len(),
        p1.depot_index != p2.depot_index,
        p1.card_index <= piles[p1.depot_index as int].len(),
        p2.card_index == piles[p2.depot_index as int].len(),
    ensures
        can_reverse(moved_piles(piles, p1, p2), ActionRecord { pos1: p1, pos2: p2 }),
        reverse_record(moved_piles(piles, p1, p2), ActionRecord { pos1: p1, pos2: p2 }) == piles,
{
    let m = moved_piles(piles, p1, p2);
    let r = reverse_record(m, ActionRecord { pos1: p1, pos2: p2 });
    let d1 = p1.depot_index as int;
    let d2 = p2.depot_index as int;
    assert(r[d1] =~= piles[d1]);
    assert(r[d2] =~= piles[d2]);
    assert(r =~= piles);
}

/// Moving cards between piles keeps every card's rank a rank of the deck.
proof fn lemma_moved_ranks(piles: Seq<Seq<Card>>, p1: BoardPos, p2: BoardPos)
    requires
        piles_ok(piles),
        p1.depot_index < piles.len(),
        p2.depot_index < piles.len(),
        p1.depot_index != p2.depot_index,
        p1.card_index <= piles[p1.depot_index as int].len(),
    ensures
        forall|d: int, k: int|
            0 <= d < moved_piles(piles, p1, p2).len() && 0 <= k < moved_piles(piles, p1, p2)[d].len()
                ==> rank_in_deck(#[trigger] moved_piles(piles, p1, p2)[d][k]),
        moved_piles(piles, p1, p2).len() == piles.len(),
{
    let m = moved_piles(piles, p1, p2);
    let d1 = p1.depot_index as int;
    let d2 = p2.depot_index as int;
    let c1 = p1.card_index as int;
    assert forall|d: int, k: int| 0 <= d < m.len() && 0 <= k < m[d].len() implies rank_in_deck(
        #[trigger] m[d][k],
    ) by {
        if d == d2 {
            if k < piles[d2].len() {
                assert(m[d][k] == piles[d2][k]);
            } else {
                assert(m[d][k] == piles[d1][c1 + k - piles[d2].len()]);
            }
        } else if d == d1 {
            assert(m[d][k] == piles[d1][k]);
        } else {
            assert(m[d][k] == piles[d][k]);
        }
    }
}

/// A recorded movement onto the top of a depot, from a valid state and to a board, keeps the
/// state valid, and taking it back from the new state gives the old piles.
pub proof fn lemma_record_move_valid(v: GameView, p1: BoardPos, p2: BoardPos)
    requires
        v.valid(),
        p1.depot_index < v.piles.len(),
        p2.depot_index < v.piles.len(),
        p1.depot_index != p2.depot_index,
        p1.card_index <= v.piles[p1.depot_index as int].len(),
        p2.card_index == v.piles[p2.depot_index as int].len(),
        piles_ok(moved_piles(v.piles, p1, p2)),
    ensures
        record_move(v, p1, p2).valid(),
        unwound(record_move(v, p1, p2).piles, record_move(v, p1, p2).history, v.history.len() as int)
            == v.piles,
{
    let w = record_move(v, p1, p2);
    lemma_reverse_inverts(v.piles, p1, p2);
    lemma_moved_cards(v.piles, p1, p2);
    assert(w.history.drop_last() =~= v.history);
    assert(w.history.last() == ActionRecord { pos1: p1, pos2: p2 });
    assert(unwound(v.piles, v.history, v.history.len() as int) == v.piles);
}

/// An allowed move, from a valid state, gives a board.
proof fn lemma_allowed_move_piles_ok(v: GameView, p1: BoardPos, p2: BoardPos)
    requires
        v.valid(),
        p1.depot_index < v.piles.len(),
        p2.depot_index < v.piles.len(),
        p1.card_index < v.piles[p1.depot_index as int].len(),
        move_allowed(v, p1, p2),
    ensures
        piles_ok(moved_piles(v.piles, p1, p2)),
{
    let m = moved_piles(v.piles, p1, p2);
    lemma_moved_ranks(v.piles, p1, p2);
    let d1 = p1.depot_index as int;
    let d2 = p2.depot_index as int;
    assert forall|d: int|
        0 <= d < m.len() && (has_role(d, DepotRole::FreeCell) || has_role(d, DepotRole::Farm))
        implies #[trigger] m[d].len() <= 1 by {
        if d == d2 {
            assert(v.piles[d2].len() == 0);
        } else if d == d1 {
        } else {
            assert(m[d] == v.piles[d]);
        }
    }
}

/// The top card of farm plot `i`, if the plot holds one.
pub open spec fn farm_top(piles: Seq<Seq<Card>>, i: int) -> Option<Card> {
    let d = DepotRole::Farm.spec_base() + i;
    if piles[d].len() > 0 {
        Some(piles[d].last())
    } else {
        None
    }
}

/// The sum of the ranks of the top cards of the plots of `m` below `n`.
pub open spec fn farm_rank_sum(piles: Seq<Seq<Card>>, m: BitMask, n: int) -> int
    decreases n,
{
    if n <= 0 {
        0
    } else {
        farm_rank_sum(piles, m, n - 1) + if m.has((n - 1) as u16) {
            farm_top(piles, n - 1)->0.rank as int
        } else {
            0
        }
    }
}

/// The plots of `m` form a group of suit `s` that may be harvested: at least one plot, each
/// with a top card of suit `s`, in the shape of the suit, with ranks summing to 0.
pub open spec fn crop_group_of_suit(piles: Seq<Seq<Card>>, m: BitMask, s: Suit) -> bool {
    &&& exists|i: u16| #[trigger] m.has(i)
    &&& forall|i: u16| #[trigger] m.has(i) ==> (farm_top(piles, i as int) matches Some(c) && c.suit == s)
    &&& crop_group_shape(s, m)
    &&& farm_rank_sum(piles, m, NUM_FARM_PLOTS as int) == 0
}

/// The farm plots selected form a group that may be harvested.
pub open spec fn crop_group_ok(v: GameView) -> bool {
    match v.selected {
        Some(Selection::Farm(m)) => exists|s: Suit| crop_group_of_suit(v.piles, m, s),
        _ => false,
    }
}

/// The plots of `m` below `n`, in ascending order.
pub open spec fn plots_below(m: BitMask, n: int) -> Seq<int>
    decreases n,
{
    if n <= 0 {
        Seq::empty()
    } else {
        plots_below(m, n - 1) + if m.has((n - 1) as u16) {
            seq![n - 1]
        } else {
            Seq::empty()
        }
    }
}

/// The state after moving the piles of the farm plots `plots`, in order, onto the market,
/// the first one recorded as going to position `start` of the market.
pub open spec fn harvest_steps(v: GameView, plots: Seq<int>, start: int) -> GameView
    decreases plots.len(),
{
    if plots.len() == 0 {
        v
    } else {
        record_move(
            harvest_steps(v, plots.drop_last(), start),
            BoardPos {
                depot_index: (DepotRole::Farm.spec_base() + plots.last()) as usize,
                card_index: 0,
            },
            BoardPos {
                depot_index: DepotRole::Market.spec_base() as usize,
                card_index: (start + plots.len() - 1) as usize,
            },
        )
    }
}

/// The state after harvesting the selected farm plots `m` into the market: one undoable step.
pub open spec fn harvest_result(v: GameView, m: BitMask) -> GameView {
    GameView {
        undo_stack: v.undo_stack.push(v.history.len() as usize),
        ..harvest_steps(
            v,
            plots_below(m, NUM_FARM_PLOTS as int),
            v.piles[DepotRole::Market.spec_base()].len() as int,
        )
    }
}

/// The state after the player clicks the card, or the empty place, at `pos`.
/// With nothing selected, the click picks. With a stack selected, a click on it drops the
/// selection, a click in its depot picks again, and a click elsewhere moves the stack just above
/// the clicked card. With farm plots selected, a click on an occupied plot toggles it, and a click
/// on the market harvests the plots when they form a valid group.
/// Nothing happens while movements are being shown.
pub open spec fn click_result(v: GameView, pos: BoardPos) -> GameView {
    if v.busy() {
        v
    } else {
        match v.selected {
            None => GameView { selected: selection_after_pick(v, pos), ..v },
            Some(Selection::Stack(src)) => if pos == src {
                GameView { selected: None, ..v }
            } else if src.depot_index == pos.depot_index {
                GameView { selected: selection_after_pick(v, pos), ..v }
            } else {
                let dest = BoardPos {
                    depot_index: pos.depot_index,
                    card_index: if pos.card_index == usize::MAX {
                        0
                    } else {
                        (pos.card_index + 1) as usize
                    },
                };
                if move_allowed(v, src, dest) {
                    move_result(v, src, dest)
                } else {
                    v
                }
            },
            Some(Selection::Farm(m)) => match DepotRole::spec_role_and_subindex(
                pos.depot_index as int,
            ) {
                Some((DepotRole::Farm, i)) => if v.piles[pos.depot_index as int].len() == 0 {
                    v
                } else {
                    let m2 = BitMask(m.0 ^ (1u16 << (i as u16)));
                    GameView {
                        selected: if m2.0 == 0 {
                            None
                        } else {
                            Some(Selection::Farm(m2))
                        },
                        ..v
                    }
                },
                Some((DepotRole::Market, _)) => if crop_group_ok(v) {
                    harvest_result(v, m)
                } else {
                    v
                },
                _ => v,
            },
        }
    }
}

/// The state after the player double-clicks the card at `pos`: a tableau stack from there up
/// goes to the free cell when the move is allowed.
pub open spec fn double_click_result(v: GameView, pos: BoardPos) -> GameView {
    if v.busy() || !has_role(pos.depot_index as int, DepotRole::Tableau) || pos.card_index
        >= v.piles[pos.depot_index as int].len() {
        v
    } else {
        let fc = DepotRole::FreeCell.spec_base();
        let dest = BoardPos { depot_index: fc as usize, card_index: v.piles[fc].len() as usize };
        if move_allowed(v, pos, dest) {
            move_result(v, pos, dest)
        } else {
            v
        }
    }
}

/// A recorded movement onto the top of a depot does not change where taking back the history
/// down to an earlier length leads.
proof fn lemma_unwound_record_move(v: GameView, p1: BoardPos, p2: BoardPos, t: int)
    requires
        p1.depot_index < v.piles.len(),
        p2.depot_index < v.piles.len(),
        p1.depot_index != p2.depot_index,
        p1.card_index <= v.piles[p1.depot_index as int].len(),
        p2.card_index == v.piles[p2.depot_index as int].len(),
        t <= v.history.len(),
    ensures
        unwound(record_move(v, p1, p2).piles, record_move(v, p1, p2).history, t) == unwound(
            v.piles,
            v.history,
            t,
        ),
{
    let w = record_move(v, p1, p2);
    lemma_reverse_inverts(v.piles, p1, p2);
    assert(w.history.drop_last() =~= v.history);
}

/// The plots below `n + 1` are those below `n`, then `n` itself when the mask holds it.
pub proof fn lemma_plots_below_step(m: BitMask, n: int)
    requires
        0 <= n,
    ensures
        m.has(n as u16) ==> plots_below(m, n + 1).drop_last() =~= plots_below(m, n)
            && plots_below(m, n + 1).last() == n && plots_below(m, n + 1).len() == plots_below(
            m,
            n,
        ).len() + 1,
        !m.has(n as u16) ==> plots_below(m, n + 1) =~= plots_below(m, n),
        forall|k: int|
            0 <= k < plots_below(m, n + 1).len() ==> 0 <= #[trigger] plots_below(m, n + 1)[k] <= n,
    decreases n,
{
    if n > 0 {
        lemma_plots_below_step(m, n - 1);
    }
    let a = plots_below(m, n);
    let b = plots_below(m, n + 1);
    assert forall|k: int| 0 <= k < b.len() implies 0 <= #[trigger] b[k] <= n by {
        if k < a.len() {
            assert(b[k] == a[k]);
            if n > 0 {
                assert(a =~= plots_below(m, n - 1 + 1));
            }
        }
    }
}

/// The suit at position `j` of a round of the fresh deck.
pub open spec fn suit_in_round(j: int) -> Suit {
    if j == 0 {
        Suit::Melon
    } else if j == 1 {
        Suit::Corn
    } else if j == 2 {
        Suit::Blueberry
    } else {
        Suit::Eggplant
    }
}

/// The deck before shuffling: for each rank of `RANKS_PER_SUIT` in turn, one card of each suit.
pub open spec fn fresh_deck() -> Seq<Card> {
    Seq::new(
        DECK_SIZE as nat,
        |k: int| Card { rank: RANKS_PER_SUIT@[k / NUM_SUITS as int], suit: suit_in_round(k % NUM_SUITS as int) },
    )
}

/// The state after taking back the last undoable step: the movements recorded since it began
/// are taken back, last first. Nothing happens while movements are being shown, when undo is
/// not allowed, or when there is no step to take back.
pub open spec fn undo_result(v: GameView) -> GameView {
    if v.busy() || !v.allow_undo || v.undo_stack.len() == 0 {
        v
    } else {
        let target = v.undo_stack.last() as int;
        if v.history.len() <= target {
            GameView { undo_stack: v.undo_stack.drop_last(), ..v }
        } else {
            GameView {
                piles: unwound(v.piles, v.history, target),
                history: v.history.take(target),
                undo_stack: v.undo_stack.drop_last(),
                selected: None,
                ..v
            }
        }
    }
}

/// The state after restarting the game with the same deal, which is done only when there is
/// something to undo and undo is allowed.
pub open spec fn restart_result(v: GameView) -> GameView {
    if v.history.len() == 0 || !v.allow_undo || v.undo_stack.len() == 0 {
        v
    } else {
        GameView {
            piles: dealt_piles(v.deal),
            selected: None,
            acts: Seq::empty(),
            history: Seq::empty(),
            undo_stack: Seq::empty(),
            ..v
        }
    }
}

/// The state after the display reports that the movements of batch `key` have been shown:
/// for the current key, the movements are done, the key moves on (wrapping), and a first win
/// is counted. Other keys are stale and change nothing.
pub open spec fn advance_result(v: GameView, key: u16) -> GameView {
    if key != v.animation_key {
        v
    } else {
        let w = GameView {
            animation_key: if v.animation_key == u16::MAX {
                0
            } else {
                (v.animation_key + 1) as u16
            },
            acts: Seq::empty(),
            ..v
        };
        if w.won() && !v.already_won {
            GameView { num_wins: (v.num_wins + 1) as i32, already_won: true, ..w }
        } else {
            w
        }
    }
}

/// The state of a fresh game dealt as `deal`, keeping the counters and settings of `v`.
pub open spec fn new_game_result(v: GameView, deal: Seq<Card>) -> GameView {
    GameView {
        piles: dealt_piles(deal),
        selected: None,
        acts: Seq::empty(),
        deal: deal,
        history: Seq::empty(),
        undo_stack: Seq::empty(),
        already_won: false,
        ..v
    }
}

/// A dealt board is a board, with nothing to take back.
pub proof fn lemma_dealt_valid(v: GameView)
    requires
        deal_ok(v.deal),
        v.piles == dealt_piles(v.deal),
        v.selected is None,
        v.history.len() == 0,
    ensures
        v.valid(),
{
    let p = v.piles;
    lemma_dealt_cards(v.deal);
    assert forall|d: int, k: int| 0 <= d < p.len() && 0 <= k < p[d].len() implies rank_in_deck(
        #[trigger] p[d][k],
    ) by {
        assert(p[d][k] == v.deal[d * 12 + k]);
    }
}

/// Taking back the history of a reversible board down to `target` gives a board, from which
/// the rest of the history can still be taken back.
pub proof fn lemma_unwound_valid(piles: Seq<Seq<Card>>, h: Seq<ActionRecord>, target: int)
    requires
        piles_ok(piles),
        reversible(piles, h),
        0 <= target <= h.len(),
    ensures
        piles_ok(unwound(piles, h, target)),
        reversible(unwound(piles, h, target), h.take(target)),
    decreases h.len(),
{
    if h.len() == 0 || h.len() <= target {
        assert(h.take(target) =~= h);
    } else {
        lemma_unwound_valid(reverse_record(piles, h.last()), h.drop_last(), target);
        assert(h.drop_last().take(target) =~= h.take(target));
    }
}

/// A shuffled fresh deck is a deal.
proof fn lemma_shuffled_deck_ok(deal: Seq<Card>)
    requires
        deal.to_multiset() == fresh_deck().to_multiset(),
        deal.len() == DECK_SIZE,
    ensures
        deal_ok(deal),
{
    broadcast use vstd::seq_lib::group_to_multiset_ensures;
    assert forall|k: int| 0 <= k < deal.len() implies rank_in_deck(#[trigger] deal[k]) by {
        assert(deal.contains(deal[k]));
        assert(fresh_deck().to_multiset().count(deal[k]) > 0);
        assert(fresh_deck().contains(deal[k]));
        let j = choose|j: int| 0 <= j < fresh_deck().len() && fresh_deck()[j] == deal[k];
        assert(0 <= j / 4 < 12);
    }
}

/// The plots below `n` that a mask holds, listed: each below `n`, and at least one when the
/// mask holds a plot below `n`.
pub proof fn lemma_plots_below_props(m: BitMask, n: int)
    requires
        0 <= n,
    ensures
        forall|k: int| 0 <= k < plots_below(m, n).len() ==> 0 <= #[trigger] plots_below(m, n)[k] < n,
        (exists|j: u16| j < n && #[trigger] m.has(j)) ==> plots_below(m, n).len() > 0,
    decreases n,
{
    if n > 0 {
        lemma_plots_below_props(m, n - 1);
        lemma_plots_below_step(m, n - 1);
        if exists|j: u16| j < n && #[trigger] m.has(j) {
            let j = choose|j: u16| j < n && #[trigger] m.has(j);
            if j != n - 1 {
                assert(j < n - 1 && m.has(j));
            }
        }
    }
}

/// Harvesting the plots of a valid group one by one keeps the state valid, puts each plot's
/// card on top of the market, leaves the plots not yet reached alone, and can be taken back.
#[verifier::spinoff_prover]
pub proof fn lemma_harvest_steps(v: GameView, mask: BitMask, s: Suit, n: int)
    requires
        v.valid(),
        v.selected == Some(Selection::Farm(mask)),
        crop_group_of_suit(v.piles, mask, s),
        0 <= n <= NUM_FARM_PLOTS,
    ensures
        ({
            let start = v.piles[DepotRole::Market.spec_base()].len() as int;
            let w = harvest_steps(v, plots_below(mask, n), start);
            &&& w.valid()
            &&& w.piles[DepotRole::Market.spec_base()].len() == start + plots_below(mask, n).len()
            &&& forall|j: int|
                0 <= j < NUM_FARM_PLOTS ==> #[trigger] w.piles[DepotRole::Farm.spec_base() + j]
                    == if j < n && mask.has(j as u16) {
                    Seq::<Card>::empty()
                } else {
                    v.piles[DepotRole::Farm.spec_base() + j]
                }
            &&& forall|k: int|
                v.history.len() <= k < w.history.len() ==> has_role(
                    #[trigger] w.history[k].pos1.depot_index as int,
                    DepotRole::Farm,
                ) && w.history[k].pos2.depot_index == DepotRole::Market.spec_base()
            &&& w.history.len() == v.history.len() + plots_below(mask, n).len()
            &&& w.history.take(v.history.len() as int) == v.history
            &&& unwound(w.piles, w.history, v.history.len() as int) == v.piles
            &&& plots_below(mask, n).len() > 0 ==> w.selected is None
            &&& plots_below(mask, n).len() == 0 ==> w == v
            &&& w.undo_stack == v.undo_stack
            &&& w.deal == v.deal
            &&& w.animation_key == v.animation_key
            &&& w.already_won == v.already_won
            &&& w.num_wins == v.num_wins
            &&& w.screen_state == v.screen_state
            &&& w.allow_undo == v.allow_undo
            &&& w.skin == v.skin
        }),
    decreases n,
{
    let start = v.piles[DepotRole::Market.spec_base()].len() as int;
    if n == 0 {
        assert(plots_below(mask, 0) =~= Seq::<int>::empty());
        assert(v.history.take(v.history.len() as int) =~= v.history);
    } else {
        let i = n - 1;
        lemma_harvest_steps(v, mask, s, i);
        lemma_plots_below_step(mask, i);
        let w = harvest_steps(v, plots_below(mask, i), start);
        if mask.has(i as u16) {
            let ps = plots_below(mask, n);
            let d = DepotRole::Farm.spec_base() + i;
            let market = DepotRole::Market.spec_base();
            let p1 = BoardPos { depot_index: d as usize, card_index: 0 };
            let p2 = BoardPos {
                depot_index: market as usize,
                card_index: (start + ps.len() - 1) as usize,
            };
            lemma_valid_pile_len(w, market);
            assert(harvest_steps(v, ps, start) == record_move(w, p1, p2));
            assert(farm_top(v.piles, i) is Some);
            assert(w.piles[d] == v.piles[d]);
            assert(has_role(d, DepotRole::Farm));
            assert(w.piles[d].len() == 1);
            lemma_unwound_record_move(w, p1, p2, v.history.len() as int);
            let m = moved_piles(w.piles, p1, p2);
            lemma_moved_ranks(w.piles, p1, p2);
            assert forall|e: int|
                0 <= e < m.len() && (has_role(e, DepotRole::FreeCell) || has_role(e, DepotRole::Farm))
                implies #[trigger] m[e].len() <= 1 by {
                if e != d && e != market {
                    assert(m[e] == w.piles[e]);
                }
            }
            lemma_record_move_valid(w, p1, p2);
            let w2 = record_move(w, p1, p2);
            assert(w2.history.take(v.history.len() as int) =~= v.history) by {
                assert(w.history.take(v.history.len() as int) == v.history);
            }
            assert forall|j: int| 0 <= j < NUM_FARM_PLOTS implies #[trigger] w2.piles[
                DepotRole::Farm.spec_base() + j] == if j < n && mask.has(j as u16) {
                Seq::<Card>::empty()
            } else {
                v.piles[DepotRole::Farm.spec_base() + j]
            } by {
                assert(w.piles[DepotRole::Farm.spec_base() + j] == if j < i && mask.has(j as u16) {
                    Seq::<Card>::empty()
                } else {
                    v.piles[DepotRole::Farm.spec_base() + j]
                });
                if j == i {
                    assert(w2.piles[d] =~= Seq::<Card>::empty());
                }
            }
            assert forall|k: int| v.history.len() <= k < w2.history.len() implies has_role(
                #[trigger] w2.history[k].pos1.depot_index as int,
                DepotRole::Farm,
            ) && w2.history[k].pos2.depot_index == DepotRole::Market.spec_base() by {
                if k < w.history.len() {
                    assert(w2.history[k] == w.history[k]);
                }
            }
        } else {
            assert(plots_below(mask, n) == plots_below(mask, i));
        }
    }
}

/// A pick keeps the selection one of cards on the board or of farm plots.
proof fn lemma_pick_valid(v: GameView, pos: BoardPos)
    requires
        v.valid(),
        pos.depot_index < NUM_DEPOTS,
    ensures
        (GameView { selected: selection_after_pick(v, pos), ..v }).valid(),
{
    if let Some((DepotRole::Farm, i)) = DepotRole::spec_role_and_subindex(pos.depot_index as int) {
        lemma_single_has(i as u16);
    }
}

/// A click keeps a valid game valid. When it changes the history, it is one undoable step: the
/// old history is kept as a prefix, the undo stack records its length, and taking the new
/// movements back gives the old piles. Otherwise the piles, the history and the undo stack are
/// unchanged.
pub proof fn lemma_click_step(v: GameView, pos: BoardPos)
    requires
        v.valid(),
        pos.depot_index < NUM_DEPOTS || v.busy() || v.selected matches Some(Selection::Farm(_)),
    ensures
        click_result(v, pos).valid(),
        click_result(v, pos).deal == v.deal,
        click_result(v, pos).allow_undo == v.allow_undo,
        click_result(v, pos).num_wins == v.num_wins,
        click_result(v, pos).already_won == v.already_won,
        click_result(v, pos).animation_key == v.animation_key,
        click_result(v, pos).screen_state == v.screen_state,
        click_result(v, pos).skin == v.skin,
        click_result(v, pos).history == v.history ==> click_result(v, pos).piles == v.piles
            && click_result(v, pos).undo_stack == v.undo_stack,
        click_result(v, pos).history != v.history ==> {
            let w = click_result(v, pos);
            &&& w.history.len() > v.history.len()
            &&& w.history.take(v.history.len() as int) == v.history
            &&& w.undo_stack == v.undo_stack.push(v.history.len() as usize)
            &&& unwound(w.piles, w.history, v.history.len() as int) == v.piles
        },
{
    let w = click_result(v, pos);
    if v.busy() {
    } else {
        match v.selected {
            None => {
                lemma_pick_valid(v, pos);
            },
            Some(Selection::Stack(src)) => {
                if pos == src {
                } else if src.depot_index == pos.depot_index {
                    lemma_pick_valid(v, pos);
                } else {
                    let dest = BoardPos {
                        depot_index: pos.depot_index,
                        card_index: if pos.card_index == usize::MAX {
                            0
                        } else {
                            (pos.card_index + 1) as usize
                        },
                    };
                    if move_allowed(v, src, dest) {
                        lemma_allowed_move_piles_ok(v, src, dest);
                        lemma_record_move_valid(v, src, dest);
                        assert(w.history.take(v.history.len() as int) =~= v.history);
                    }
                }
            },
            Some(Selection::Farm(m)) => {
                match DepotRole::spec_role_and_subindex(pos.depot_index as int) {
                    Some((DepotRole::Farm, i)) => {
                        lemma_flip_has(m, i as u16);
                    },
                    Some((DepotRole::Market, _)) => {
                        if crop_group_ok(v) {
                            let s = choose|s: Suit| crop_group_of_suit(v.piles, m, s);
                            lemma_harvest_steps(v, m, s, NUM_FARM_PLOTS as int);
                            lemma_plots_below_props(m, NUM_FARM_PLOTS as int);
                            let j = choose|j: u16| #[trigger] m.has(j);
                            assert(j < NUM_FARM_PLOTS && m.has(j));
                        }
                    },
                    _ => {},
                }
            },
        }
    }
}

/// A double click keeps a valid game valid, and is an undoable step when it changes the history.
pub proof fn lemma_double_click_step(v: GameView, pos: BoardPos)
    requires
        v.valid(),
    ensures
        double_click_result(v, pos).valid(),
        double_click_result(v, pos).deal == v.deal,
        double_click_result(v, pos).allow_undo == v.allow_undo,
        double_click_result(v, pos).num_wins == v.num_wins,
        double_click_result(v, pos).already_won == v.already_won,
        double_click_result(v, pos).animation_key == v.animation_key,
        double_click_result(v, pos).screen_state == v.screen_state,
        double_click_result(v, pos).skin == v.skin,
        double_click_result(v, pos).history == v.history ==> double_click_result(v, pos).piles
            == v.piles && double_click_result(v, pos).undo_stack == v.undo_stack,
        double_click_result(v, pos).history != v.history ==> {
            let w = double_click_result(v, pos);
            &&& w.history.len() > v.history.len()
            &&& w.history.take(v.history.len() as int) == v.history
            &&& w.undo_stack == v.undo_stack.push(v.history.len() as usize)
            &&& unwound(w.piles, w.history, v.history.len() as int) == v.piles
        },
{
    let w = double_click_result(v, pos);
    if v.busy() || !has_role(pos.depot_index as int, DepotRole::Tableau) || pos.card_index
        >= v.piles[pos.depot_index as int].len() {
    } else {
        let fc = DepotRole::FreeCell.spec_base();
        lemma_valid_pile_len(v, fc);
        let dest = BoardPos { depot_index: fc as usize, card_index: v.piles[fc].len() as usize };
        if move_allowed(v, pos, dest) {
            lemma_allowed_move_piles_ok(v, pos, dest);
            lemma_record_move_valid(v, pos, dest);
            assert(w.history.take(v.history.len() as int) =~= v.history);
        }
    }
}

/// Taking back movements that can be taken back keeps the cards of the board.
pub proof fn lemma_unwound_cards(piles: Seq<Seq<Card>>, h: Seq<ActionRecord>, target: int)
    requires
        reversible(piles, h),
    ensures
        board_cards(unwound(piles, h, target)) == board_cards(piles),
    decreases h.len(),
{
    if h.len() == 0 || h.len() <= target {
    } else {
        let r = h.last();
        lemma_moved_cards(piles, r.pos2, r.pos1);
        lemma_unwound_cards(reverse_record(piles, r), h.drop_last(), target);
    }
}

/// Undo keeps a valid game valid.
pub proof fn lemma_undo_step(v: GameView)
    requires
        v.valid(),
    ensures
        undo_result(v).valid(),
        undo_result(v).deal == v.deal,
{
    if v.busy() || !v.allow_undo || v.undo_stack.len() == 0 {
    } else {
        let target = v.undo_stack.last() as int;
        if v.history.len() > target {
            lemma_unwound_valid(v.piles, v.history, target);
            lemma_unwound_cards(v.piles, v.history, target);
        }
    }
}

/// Restarting keeps a valid game valid.
pub proof fn lemma_restart_step(v: GameView)
    requires
        v.valid(),
    ensures
        restart_result(v).valid(),
        restart_result(v).deal == v.deal,
{
    if v.history.len() == 0 || !v.allow_undo || v.undo_stack.len() == 0 {
    } else {
        lemma_dealt_valid(restart_result(v));
    }
}

proof fn lemma_farm_selection_outside(v: GameView, m: BitMask, j: u16)
    requires
        v.selected == Some(Selection::Farm(m)),
        m.has(j),
        j >= NUM_FARM_PLOTS,
    ensures
        !v.selection_ok(),
{
    if v.selection_ok() {
        assert(v.selected matches Some(Selection::Farm(m2)) && m2 == m);
    }
}

/// Whether every card of the board has a rank of the deck.
fn check_ranks(b: &Board) -> (r: bool)
    ensures
        r == ranks_ok(b.piles()),
{
    let n = b.depots.len();
    let mut d: usize = 0;
    while d < n
        invariant
            n == b.depots@.len(),
            d <= n,
            forall|e: int, k: int|
                0 <= e < d && 0 <= k < b.piles()[e].len() ==> rank_in_deck(#[trigger] b.piles()[e][k]),
        decreases n - d,
    {
        let pile = &b.depots[d];
        let mut k: usize = 0;
        while k < pile.len()
            invariant
                n == b.depots@.len(),
                d < n,
                pile@ == b.piles()[d as int],
                k <= pile.len(),
                forall|e: int, j: int|
                    0 <= e < d && 0 <= j < b.piles()[e].len() ==> rank_in_deck(#[trigger] b.piles()[e][j]),
                forall|j: int| 0 <= j < k ==> rank_in_deck(#[trigger] b.piles()[d as int][j]),
            decreases pile.len() - k,
        {
            let c = pile[k];
            if c.rank < -3 || c.rank > 3 {
                assert(!rank_in_deck(b.piles()[d as int][k as int]));
                return false;
            }
            k = k + 1;
        }
        d = d + 1;
    }
    true
}

/// Whether the board's piles form a board (`piles_ok`).
fn check_piles(b: &Board) -> (r: bool)
    ensures
        r == piles_ok(b.piles()),
{
    if b.depots.len() != NUM_DEPOTS {
        return false;
    }
    if !check_ranks(b) {
        return false;
    }
    let mut d: usize = 0;
    while d < NUM_DEPOTS
        invariant
            b.depots@.len() == NUM_DEPOTS,
            d <= NUM_DEPOTS,
            forall|e: int|
                0 <= e < d && (has_role(e, DepotRole::FreeCell) || has_role(e, DepotRole::Farm))
                    ==> #[trigger] b.piles()[e].len() <= 1,
        decreases NUM_DEPOTS - d,
    {
        match DepotRole::role(d) {
            Some(DepotRole::FreeCell) | Some(DepotRole::Farm) => {
                if b.depots[d].len() > 1 {
                    assert(b.piles()[d as int].len() > 1);
                    assert(has_role(d as int, DepotRole::FreeCell) || has_role(d as int, DepotRole::Farm));
                    return false;
                }
            },
            _ => {},
        }
        d = d + 1;
    }
    true
}

/// A copy of the piles.
fn copy_piles(depots: &Vec<Vec<Card>>) -> (r: Vec<Vec<Card>>)
    ensures
        r@.len() == depots@.len(),
        forall|d: int| 0 <= d < r@.len() ==> (#[trigger] r@[d])@ == depots@[d]@,
{
    let mut r: Vec<Vec<Card>> = Vec::new();
    let mut d: usize = 0;
    while d < depots.len()
        invariant
            d <= depots@.len(),
            r@.len() == d,
            forall|e: int| 0 <= e < d ==> (#[trigger] r@[e])@ == depots@[e]@,
        decreases depots@.len() - d,
    {
        let src = &depots[d];
        let mut pile: Vec<Card> = Vec::new();
        let mut k: usize = 0;
        while k < src.len()
            invariant
                k <= src@.len(),
                pile@ == src@.take(k as int),
            decreases src@.len() - k,
        {
            pile.push(src[k]);
            k = k + 1;
            assert(pile@ =~= src@.take(k as int));
        }
        assert(pile@ =~= src@);
        r.push(pile);
        d = d + 1;
    }
    r
}

#[derive(Clone, Debug, PartialEq, Eq)]
pub struct GameState {
    pub board: Board,
    pub deal: Vec<Card>,
    /// Used to synchronise with the display, which shows one batch of movements per key.
    pub animation_key: AnimationKey,
    pub history: Vec<ActionRecord>,
    pub undo_stack: Vec<usize>,
    pub already_won: bool,
    pub num_wins: i32,
    pub screen_state: ScreenState,
    pub allow_undo: bool,
    pub skin: Skin,
}

impl View for GameState {
    type V = GameView;

    open spec fn view(&self) -> GameView {
        GameView {
            piles: self.board.piles(),
            selected: self.board.selected,
            acts: self.board.animation_acts@.map_values(
                |a: AnimationAct|
                    match a {
                        AnimationAct::Move(cs, p1, p2) => (cs@, p1, p2),
                    },
            ),
            deal: self.deal@,
            animation_key: self.animation_key,
            history: self.history@,
            undo_stack: self.undo_stack@,
            already_won: self.already_won,
            num_wins: self.num_wins,
            screen_state: self.screen_state,
            allow_undo: self.allow_undo,
            skin: self.skin,
        }
    }
}

impl GameState {
    /// Whether the clicks may be given this game: one pile per depot, cards of the deck's
    /// ranks, and a selection as picking makes it.
    pub fn is_playable(&self) -> (r: bool)
        ensures
            r == self@.playable(),
    {
        if self.board.depots.len() != NUM_DEPOTS {
            return false;
        }
        if !check_ranks(&self.board) {
            return false;
        }
        match self.board.selected {
            None => true,
            Some(Selection::Stack(p)) => {
                if p.depot_index >= NUM_DEPOTS || p.card_index >= self.board.depots[p.depot_index].len() {
                    return false;
                }
                match DepotRole::role(p.depot_index) {
                    Some(DepotRole::Tableau) => {
                        assert(has_role(p.depot_index as int, DepotRole::Tableau));
                        true
                    },
                    Some(DepotRole::FreeCell) => {
                        assert(has_role(p.depot_index as int, DepotRole::FreeCell));
                        true
                    },
                    _ => {
                        assert(!has_role(p.depot_index as int, DepotRole::Tableau));
                        assert(!has_role(p.depot_index as int, DepotRole::FreeCell));
                        false
                    },
                }
            },
            Some(Selection::Farm(m)) => {
                let mut i: usize = NUM_FARM_PLOTS;
                while i < 16
                    invariant
                        self@.selected == Some(Selection::Farm(m)),
                        NUM_FARM_PLOTS <= i <= 16,
                        forall|j: u16| NUM_FARM_PLOTS <= j < i ==> !#[trigger] m.has(j),
                    decreases 16 - i,
                {
                    if m.contains(i) {
                        proof {
                            lemma_farm_selection_outside(self@, m, i as u16);
                        }
                        return false;
                    }
                    i = i + 1;
                }
                assert(forall|j: u16| #[trigger] m.has(j) ==> j < NUM_FARM_PLOTS);
                assert(self@.selected matches Some(Selection::Farm(m2)) && m2 == m);
                true
            },
        }
    }

    /// Whether the recorded movements can be taken back one by one from the present board, each
    /// step giving a board: what `undo` needs.
    pub fn history_reversible(&self) -> (r: bool)
        ensures
            r == reversible(self@.piles, self@.history),
    {
        let mut b = Board {
            depots: copy_piles(&self.board.depots),
            selected: None,
            animation_acts: Vec::new(),
        };
        proof {
            assert(b.piles() =~= self@.piles);
            assert(self@.history.take(self@.history.len() as int) =~= self@.history);
        }
        let mut k: usize = self.history.len();
        while k > 0
            invariant
                k <= self@.history.len(),
                b.depots@.len() == self.board.depots@.len(),
                reversible(self@.piles, self@.history) == reversible(b.piles(), self@.history.take(k as int)),
            decreases k,
        {
            let ghost h = self@.history.take(k as int);
            let rec = self.history[k - 1];
            proof {
                assert(h.last() == rec);
                assert(h.drop_last() =~= self@.history.take(k - 1));
            }
            let n = b.depots.len();
            if rec.pos1.depot_index >= n || rec.pos2.depot_index >= n
                || rec.pos1.depot_index == rec.pos2.depot_index
                || rec.pos2.card_index > b.depots[rec.pos2.depot_index].len() {
                return false;
            }
            b.do_move(rec.pos2, rec.pos1);
            if !check_piles(&b) {
                return false;
            }
            k = k - 1;
        }
        true
    }

    pub fn is_busy(&self) -> (r: bool)
        ensures
            r == self@.busy(),
    {
        self.is_acting()
    }

    pub fn is_acting(&self) -> (r: bool)
        ensures
            r == self@.busy(),
    {
        self.board.animation_acts.len() != 0
    }

    pub fn is_won(&self) -> (r: bool)
        requires
            self.board.wf(),
        ensures
            r == self@.won(),
    {
        let m = DepotRole::Market.id(0);
        self.board.depots[m].len() == DECK_SIZE
    }

    fn do_move_raw(&mut self, pos1: BoardPos, pos2: BoardPos)
        requires
            pos1.depot_index < old(self).board.depots@.len(),
            pos2.depot_index < old(self).board.depots@.len(),
            pos1.depot_index != pos2.depot_index,
            pos1.card_index <= old(self)@.piles[pos1.depot_index as int].len(),
        ensures
            final(self)@ == record_move(old(self)@, pos1, pos2),
            final(self).board.depots@.len() == old(self).board.depots@.len(),
    {
        self.board.do_move(pos1, pos2);
        self.history.push(ActionRecord { pos1, pos2 });
        proof {
            assert(self@.acts =~= record_move(old(self)@, pos1, pos2).acts);
        }
    }

    fn move_intent(&mut self, pos1: BoardPos, pos2: BoardPos) -> (r: bool)
        requires
            old(self)@.playable(),
            pos1.depot_index < NUM_DEPOTS,
            pos2.depot_index < NUM_DEPOTS,
            pos1.card_index < old(self)@.piles[pos1.depot_index as int].len(),
        ensures
            r == move_allowed(old(self)@, pos1, pos2),
            final(self)@ == if r {
                move_result(old(self)@, pos1, pos2)
            } else {
                old(self)@
            },
            old(self)@.valid() ==> final(self)@.valid(),
    {
        let d1 = pos1.depot_index;
        let d2 = pos2.depot_index;
        if d1 == d2 {
            return false;
        }
        let len1 = self.board.depots[d1].len();
        let len2 = self.board.depots[d2].len();
        let num_moved = len1 - pos1.card_index;
        if pos2.card_index != len2 {
            return false;
        }
        let card = self.board.depots[d1][pos1.card_index];
        let role = match DepotRole::role(d2) {
            Some(role) => role,
            None => return false,
        };
        let history_len = self.history.len();
        let ghost v = self@;
        proof {
            assert(v.piles[d1 as int][pos1.card_index as int] == card);
            assert(rank_in_deck(card));
        }
        match role {
            DepotRole::Tableau => {
                let ok = if len2 == 0 {
                    true
                } else {
                    let top = self.board.depots[d2][len2 - 1];
                    self.can_stack(top, card)
                };
                if !ok {
                    return false;
                }
            },
            DepotRole::FreeCell => {
                if num_moved != 1 || len2 != 0 {
                    return false;
                }
            },
            DepotRole::Farm => {
                if num_moved != 1 || len2 != 0 {
                    return false;
                }
            },
            DepotRole::Market => return false,
        }
        proof {
            assert(move_allowed(v, pos1, pos2));
            if v.valid() {
                lemma_allowed_move_piles_ok(v, pos1, pos2);
                lemma_record_move_valid(v, pos1, pos2);
            }
        }
        self.do_move_raw(pos1, pos2);
        self.undo_stack.push(history_len);
        true
    }

    /// Whether the cards of depot `depot` from position `ord` up form a tableau stack.
    fn is_stack(&self, depot: usize, ord: usize) -> (r: bool)
        requires
            self@.playable(),
            depot < NUM_DEPOTS,
            ord < self@.piles[depot as int].len(),
        ensures
            r == forall|k: int|
                0 <= k < self@.piles[depot as int].skip(ord as int).len() - 1 ==> #[trigger] stacks_at(
                    self@.piles[depot as int].skip(ord as int),
                    k,
                ),
    {
        let pile = &self.board.depots[depot];
        let ghost slice = self@.piles[depot as int].skip(ord as int);
        let len = pile.len();
        let mut k: usize = ord;
        while k + 1 < len
            invariant
                self@.playable(),
                depot < NUM_DEPOTS,
                pile@ == self@.piles[depot as int],
                len == pile@.len(),
                slice == pile@.skip(ord as int),
                ord <= k < len,
                forall|j: int| 0 <= j < k - ord ==> #[trigger] stacks_at(slice, j),
            decreases len - k,
        {
            let back = pile[k];
            let front = pile[k + 1];
            proof {
                assert(rank_in_deck(self@.piles[depot as int][k + 1]));
            }
            if !self.can_stack(back, front) {
                assert(!stacks_at(slice, k - ord));
                return false;
            }
            assert(stacks_at(slice, k - ord));
            k = k + 1;
        }
        true
    }

    fn try_select(&mut self, pos: BoardPos)
        requires
            old(self)@.playable(),
            pos.depot_index < NUM_DEPOTS,
        ensures
            final(self)@ == (GameView { selected: selection_after_pick(old(self)@, pos), ..old(self)@ }),
    {
        let depot = pos.depot_index;
        let ord = pos.card_index;
        let len = self.board.depots[depot].len();
        if ord >= len {
            return;
        }
        let (role, index) = match DepotRole::role_and_subindex(depot) {
            Some(p) => p,
            None => return,
        };
        match role {
            DepotRole::Tableau => {
                if self.is_stack(depot, ord) {
                    self.board.selected = Some(Selection::Stack(pos));
                }
            },
            DepotRole::FreeCell => {
                if len - ord == 1 {
                    self.board.selected = Some(Selection::Stack(pos));
                }
            },
            DepotRole::Farm => {
                if len - ord == 1 {
                    self.board.selected = Some(Selection::Farm(BitMask::single(index)));
                }
            },
            DepotRole::Market => {},
        }
    }

    pub fn valid_crop_group_selected(&self) -> (r: bool)
        requires
            self@.playable(),
        ensures
            r == crop_group_ok(self@),
    {
        let mask = match self.board.selected {
            Some(Selection::Farm(m)) => m,
            _ => return false,
        };
        let ghost piles = self@.piles;
        let mut first: Option<Card> = None;
        let mut i: usize = 0;
        while i < NUM_FARM_PLOTS
            invariant
                self@.playable(),
                self@.selected == Some(Selection::Farm(mask)),
                piles == self@.piles,
                i <= NUM_FARM_PLOTS,
                first is None ==> forall|j: u16| j < i ==> !#[trigger] mask.has(j),
                first matches Some(f) ==> exists|j: u16| j < i && #[trigger] mask.has(j),
                forall|j: u16|
                    j < i && #[trigger] mask.has(j) ==> (farm_top(piles, j as int) matches Some(c) && (
                    first matches Some(f) && c.suit == f.suit)),
            decreases NUM_FARM_PLOTS - i,
        {
            if mask.contains(i) {
                let d = DepotRole::Farm.id(i);
                let pile = &self.board.depots[d];
                if pile.len() == 0 {
                    proof {
                        assert(mask.has(i as u16));
                        assert(farm_top(piles, i as int) is None);
                        assert forall|s: Suit| !crop_group_of_suit(piles, mask, s) by {
                            assert(mask.has(i as u16));
                        }
                    }
                    return false;
                }
                let c = pile[pile.len() - 1];
                match first {
                    None => {
                        first = Some(c);
                    },
                    Some(f) => {
                        if c.suit != f.suit {
                            proof {
                                let j0 = choose|j: u16| j < i && #[trigger] mask.has(j);
                                assert forall|s: Suit| !crop_group_of_suit(piles, mask, s) by {
                                    assert(mask.has(i as u16));
                                    assert(mask.has(j0));
                                }
                            }
                            return false;
                        }
                    },
                }
                proof {
                    assert(mask.has(i as u16));
                }
            }
            i = i + 1;
        }
        let f = match first {
            Some(f) => f,
            None => {
                proof {
                    assert forall|s: Suit| !crop_group_of_suit(piles, mask, s) by {
                        assert forall|j: u16| !#[trigger] mask.has(j) by {
                            if mask.has(j) {
                                assert(j < NUM_FARM_PLOTS);
                            }
                        }
                    }
                }
                return false;
            },
        };
        if !is_crop_group_shape(f.suit, mask) {
            proof {
                assert forall|s: Suit| !crop_group_of_suit(piles, mask, s) by {
                    if crop_group_of_suit(piles, mask, s) {
                        let j0 = choose|j: u16| j < NUM_FARM_PLOTS && #[trigger] mask.has(j);
                        assert(mask.has(j0));
                    }
                }
            }
            return false;
        }
        let mut sum: i8 = 0;
        let mut k: usize = 0;
        while k < NUM_FARM_PLOTS
            invariant
                self@.playable(),
                self@.selected == Some(Selection::Farm(mask)),
                piles == self@.piles,
                k <= NUM_FARM_PLOTS,
                forall|j: u16| j < NUM_FARM_PLOTS && #[trigger] mask.has(j) ==> farm_top(piles, j as int) is Some,
                sum == farm_rank_sum(piles, mask, k as int),
                -3 * k <= sum <= 3 * k,
            decreases NUM_FARM_PLOTS - k,
        {
            if mask.contains(k) {
                let d = DepotRole::Farm.id(k);
                let pile = &self.board.depots[d];
                proof {
                    assert(mask.has(k as u16));
                    assert(farm_top(piles, k as int) is Some);
                    assert(rank_in_deck(piles[d as int][piles[d as int].len() - 1]));
                }
                let c = pile[pile.len() - 1];
                sum = sum + c.rank;
            }
            k = k + 1;
        }
        proof {
            if sum == 0 {
                assert(crop_group_of_suit(piles, mask, f.suit)) by {
                    let j0 = choose|j: u16| j < NUM_FARM_PLOTS && #[trigger] mask.has(j);
                    assert(mask.has(j0));
                }
            } else {
                assert forall|s: Suit| !crop_group_of_suit(piles, mask, s) by {}
            }
        }
        sum == 0
    }

    /// Moves the piles of the selected farm plots, lowest plot first, onto the market.
    fn harvest(&mut self, mask: BitMask)
        requires
            old(self)@.playable(),
            old(self)@.selected == Some(Selection::Farm(mask)),
            crop_group_ok(old(self)@),
        ensures
            final(self)@ == harvest_result(old(self)@, mask),
            old(self)@.valid() ==> final(self)@.valid(),
    {
        let ghost v = self@;
        let ghost s = choose|s: Suit| crop_group_of_suit(v.piles, mask, s);
        let history_len = self.history.len();
        let market = DepotRole::Market.id(0);
        let mut market_pos = self.board.top_pos(market);
        let ghost start = market_pos.card_index as int;
        proof {
            assert(plots_below(mask, 0) =~= Seq::<int>::empty());
        }
        let mut i: usize = 0;
        while i < NUM_FARM_PLOTS
            invariant
                v.playable(),
                v.selected == Some(Selection::Farm(mask)),
                crop_group_of_suit(v.piles, mask, s),
                market == DepotRole::Market.spec_base(),
                start == v.piles[market as int].len(),
                history_len == v.history.len(),
                i <= NUM_FARM_PLOTS,
                self@ == harvest_steps(v, plots_below(mask, i as int), start),
                self.board.depots@.len() == NUM_DEPOTS,
                market_pos.depot_index == market,
                market_pos.card_index == start + plots_below(mask, i as int).len(),
                market_pos.card_index <= self@.piles[market as int].len(),
                self@.undo_stack == v.undo_stack,
                forall|j: int|
                    i <= j < NUM_FARM_PLOTS ==> #[trigger] self@.piles[DepotRole::Farm.spec_base() + j]
                        == v.piles[DepotRole::Farm.spec_base() + j],
            decreases NUM_FARM_PLOTS - i,
        {
            let ghost w = self@;
            proof {
                lemma_plots_below_step(mask, i as int);
            }
            if mask.contains(i) {
                let d = DepotRole::Farm.id(i);
                let p1 = BoardPos::new(d, 0);
                proof {
                    assert(mask.has(i as u16));
                    assert(farm_top(v.piles, i as int) is Some);
                    assert(w.piles[d as int] == v.piles[d as int]);
                }
                self.do_move_raw(p1, market_pos);
                let ml = self.board.depots[market].len();
                proof {
                    assert(self@.piles[market as int].len() == ml);
                    assert forall|j: int|
                        i + 1 <= j < NUM_FARM_PLOTS implies #[trigger] self@.piles[DepotRole::Farm.spec_base() + j]
                        == v.piles[DepotRole::Farm.spec_base() + j] by {
                        assert(w.piles[DepotRole::Farm.spec_base() + j] == v.piles[DepotRole::Farm.spec_base() + j]);
                    }
                }
                market_pos.card_index = market_pos.card_index + 1;
            }
            i = i + 1;
        }
        self.undo_stack.push(history_len);
        proof {
            if v.valid() {
                lemma_harvest_steps(v, mask, s, NUM_FARM_PLOTS as int);
            }
            assert(self@ =~= harvest_result(v, mask));
        }
    }

    pub fn onclick(&mut self, pos: BoardPos)
        requires
            old(self)@.playable(),
            pos.depot_index < NUM_DEPOTS || old(self)@.busy() || old(self)@.selected matches Some(
                Selection::Farm(_),
            ),
        ensures
            final(self)@ == click_result(old(self)@, pos),
            old(self)@.valid() ==> final(self)@.valid(),
    {
        proof {
            if self@.valid() {
                lemma_click_step(self@, pos);
            }
        }
        if self.is_busy() {
            return;
        }
        match self.board.selected {
            Some(Selection::Stack(src)) => {
                if pos == src {
                    self.board.selected = None;
                    return;
                }
                if src.depot_index == pos.depot_index {
                    self.try_select(pos);
                    return;
                }
                let next = if pos.card_index == usize::MAX {
                    0
                } else {
                    pos.card_index + 1
                };
                let dest = BoardPos::new(pos.depot_index, next);
                self.move_intent(src, dest);
            },
            Some(Selection::Farm(mask)) => {
                let depot = pos.depot_index;
                let (role, index) = match DepotRole::role_and_subindex(depot) {
                    Some(p) => p,
                    None => return,
                };
                match role {
                    DepotRole::Farm => {
                        if self.board.depots[depot].len() == 0 {
                            return;
                        }
                        let m2 = mask.flip(index);
                        if m2.is_empty() {
                            self.board.selected = None;
                        } else {
                            self.board.selected = Some(Selection::Farm(m2));
                        }
                    },
                    DepotRole::Market => {
                        if self.valid_crop_group_selected() {
                            self.harvest(mask);
                        }
                    },
                    _ => {},
                }
            },
            None => {
                self.try_select(pos);
            },
        }
    }

    pub fn ondoubleclick(&mut self, pos: BoardPos)
        requires
            old(self)@.playable(),
        ensures
            final(self)@ == double_click_result(old(self)@, pos),
            old(self)@.valid() ==> final(self)@.valid(),
    {
        proof {
            if self@.valid() {
                lemma_double_click_step(self@, pos);
            }
        }
        if self.is_busy() {
            return;
        }
        match DepotRole::role(pos.depot_index) {
            Some(DepotRole::Tableau) => {},
            _ => return,
        }
        let len = self.board.depots[pos.depot_index].len();
        if pos.card_index >= len {
            return;
        }
        let dest = self.board.top_pos(DepotRole::FreeCell.id(0));
        self.move_intent(pos, dest);
    }

    /// A shuffled deck.
    pub fn new_deal(rng: &mut ThreadRng) -> (deal: Vec<Card>)
        ensures
            deal@.len() == DECK_SIZE,
            deal@.to_multiset() == fresh_deck().to_multiset(),
            deal_ok(deal@),
    {
        let mut deck: Vec<Card> = Vec::with_capacity(DECK_SIZE);
        let suits = Suit::all();
        let mut r: usize = 0;
        while r < NUM_RANKS
            invariant
                r <= NUM_RANKS,
                suits@ == seq![Suit::Melon, Suit::Corn, Suit::Blueberry, Suit::Eggplant],
                deck@ == fresh_deck().take(r * NUM_SUITS),
            decreases NUM_RANKS - r,
        {
            let rank = RANKS_PER_SUIT[r];
            let mut j: usize = 0;
            while j < NUM_SUITS
                invariant
                    r < NUM_RANKS,
                    j <= NUM_SUITS,
                    rank == RANKS_PER_SUIT@[r as int],
                    suits@ == seq![Suit::Melon, Suit::Corn, Suit::Blueberry, Suit::Eggplant],
                    deck@ == fresh_deck().take(r * NUM_SUITS + j),
                decreases NUM_SUITS - j,
            {
                deck.push(Card { rank, suit: suits[j] });
                proof {
                    let k = r * NUM_SUITS + j;
                    assert(k / 4 == r && k % 4 == j);
                    assert(fresh_deck()[k as int] == Card { rank, suit: suits[j as int] });
                }
                j = j + 1;
                assert(deck@ =~= fresh_deck().take(r * NUM_SUITS + j));
            }
            r = r + 1;
        }
        assert(deck@ =~= fresh_deck());
        shuffle_cards(&mut deck, rng);
        proof {
            lemma_shuffled_deck_ok(deck@);
        }
        deck
    }

    /// A game freshly dealt, with no wins yet and default settings.
    pub fn init() -> (r: Self)
        ensures
            r@ == new_game_result(
                GameView {
                    piles: r@.piles,
                    selected: None,
                    acts: Seq::empty(),
                    deal: r@.deal,
                    animation_key: 0,
                    history: Seq::empty(),
                    undo_stack: Seq::empty(),
                    already_won: false,
                    num_wins: 0,
                    screen_state: ScreenState::Game,
                    allow_undo: true,
                    skin: Skin { ranks: RankSkin::Signed, suits: SuitSkin::Default, colors: ColorSkin::Default },
                },
                r@.deal,
            ),
            r@.deal.to_multiset() == fresh_deck().to_multiset(),
            r@.valid(),
    {
        let mut res = GameState {
            board: Board::empty(),
            deal: Vec::new(),
            animation_key: 0,
            history: Vec::new(),
            undo_stack: Vec::new(),
            already_won: false,
            num_wins: 0,
            screen_state: ScreenState::Game,
            allow_undo: true,
            skin: Skin::default(),
        };
        res.new_game();
        res
    }

    /// Deals a new shuffled game, keeping the win count and the settings.
    pub fn new_game(&mut self)
        ensures
            final(self)@ == new_game_result(old(self)@, final(self)@.deal),
            final(self)@.deal.to_multiset() == fresh_deck().to_multiset(),
            final(self)@.valid(),
    {
        let mut rng = thread_rng();
        let deal = Self::new_deal(&mut rng);
        self.board = Board::from_deal(&deal);
        self.deal = deal;
        self.history.clear();
        self.undo_stack.clear();
        self.already_won = false;
        proof {
            assert(self@ =~= new_game_result(old(self)@, self@.deal));
            lemma_dealt_valid(self@);
        }
    }

    /// Processes the end of the movements of batch `key`. Returns whether the game should be
    /// saved, which it should whenever the key was current.
    pub fn advance_animations(&mut self, key: AnimationKey) -> (saved: bool)
        requires
            old(self).board.wf(),
            key == old(self)@.animation_key && old(self)@.won() && !old(self)@.already_won
                ==> old(self)@.num_wins < i32::MAX,
        ensures
            final(self)@ == advance_result(old(self)@, key),
            old(self)@.valid() ==> final(self)@.valid(),
            saved == (key == old(self)@.animation_key),
    {
        if key != self.animation_key {
            return false;
        }
        self.animation_key = if self.animation_key == u16::MAX {
            0
        } else {
            self.animation_key + 1
        };
        self.board.advance_actions();
        if self.is_won() {
            if !self.already_won {
                self.num_wins = self.num_wins + 1;
                self.already_won = true;
            }
        }
        proof {
            assert(self@.acts =~= Seq::<(Seq<Card>, BoardPos, BoardPos)>::empty());
            assert(self@ =~= advance_result(old(self)@, key));
        }
        !self.is_busy()
    }

    /// Takes back the last undoable step. Returns whether the game should be saved, which it
    /// should whenever a step was taken back.
    pub fn undo(&mut self) -> (saved: bool)
        requires
            old(self).board.wf(),
            reversible(old(self)@.piles, old(self)@.history),
        ensures
            final(self)@ == undo_result(old(self)@),
            old(self)@.valid() ==> final(self)@.valid(),
            saved == !(old(self)@.busy() || !old(self)@.allow_undo || old(self)@.undo_stack.len()
                == 0),
    {
        if self.is_busy() || !self.undo_possible() {
            return false;
        }
        let ghost v = self@;
        let target_len = match self.undo_stack.pop() {
            Some(t) => t,
            None => return false,
        };
        let ghost changed = self.history.len() > target_len;
        while self.history.len() > target_len
            invariant
                !v.busy(),
                target_len == v.undo_stack.last(),
                self@.undo_stack == v.undo_stack.drop_last(),
                self.board.depots@.len() == NUM_DEPOTS,
                reversible(self@.piles, self@.history),
                self@.history == v.history.take(self@.history.len() as int),
                self@.history.len() <= v.history.len(),
                self@.history.len() >= target_len || self@.history.len() == v.history.len(),
                changed == (v.history.len() > target_len),
                unwound(self@.piles, self@.history, target_len as int) == unwound(
                    v.piles,
                    v.history,
                    target_len as int,
                ),
                self@.acts.len() == 0,
                self@.history.len() < v.history.len() ==> self@.selected is None,
                self@.history.len() == v.history.len() ==> self@ == (GameView {
                    undo_stack: v.undo_stack.drop_last(),
                    ..v
                }),
                self@.deal == v.deal,
                self@.animation_key == v.animation_key,
                self@.already_won == v.already_won,
                self@.num_wins == v.num_wins,
                self@.screen_state == v.screen_state,
                self@.allow_undo == v.allow_undo,
                self@.skin == v.skin,
            decreases self.history.len(),
        {
            let ghost h = self@.history;
            let ghost p = self@.piles;
            let rec = self.history.pop().unwrap();
            proof {
                assert(rec == h.last());
                assert(self@.history =~= h.drop_last());
            }
            self.board.do_move(rec.pos2, rec.pos1);
            self.board.advance_actions();
            proof {
                assert(self@.acts =~= Seq::<(Seq<Card>, BoardPos, BoardPos)>::empty());
                assert(self@.history =~= v.history.take(self@.history.len() as int));
            }
        }
        proof {
            if changed {
                assert(self@.history =~= v.history.take(target_len as int));
                assert(unwound(self@.piles, self@.history, target_len as int) == self@.piles);
                assert(self@.acts =~= v.acts);
                assert(self@ =~= undo_result(v));
            } else {
                assert(self@ =~= undo_result(v));
            }
            if v.valid() {
                lemma_undo_step(v);
            }
        }
        true
    }

    /// Deals the same deal again, when there is something to undo and undo is allowed.
    /// Returns whether the game should be saved, which it should whenever it restarted.
    pub fn restart(&mut self) -> (saved: bool)
        requires
            old(self)@.history.len() > 0 && old(self)@.allow_undo && old(self)@.undo_stack.len() > 0
                ==> old(self)@.deal.len() == DECK_SIZE,
        ensures
            final(self)@ == restart_result(old(self)@),
            old(self)@.valid() ==> final(self)@.valid(),
            saved == !(old(self)@.history.len() == 0 || !old(self)@.allow_undo
                || old(self)@.undo_stack.len() == 0),
    {
        if self.history.is_empty() || !self.undo_possible() {
            return false;
        }
        self.board = Board::from_deal(&self.deal);
        self.history.clear();
        self.undo_stack.clear();
        proof {
            assert(self@.acts =~= Seq::<(Seq<Card>, BoardPos, BoardPos)>::empty());
            assert(self@ =~= restart_result(old(self)@));
            if old(self)@.valid() {
                lemma_dealt_valid(self@);
            }
        }
        !self.is_busy()
    }

    pub fn can_stack(&self, back: Card, front: Card) -> (r: bool)
        requires
            front.rank < 127,
        ensures
            r == can_stack_spec(back, front),
            r <==> (back.suit != front.suit && front.rank == back.rank - 1),
    {
        back.suit != front.suit && front.rank + 1 == back.rank
    }

    pub fn undo_possible(&self) -> (r: bool)
        ensures
            r == (self.allow_undo && self@.undo_stack.len() > 0),
    {
        self.allow_undo && !self.undo_stack.is_empty()
    }

    pub fn clear_selection(&mut self)
        ensures
            final(self)@ == (GameView { selected: None, ..old(self)@ }),
    {
        self.board.selected = None;
    }
}

} // verus!
