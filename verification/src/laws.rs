use vstd::prelude::*;
use crate::board::{BoardPos, DepotRole, Selection, has_role, NUM_DEPOTS};
use crate::card::Suit;
use crate::farm::NUM_FARM_PLOTS;
use crate::game::{
    GameView, advance_result, board_cards, click_result, double_click_result, undo_result,
    lemma_click_step, lemma_double_click_step, lemma_undo_step, lemma_restart_step, restart_result,
    lemma_piles_total, lemma_total_two, lemma_total_only, lemma_harvest_steps, crop_group_ok,
    crop_group_of_suit, move_allowed, plots_below, harvest_steps,
};

verus! {

/// Undo right after a click that acted, once its movements have been shown, brings back the
/// piles, the history and the undo stack from before the click.
pub proof fn law_undo_reverts_click(v: GameView, pos: BoardPos)
    requires
        v.valid(),
        pos.depot_index < NUM_DEPOTS || v.busy() || v.selected matches Some(Selection::Farm(_)),
        v.allow_undo,
        v.history.len() <= usize::MAX,
    ensures
        click_result(v, pos).num_wins == v.num_wins,
        click_result(v, pos).already_won == v.already_won,
        ({
            let w = click_result(v, pos);
            let u = undo_result(advance_result(w, w.animation_key));
            w.history != v.history ==> u.piles == v.piles && u.history == v.history && u.undo_stack
                == v.undo_stack
        }),
{
    lemma_click_step(v, pos);
    let w = click_result(v, pos);
    if w.history != v.history {
        let a = advance_result(w, w.animation_key);
        assert(a.acts.len() == 0);
        assert(a.undo_stack.last() == v.history.len());
        assert(a.undo_stack.drop_last() =~= v.undo_stack);
    }
}

/// Undo right after a double click that acted, once its movements have been shown, brings back
/// the piles, the history and the undo stack from before the double click.
pub proof fn law_undo_reverts_double_click(v: GameView, pos: BoardPos)
    requires
        v.valid(),
        v.allow_undo,
        v.history.len() <= usize::MAX,
    ensures
        double_click_result(v, pos).num_wins == v.num_wins,
        double_click_result(v, pos).already_won == v.already_won,
        ({
            let w = double_click_result(v, pos);
            let u = undo_result(advance_result(w, w.animation_key));
            w.history != v.history ==> u.piles == v.piles && u.history == v.history && u.undo_stack
                == v.undo_stack
        }),
{
    lemma_double_click_step(v, pos);
    let w = double_click_result(v, pos);
    if w.history != v.history {
        let a = advance_result(w, w.animation_key);
        assert(a.acts.len() == 0);
        assert(a.undo_stack.last() == v.history.len());
        assert(a.undo_stack.drop_last() =~= v.undo_stack);
    }
}

/// Cards leave the farm only by harvest. A click on a valid game records no movement out of a
/// farm plot except onto the market, and it changes a plot's pile only by putting one card on
/// an empty plot, or by emptying a selected plot when it harvests a valid group onto the market.
pub proof fn law_farm_cards_leave_only_by_harvest(v: GameView, pos: BoardPos)
    requires
        v.valid(),
        pos.depot_index < NUM_DEPOTS || v.busy() || v.selected matches Some(Selection::Farm(_)),
    ensures
        forall|k: int|
            v.history.len() <= k < click_result(v, pos).history.len() && has_role(
                #[trigger] click_result(v, pos).history[k].pos1.depot_index as int,
                DepotRole::Farm,
            ) ==> click_result(v, pos).history[k].pos2.depot_index == DepotRole::Market.spec_base(),
        forall|d: int|
            #![trigger click_result(v, pos).piles[d]]
            has_role(d, DepotRole::Farm) && click_result(v, pos).piles[d] != v.piles[d] ==> (
            v.piles[d].len() == 0 && click_result(v, pos).piles[d].len() == 1) || (click_result(
                v,
                pos,
            ).piles[d].len() == 0 && has_role(pos.depot_index as int, DepotRole::Market)
                && crop_group_ok(v) && (v.selected matches Some(Selection::Farm(m)) && m.has(
                (d - DepotRole::Farm.spec_base()) as u16,
            ))),
{
    let w = click_result(v, pos);
    if v.busy() {
    } else {
        match v.selected {
            None => {},
            Some(Selection::Stack(src)) => {
                if pos == src {
                } else if src.depot_index == pos.depot_index {
                } else {
                    let dest = BoardPos {
                        depot_index: pos.depot_index,
                        card_index: if pos.card_index == usize::MAX {
                            0
                        } else {
                            (pos.card_index + 1) as usize
                        },
                    };
                    if move_allowed(v, src, dest) {
                        assert(w.history.last().pos1 == src);
                        assert forall|d: int|
                            #![trigger w.piles[d]]
                            has_role(d, DepotRole::Farm) && w.piles[d] != v.piles[d] implies v.piles[d].len()
                            == 0 && w.piles[d].len() == 1 by {
                            if d != dest.depot_index {
                                assert(d != src.depot_index);
                                assert(w.piles[d] == v.piles[d]);
                            }
                        }
                    }
                }
            },
            Some(Selection::Farm(m)) => {
                match DepotRole::spec_role_and_subindex(pos.depot_index as int) {
                    Some((DepotRole::Market, _)) => {
                        if crop_group_ok(v) {
                            let s = choose|s: Suit| crop_group_of_suit(v.piles, m, s);
                            lemma_harvest_steps(v, m, s, NUM_FARM_PLOTS as int);
                            assert forall|d: int|
                                #![trigger w.piles[d]]
                                has_role(d, DepotRole::Farm) && w.piles[d] != v.piles[d] implies w.piles[d].len()
                                == 0 && m.has((d - DepotRole::Farm.spec_base()) as u16) by {
                                let j = d - DepotRole::Farm.spec_base();
                                assert(w.piles[DepotRole::Farm.spec_base() + j] == w.piles[d]);
                            }
                        }
                    },
                    _ => {},
                }
            },
        }
    }
}

/// A double click never changes a farm plot's pile, and every movement it records comes from a
/// tableau column.
pub proof fn law_double_click_keeps_farm(v: GameView, pos: BoardPos)
    requires
        v.valid(),
    ensures
        forall|d: int|
            has_role(d, DepotRole::Farm) ==> #[trigger] double_click_result(v, pos).piles[d] == v.piles[d],
        forall|k: int|
            v.history.len() <= k < double_click_result(v, pos).history.len() ==> has_role(
                #[trigger] double_click_result(v, pos).history[k].pos1.depot_index as int,
                DepotRole::Tableau,
            ),
{
}

/// A player's action on a game in progress (anything but dealing a new game).
pub enum Action {
    Click(BoardPos),
    DoubleClick(BoardPos),
    Advance(u16),
    Undo,
    Restart,
    ClearSelection,
}

/// The state after action `a`.
pub open spec fn apply(v: GameView, a: Action) -> GameView {
    match a {
        Action::Click(p) => click_result(v, p),
        Action::DoubleClick(p) => double_click_result(v, p),
        Action::Advance(k) => advance_result(v, k),
        Action::Undo => undo_result(v),
        Action::Restart => restart_result(v),
        Action::ClearSelection => GameView { selected: None, ..v },
    }
}

/// The state after the actions `acts`, in order.
pub open spec fn run(v: GameView, acts: Seq<Action>) -> GameView
    decreases acts.len(),
{
    if acts.len() == 0 {
        v
    } else {
        apply(run(v, acts.drop_last()), acts.last())
    }
}

proof fn lemma_harvest_steps_counters(v: GameView, plots: Seq<int>, start: int)
    ensures
        harvest_steps(v, plots, start).num_wins == v.num_wins,
        harvest_steps(v, plots, start).already_won == v.already_won,
    decreases plots.len(),
{
    if plots.len() > 0 {
        lemma_harvest_steps_counters(v, plots.drop_last(), start);
    }
}

/// The win of a deal is counted at most once: whatever actions follow (short of a new deal,
/// and undos and restarts included), the win count grows by at most one, and only when the
/// game was not yet won; once won, a game stays marked as won.
pub proof fn law_win_counted_once(v: GameView, acts: Seq<Action>)
    ensures
        run(v, acts).num_wins <= v.num_wins + if v.already_won {
            0int
        } else {
            1int
        },
        v.already_won ==> run(v, acts).already_won,
        v.already_won ==> run(v, acts).num_wins == v.num_wins,
    decreases acts.len(),
{
    lemma_win_steps(v, acts);
    let x = v.num_wins;
    assert(x == i32::MAX ==> (x + 1) as i32 <= x + 1) by (bit_vector);
}

proof fn lemma_win_steps(v: GameView, acts: Seq<Action>)
    ensures
        (run(v, acts).already_won == v.already_won && run(v, acts).num_wins == v.num_wins) || (
        !v.already_won && run(v, acts).already_won && run(v, acts).num_wins == (v.num_wins
            + 1) as i32),
    decreases acts.len(),
{
    if acts.len() > 0 {
        lemma_win_steps(v, acts.drop_last());
        let w = run(v, acts.drop_last());
        match acts.last() {
            Action::Click(p) => {
                if !w.busy() {
                    if let Some(Selection::Farm(m)) = w.selected {
                        lemma_harvest_steps_counters(
                            w,
                            plots_below(m, NUM_FARM_PLOTS as int),
                            w.piles[DepotRole::Market.spec_base()].len() as int,
                        );
                    }
                }
            },
            _ => {},
        }
    }
}

/// No click, double click, undo or restart changes which cards are on the board: they are
/// always the cards of the deal.
pub proof fn law_cards_kept(v: GameView, pos: BoardPos)
    requires
        v.valid(),
        pos.depot_index < NUM_DEPOTS || v.busy() || v.selected matches Some(Selection::Farm(_)),
    ensures
        board_cards(v.piles) == v.deal.to_multiset(),
        board_cards(click_result(v, pos).piles) == board_cards(v.piles),
        board_cards(double_click_result(v, pos).piles) == board_cards(v.piles),
        board_cards(undo_result(v).piles) == board_cards(v.piles),
        board_cards(restart_result(v).piles) == board_cards(v.piles),
{
    lemma_click_step(v, pos);
    lemma_double_click_step(v, pos);
    lemma_undo_step(v);
    lemma_restart_step(v);
}

/// A valid game is won exactly when every other depot is empty: all the cards have been
/// harvested into the market.
pub proof fn law_won_means_all_harvested(v: GameView)
    requires
        v.valid(),
    ensures
        v.won() <==> forall|d: int|
            0 <= d < NUM_DEPOTS && d != DepotRole::Market.spec_base() ==> #[trigger] v.piles[d].len() == 0,
{
    let m = DepotRole::Market.spec_base();
    lemma_piles_total(v);
    if v.won() {
        assert forall|d: int|
            0 <= d < NUM_DEPOTS && d != m implies #[trigger] v.piles[d].len() == 0 by {
            lemma_total_two(v.piles, m, d);
        }
    }
    if forall|d: int| 0 <= d < NUM_DEPOTS && d != m ==> #[trigger] v.piles[d].len() == 0 {
        lemma_total_only(v.piles, m);
    }
}

} // verus!
