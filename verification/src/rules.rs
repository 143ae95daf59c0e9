use vstd::prelude::*;
use crate::bitmask::{BitMask, lemma_flip_has, lemma_single_has};
use crate::board::{
    BoardPos, DepotRole, Selection, has_role, moved_piles, NUM_DEPOTS, NUM_TABLEAUS, TABLEAU_DEAL,
};
use crate::card::{Card, Suit, DECK_SIZE, RANKS_PER_SUIT};
use crate::farm::NUM_FARM_PLOTS;
use crate::game::{
    ActionRecord, GameView, advance_result, click_result, crop_group_of_suit, crop_group_ok,
    double_click_result, farm_rank_sum, farm_top, fresh_deck, harvest_result, harvest_steps,
    lemma_harvest_steps, lemma_plots_below_props, lemma_plots_below_step, move_allowed,
    plots_below, restart_result, selection_after_pick, stacks_at, suit_in_round, undo_result,
};
use crate::shapes::crop_group_shape;

verus! {

/// A click that picks in a tableau column (with nothing selected, or with another pile of the
/// same column selected) selects the pile from the clicked card to the top exactly when each
/// card of it above the clicked one lies on a card of another suit and one rank higher.
/// Otherwise the selection stays as it was. The piles and the history are untouched.
pub proof fn law_pick_only_stacks(v: GameView, pos: BoardPos)
    requires
        v.playable(),
        !v.busy(),
        v.selected is None || (v.selected matches Some(Selection::Stack(src))
            && src.depot_index == pos.depot_index && src != pos),
        pos.depot_index < NUM_TABLEAUS,
        pos.card_index < v.piles[pos.depot_index as int].len(),
    ensures
        click_result(v, pos).piles == v.piles,
        click_result(v, pos).history == v.history,
        click_result(v, pos).selected == if forall|j: int, k: int|
            #![trigger v.piles[pos.depot_index as int][j], v.piles[pos.depot_index as int][k]]
            pos.card_index <= j && k == j + 1 && k < v.piles[pos.depot_index as int].len() ==> {
                let lower = v.piles[pos.depot_index as int][j];
                let upper = v.piles[pos.depot_index as int][k];
                upper.suit != lower.suit && upper.rank == lower.rank - 1
            } {
            Some(Selection::Stack(pos))
        } else {
            v.selected
        },
{
    let d = pos.depot_index as int;
    let ord = pos.card_index as int;
    let pile = v.piles[d];
    let slice = pile.skip(ord);
    let stacked = forall|j: int, k: int|
        #![trigger pile[j], pile[k]]
        ord <= j && k == j + 1 && k < pile.len() ==> pile[k].suit != pile[j].suit && pile[k].rank
            == pile[j].rank - 1;
    let picked = forall|k: int| 0 <= k < slice.len() - 1 ==> #[trigger] stacks_at(slice, k);
    assert(DepotRole::spec_role_and_subindex(d) == Some((DepotRole::Tableau, d)));
    if stacked {
        assert forall|k: int| 0 <= k < slice.len() - 1 implies #[trigger] stacks_at(slice, k) by {
            assert(slice[k] == pile[ord + k]);
            assert(slice[k + 1] == pile[ord + k + 1]);
        }
    }
    if picked {
        assert forall|j: int, k: int|
            #![trigger pile[j], pile[k]]
            ord <= j && k == j + 1 && k < pile.len() implies pile[k].suit != pile[j].suit
            && pile[k].rank == pile[j].rank - 1 by {
            assert(stacks_at(slice, j - ord));
            assert(slice[j - ord] == pile[j]);
            assert(slice[j - ord + 1] == pile[k]);
        }
    }
    assert(stacked == picked);
    assert(selection_after_pick(v, pos) == if stacked {
        Some(Selection::Stack(pos))
    } else {
        v.selected
    });
}

/// A click that moves a selected pile onto a tableau column that holds cards puts the bottom
/// card of the pile on a card of another suit and one rank higher.
pub proof fn law_tableau_move_stacks(v: GameView, pos: BoardPos)
    requires
        v.playable(),
        pos.depot_index < NUM_TABLEAUS,
        v.piles[pos.depot_index as int].len() > 0,
        click_result(v, pos).history != v.history,
    ensures
        v.selected matches Some(Selection::Stack(src)) && ({
            let bottom = v.piles[src.depot_index as int][src.card_index as int];
            let top = v.piles[pos.depot_index as int].last();
            &&& src.depot_index != pos.depot_index
            &&& pos.card_index + 1 == v.piles[pos.depot_index as int].len()
            &&& bottom.suit != top.suit
            &&& bottom.rank == top.rank - 1
        }),
{
    let d = pos.depot_index as int;
    assert(DepotRole::spec_role_and_subindex(d) == Some((DepotRole::Tableau, d)));
    assert(!v.busy());
    if let Some(Selection::Stack(src)) = v.selected {
        let dest = BoardPos {
            depot_index: pos.depot_index,
            card_index: if pos.card_index == usize::MAX {
                0
            } else {
                (pos.card_index + 1) as usize
            },
        };
        assert(pos != src && src.depot_index != pos.depot_index);
        assert(move_allowed(v, src, dest));
    } else {
        if let Some(Selection::Farm(m)) = v.selected {
            assert(DepotRole::spec_role_and_subindex(d) matches Some((DepotRole::Tableau, _)));
        }
    }
}

/// The sum of the integers of `s`.
pub open spec fn total(s: Seq<int>) -> int {
    s.fold_left(0int, |acc: int, x: int| acc + x)
}

/// Plot by plot, the rank of the top card of each farm plot of `m`, and 0 for the other plots.
pub open spec fn selected_top_ranks(piles: Seq<Seq<Card>>, m: BitMask) -> Seq<int> {
    Seq::new(
        NUM_FARM_PLOTS as nat,
        |j: int|
            if m.has(j as u16) {
                piles[DepotRole::Farm.spec_base() + j].last().rank as int
            } else {
                0
            },
    )
}

proof fn lemma_top_ranks_total(piles: Seq<Seq<Card>>, m: BitMask, n: int)
    requires
        0 <= n <= NUM_FARM_PLOTS,
        piles.len() == NUM_DEPOTS,
        forall|i: u16|
            #[trigger] m.has(i) && i < n ==> piles[DepotRole::Farm.spec_base() + i].len() > 0,
    ensures
        total(selected_top_ranks(piles, m).take(n)) == farm_rank_sum(piles, m, n),
    decreases n,
{
    let ranks = selected_top_ranks(piles, m);
    if n > 0 {
        lemma_top_ranks_total(piles, m, n - 1);
        assert(ranks.take(n).drop_last() =~= ranks.take(n - 1));
        let j = n - 1;
        if m.has(j as u16) {
            assert(piles[DepotRole::Farm.spec_base() + j].len() > 0);
            assert(farm_top(piles, j) == Some(piles[DepotRole::Farm.spec_base() + j].last()));
        }
        assert(ranks.take(n).last() == ranks[j]);
    } else {
        assert(ranks.take(n) =~= Seq::<int>::empty());
    }
}

/// A click on the market with farm plots selected harvests them exactly when they form a crop
/// group: at least one plot, each selected plot holding a card, all of one suit, laid out in the
/// shape of that suit, and the ranks of those cards summing to exactly 0. Otherwise the click
/// changes nothing; a group whose ranks sum to anything else, below 0 included, stays put.
pub proof fn law_harvest_needs_zero_sum(v: GameView, m: BitMask, pos: BoardPos)
    requires
        v.playable(),
        !v.busy(),
        v.selected == Some(Selection::Farm(m)),
        has_role(pos.depot_index as int, DepotRole::Market),
    ensures
        ({
            let base = DepotRole::Farm.spec_base();
            let group = {
                &&& exists|i: u16| #[trigger] m.has(i)
                &&& exists|s: Suit|
                    #[trigger] crop_group_shape(s, m) && forall|i: u16| #[trigger]
                        m.has(i) ==> v.piles[base + i].len() > 0 && v.piles[base + i].last().suit
                            == s
                &&& total(selected_top_ranks(v.piles, m)) == 0
            };
            &&& group ==> click_result(v, pos) == harvest_result(v, m)
            &&& !group ==> click_result(v, pos) == v
        }),
{
    let base = DepotRole::Farm.spec_base();
    let ranks = selected_top_ranks(v.piles, m);
    assert(ranks.take(NUM_FARM_PLOTS as int) =~= ranks);
    let group = {
        &&& exists|i: u16| #[trigger] m.has(i)
        &&& exists|s: Suit|
            #[trigger] crop_group_shape(s, m) && forall|i: u16| #[trigger]
                m.has(i) ==> v.piles[base + i].len() > 0 && v.piles[base + i].last().suit == s
        &&& total(ranks) == 0
    };
    if group {
        let s = choose|s: Suit|
            #[trigger] crop_group_shape(s, m) && forall|i: u16| #[trigger]
                m.has(i) ==> v.piles[base + i].len() > 0 && v.piles[base + i].last().suit == s;
        lemma_top_ranks_total(v.piles, m, NUM_FARM_PLOTS as int);
        assert forall|i: u16| #[trigger] m.has(i) implies (farm_top(v.piles, i as int) matches Some(
            c,
        ) && c.suit == s) by {
            assert(v.piles[base + i].len() > 0);
        }
        assert(crop_group_of_suit(v.piles, m, s));
        assert(crop_group_ok(v));
    }
    if crop_group_ok(v) {
        let s = choose|s: Suit| crop_group_of_suit(v.piles, m, s);
        assert forall|i: u16| #[trigger] m.has(i) implies v.piles[base + i].len() > 0
            && v.piles[base + i].last().suit == s by {
            assert(farm_top(v.piles, i as int) matches Some(c) && c.suit == s);
        }
        assert forall|i: u16| #[trigger] m.has(i) && i < NUM_FARM_PLOTS implies v.piles[base
            + i].len() > 0 by {
            assert(farm_top(v.piles, i as int) matches Some(c) && c.suit == s);
        }
        lemma_top_ranks_total(v.piles, m, NUM_FARM_PLOTS as int);
        assert(crop_group_shape(s, m));
        assert(group);
    }
    assert(DepotRole::spec_role_and_subindex(pos.depot_index as int) matches Some(
        (DepotRole::Market, _),
    ));
}

/// A double click moves the double-clicked card and nothing else. When it changes anything, the
/// clicked card was the top card of its tableau column, it alone goes into the empty free cell,
/// and the movement is recorded from the clicked position. A double click on a card with cards
/// above it changes nothing, and one on the top card of a column, with the free cell empty and no
/// movement being shown, always moves it.
pub proof fn law_double_click_moves_clicked_card(v: GameView, pos: BoardPos)
    requires
        v.playable(),
    ensures
        ({
            let d = pos.depot_index as int;
            let c = pos.card_index as int;
            let fc = DepotRole::FreeCell.spec_base();
            let w = double_click_result(v, pos);
            &&& w.history == v.history ==> w == v
            &&& w.history != v.history ==> {
                &&& pos.depot_index < NUM_TABLEAUS
                &&& c + 1 == v.piles[d].len()
                &&& v.piles[fc].len() == 0
                &&& w.history == v.history.push(
                    ActionRecord {
                        pos1: pos,
                        pos2: BoardPos { depot_index: fc as usize, card_index: 0 },
                    },
                )
                &&& w.piles[d] == v.piles[d].take(c)
                &&& w.piles[fc] == seq![v.piles[d][c]]
            }
            &&& pos.depot_index < NUM_TABLEAUS && c + 1 < v.piles[d].len() ==> w == v
            &&& !v.busy() && pos.depot_index < NUM_TABLEAUS && c + 1 == v.piles[d].len()
                && v.piles[fc].len() == 0 ==> w.history != v.history
        }),
{
    let d = pos.depot_index as int;
    let c = pos.card_index as int;
    let fc = DepotRole::FreeCell.spec_base();
    let w = double_click_result(v, pos);
    if v.busy() || !has_role(d, DepotRole::Tableau) || pos.card_index >= v.piles[d].len() {
    } else {
        let dest = BoardPos { depot_index: fc as usize, card_index: v.piles[fc].len() as usize };
        assert(DepotRole::spec_role_and_subindex(fc) == Some((DepotRole::FreeCell, 0int)));
        assert(d < NUM_TABLEAUS);
        if move_allowed(v, pos, dest) {
            assert(w.history.len() == v.history.len() + 1);
            assert(v.piles[d].skip(c) =~= seq![v.piles[d][c]]);
            assert(w.piles[fc] =~= v.piles[fc] + v.piles[d].skip(c));
            assert(w.piles[fc] =~= seq![v.piles[d][c]]);
        }
    }
}

/// A click on the selected pile itself drops the selection and changes nothing else.
pub proof fn law_click_on_selection_drops_it(v: GameView, src: BoardPos)
    requires
        !v.busy(),
        v.selected == Some(Selection::Stack(src)),
    ensures
        click_result(v, src) == (GameView { selected: None, ..v }),
{
}

/// A click in another depot while a pile is selected moves the pile exactly when the click is on
/// the top card of that depot (or on the empty depot) and the depot takes it: a tableau column
/// takes it when empty or when its top card is of another suit and one rank above the pile's
/// bottom card; the free cell and a farm plot take a single card, and only when empty; the market
/// never takes a pile. The move takes the cards from the selected one up off their depot, puts
/// them in order on the clicked depot, records the movement, and is one undoable step. A click
/// that moves nothing changes nothing.
pub proof fn law_selected_pile_moves(v: GameView, src: BoardPos, pos: BoardPos)
    requires
        v.playable(),
        !v.busy(),
        v.selected == Some(Selection::Stack(src)),
        src.depot_index != pos.depot_index,
        pos.depot_index < NUM_DEPOTS,
    ensures
        ({
            let d1 = src.depot_index as int;
            let c1 = src.card_index as int;
            let d2 = pos.depot_index as int;
            let n2 = v.piles[d2].len();
            let bottom = v.piles[d1][c1];
            let on_top = (pos.card_index == usize::MAX && n2 == 0) || (pos.card_index < usize::MAX
                && pos.card_index + 1 == n2);
            let takes = if d2 < NUM_TABLEAUS {
                n2 == 0 || (v.piles[d2].last().suit != bottom.suit && bottom.rank
                    == v.piles[d2].last().rank - 1)
            } else {
                (has_role(d2, DepotRole::FreeCell) || has_role(d2, DepotRole::Farm)) && n2 == 0 && c1
                    + 1 == v.piles[d1].len()
            };
            let w = click_result(v, pos);
            &&& on_top && takes ==> {
                &&& w.history == v.history.push(
                    ActionRecord {
                        pos1: src,
                        pos2: BoardPos { depot_index: pos.depot_index, card_index: n2 as usize },
                    },
                )
                &&& w.undo_stack == v.undo_stack.push(v.history.len() as usize)
                &&& w.selected is None
                &&& w.piles[d1] == v.piles[d1].take(c1)
                &&& w.piles[d2] == v.piles[d2] + v.piles[d1].skip(c1)
                &&& forall|d: int| 0 <= d < NUM_DEPOTS && d != d1 && d != d2 ==> #[trigger] w.piles[d] == v.piles[d]
            }
            &&& !(on_top && takes) ==> w == v
        }),
{
    let d2 = pos.depot_index as int;
    assert(pos != src);
    let dest = BoardPos {
        depot_index: pos.depot_index,
        card_index: if pos.card_index == usize::MAX {
            0
        } else {
            (pos.card_index + 1) as usize
        },
    };
    if d2 < NUM_TABLEAUS {
        assert(DepotRole::spec_role_and_subindex(d2) == Some((DepotRole::Tableau, d2)));
    } else if d2 == NUM_TABLEAUS {
        assert(DepotRole::spec_role_and_subindex(d2) == Some((DepotRole::FreeCell, 0int)));
    } else if d2 < DepotRole::Market.spec_base() {
        assert(has_role(d2, DepotRole::Farm));
    } else {
        assert(has_role(d2, DepotRole::Market));
    }
}

/// With farm plots selected, a click on a farm plot that holds a card adds that plot to the
/// selection or takes it out, and the selection is dropped once no plot is left in it. A click on
/// an empty plot, a tableau column or the free cell changes nothing. The piles and the history
/// are never touched.
pub proof fn law_farm_click_toggles(v: GameView, m: BitMask, pos: BoardPos)
    requires
        v.playable(),
        !v.busy(),
        v.selected == Some(Selection::Farm(m)),
        pos.depot_index < DepotRole::Market.spec_base(),
    ensures
        ({
            let d = pos.depot_index as int;
            let i = d - DepotRole::Farm.spec_base();
            let w = click_result(v, pos);
            &&& w == (GameView { selected: w.selected, ..v })
            &&& !(has_role(d, DepotRole::Farm) && v.piles[d].len() > 0) ==> w == v
            &&& has_role(d, DepotRole::Farm) && v.piles[d].len() > 0 ==> {
                &&& w.selected is None ==> forall|j: u16| #[trigger] m.has(j) <==> j == i
                &&& w.selected is Some ==> (w.selected matches Some(Selection::Farm(m2)) && (forall|
                    j: u16,
                |
                    #![trigger m2.has(j)]
                    m2.has(j) <==> (m.has(j) != (j == i))) && m2.0 != 0)
            }
        }),
{
    let d = pos.depot_index as int;
    let i = d - DepotRole::Farm.spec_base();
    if has_role(d, DepotRole::Farm) {
        assert(DepotRole::spec_role_and_subindex(d) == Some((DepotRole::Farm, i)));
        if v.piles[d].len() > 0 {
            let m2 = BitMask(m.0 ^ (1u16 << (i as u16)));
            lemma_flip_has(m, i as u16);
            if m2.0 == 0 {
                assert forall|j: u16| #[trigger] m.has(j) <==> j == i by {
                    let x = m2.0;
                    assert(x == 0 ==> (x >> j) & 1u16 != 1u16) by (bit_vector);
                    assert(!m2.has(j));
                }
            } else {
                assert(click_result(v, pos).selected == Some(Selection::Farm(m2)));

                assert forall|j: u16| #[trigger] m2.has(j) <==> (m.has(j) != (j == i)) by {
                    assert(m2.has(j) == if j == i as u16 {
                        !m.has(j)
                    } else {
                        m.has(j)
                    });
                }
            }
        }
    } else if d < NUM_TABLEAUS {
        assert(DepotRole::spec_role_and_subindex(d) == Some((DepotRole::Tableau, d)));
    } else {
        assert(DepotRole::spec_role_and_subindex(d) == Some((DepotRole::FreeCell, 0int)));
    }
}

/// With nothing selected, a click on the card of the free cell selects it, and a click on the
/// card of a farm plot selects that plot alone, when the card is the top one of its depot;
/// a click anywhere else in those depots, or anywhere on the market, selects nothing. The piles
/// and the history are never touched.
pub proof fn law_pick_free_cell_or_plot(v: GameView, pos: BoardPos)
    requires
        v.playable(),
        !v.busy(),
        v.selected is None,
        NUM_TABLEAUS <= pos.depot_index < NUM_DEPOTS,
    ensures
        ({
            let d = pos.depot_index as int;
            let on_top = pos.card_index + 1 == v.piles[d].len();
            let w = click_result(v, pos);
            &&& w == (GameView { selected: w.selected, ..v })
            &&& has_role(d, DepotRole::FreeCell) ==> w.selected == if on_top {
                Some(Selection::Stack(pos))
            } else {
                None
            }
            &&& has_role(d, DepotRole::Farm) ==> if on_top {
                w.selected matches Some(Selection::Farm(m2)) && forall|j: u16|
                    #![trigger m2.has(j)]
                    m2.has(j) <==> j == d - DepotRole::Farm.spec_base()
            } else {
                w.selected is None
            }
            &&& has_role(d, DepotRole::Market) ==> w == v
        }),
{
    let d = pos.depot_index as int;
    if d == NUM_TABLEAUS {
        assert(DepotRole::spec_role_and_subindex(d) == Some((DepotRole::FreeCell, 0int)));
    } else if has_role(d, DepotRole::Farm) {
        let i = d - DepotRole::Farm.spec_base();
        assert(DepotRole::spec_role_and_subindex(d) == Some((DepotRole::Farm, i)));
        lemma_single_has(i as u16);
    } else {
        assert(has_role(d, DepotRole::Market));
    }
}

/// Undo does nothing while movements are being shown, when undo is not allowed, or when there is
/// no step to take back. Otherwise it takes back the last step: the history is cut back to the
/// length recorded when the step began, and that record leaves the undo stack.
pub proof fn law_undo_takes_back_last_step(v: GameView)
    ensures
        v.busy() || !v.allow_undo || v.undo_stack.len() == 0 ==> undo_result(v) == v,
        !v.busy() && v.allow_undo && v.undo_stack.len() > 0 ==> {
            let target = v.undo_stack.last() as int;
            let w = undo_result(v);
            &&& w.undo_stack == v.undo_stack.drop_last()
            &&& w.history == if target < v.history.len() {
                v.history.take(target)
            } else {
                v.history
            }
            &&& w.deal == v.deal
            &&& w.num_wins == v.num_wins
            &&& w.already_won == v.already_won
        },
{
    if !v.busy() && v.allow_undo && v.undo_stack.len() > 0 {
        let target = v.undo_stack.last() as int;
        if target >= v.history.len() {
            assert(undo_result(v).history == v.history);
        }
    }
}

/// Restarting deals the same cards again: each tableau column gets its twelve cards of the deal,
/// in deal order, every other depot is emptied, and the history and the undo stack are cleared;
/// the deal, the win count and the settings stay. It is done only when there is a step to take
/// back and undo is allowed; otherwise nothing changes.
pub proof fn law_restart_redeals(v: GameView)
    ensures
        ({
            let w = restart_result(v);
            &&& v.history.len() == 0 || !v.allow_undo || v.undo_stack.len() == 0 ==> w == v
            &&& v.history.len() > 0 && v.allow_undo && v.undo_stack.len() > 0 ==> {
                &&& w.piles.len() == NUM_DEPOTS
                &&& forall|t: int|
                    0 <= t < NUM_TABLEAUS ==> #[trigger] w.piles[t] == v.deal.subrange(
                        t * TABLEAU_DEAL,
                        (t + 1) * TABLEAU_DEAL,
                    )
                &&& forall|d: int| NUM_TABLEAUS <= d < NUM_DEPOTS ==> #[trigger] w.piles[d].len() == 0
                &&& w.history.len() == 0
                &&& w.undo_stack.len() == 0
                &&& w.selected is None
                &&& w.acts.len() == 0
                &&& w.deal == v.deal
                &&& w.num_wins == v.num_wins
                &&& w.already_won == v.already_won
                &&& w.allow_undo == v.allow_undo
                &&& w.skin == v.skin
            }
        }),
{
}

/// When the display reports the current batch of movements as shown, the movements are done, the
/// key moves on by one (wrapping), and if all the deck is then in the market of a game not yet
/// won, the win is counted once and the game marked as won; otherwise the win count stays.
/// A report for any other key changes nothing.
pub proof fn law_advance_counts_first_win(v: GameView, key: u16)
    requires
        v.num_wins < i32::MAX,
    ensures
        key != v.animation_key ==> advance_result(v, key) == v,
        key == v.animation_key ==> {
            let w = advance_result(v, key);
            let full = v.piles[DepotRole::Market.spec_base()].len() == DECK_SIZE;
            &&& w.acts.len() == 0
            &&& w.piles == v.piles
            &&& w.history == v.history
            &&& w.animation_key == (if v.animation_key == u16::MAX {
                0
            } else {
                v.animation_key + 1
            })
            &&& full && !v.already_won ==> w.num_wins == v.num_wins + 1 && w.already_won
            &&& !(full && !v.already_won) ==> w.num_wins == v.num_wins && w.already_won
                == v.already_won
        },
{
}

/// The cards on top of the farm plots `plots`, in the order the plots are listed.
pub open spec fn plot_cards(piles: Seq<Seq<Card>>, plots: Seq<int>) -> Seq<Card> {
    plots.map_values(|p: int| piles[DepotRole::Farm.spec_base() + p].last())
}

/// The plots that a mask lists below `n` come in ascending order, and they are exactly its
/// plots below `n`.
pub proof fn law_plots_below_ascending(m: BitMask, n: int)
    requires
        0 <= n <= 16,
    ensures
        forall|k: int, l: int|
            0 <= k < l < plots_below(m, n).len() ==> #[trigger] plots_below(m, n)[k]
                < #[trigger] plots_below(m, n)[l],
        forall|k: int|
            0 <= k < plots_below(m, n).len() ==> 0 <= #[trigger] plots_below(m, n)[k] < n && m.has(
                plots_below(m, n)[k] as u16,
            ),
        forall|j: u16| j < n && #[trigger] m.has(j) ==> plots_below(m, n).contains(j as int),
    decreases n,
{
    if n > 0 {
        law_plots_below_ascending(m, n - 1);
        lemma_plots_below_step(m, n - 1);
        lemma_plots_below_props(m, n - 1);
        let a = plots_below(m, n - 1);
        let b = plots_below(m, n);
        if m.has((n - 1) as u16) {
            assert(b =~= a.push(n - 1));
            assert forall|j: u16| j < n && #[trigger] m.has(j) implies b.contains(j as int) by {
                if j < n - 1 {
                    let k = choose|k: int| 0 <= k < a.len() && a[k] == j as int;
                    assert(b[k] == j as int);
                } else {
                    assert(b[b.len() - 1] == j as int);
                }
            }
        } else {
            assert(b =~= a);
        }
    }
}

proof fn lemma_harvest_market(v: GameView, m: BitMask, s: Suit, n: int)
    requires
        v.valid(),
        v.selected == Some(Selection::Farm(m)),
        crop_group_of_suit(v.piles, m, s),
        0 <= n <= NUM_FARM_PLOTS,
    ensures
        ({
            let market = DepotRole::Market.spec_base();
            let w = harvest_steps(v, plots_below(m, n), v.piles[market].len() as int);
            &&& w.piles[market] == v.piles[market] + plot_cards(v.piles, plots_below(m, n))
            &&& forall|d: int| 0 <= d < DepotRole::Farm.spec_base() ==> #[trigger] w.piles[d] == v.piles[d]
        }),
    decreases n,
{
    let market = DepotRole::Market.spec_base();
    let start = v.piles[market].len() as int;
    if n == 0 {
        assert(plots_below(m, 0) =~= Seq::<int>::empty());
        assert(v.piles[market] + plot_cards(v.piles, plots_below(m, 0)) =~= v.piles[market]);
    } else {
        let i = n - 1;
        lemma_harvest_market(v, m, s, i);
        lemma_harvest_steps(v, m, s, i);
        lemma_plots_below_step(m, i);
        let w = harvest_steps(v, plots_below(m, i), start);
        if m.has(i as u16) {
            let ps = plots_below(m, n);
            let d = DepotRole::Farm.spec_base() + i;
            let p1 = BoardPos { depot_index: d as usize, card_index: 0 };
            let p2 = BoardPos {
                depot_index: market as usize,
                card_index: (start + ps.len() - 1) as usize,
            };
            assert(harvest_steps(v, ps, start).piles == moved_piles(w.piles, p1, p2));
            assert(w.piles[d] == v.piles[d]);
            assert(farm_top(v.piles, i) is Some);
            assert(has_role(d, DepotRole::Farm));
            assert(v.piles[d].len() == 1);
            assert(v.piles[d] =~= seq![v.piles[d].last()]);
            assert(w.piles[d].skip(0) =~= w.piles[d]);
            assert(plot_cards(v.piles, ps) =~= plot_cards(v.piles, plots_below(m, i)).push(
                v.piles[d].last(),
            ));
            assert(harvest_steps(v, ps, start).piles[market] =~= v.piles[market] + plot_cards(
                v.piles,
                ps,
            ));
        } else {
            assert(plots_below(m, n) == plots_below(m, i));
        }
    }
}

/// A click that harvests fills the market in plot order: the cards of the selected plots go on
/// top of the market in ascending order of their plots, the selected plots are emptied, the
/// other plots keep their cards, and the tableau and the free cell are untouched.
pub proof fn law_harvest_fills_market_in_plot_order(v: GameView, m: BitMask, pos: BoardPos)
    requires
        v.valid(),
        !v.busy(),
        v.selected == Some(Selection::Farm(m)),
        has_role(pos.depot_index as int, DepotRole::Market),
        click_result(v, pos).history != v.history,
    ensures
        ({
            let market = DepotRole::Market.spec_base();
            let base = DepotRole::Farm.spec_base();
            let w = click_result(v, pos);
            &&& w.piles[market] == v.piles[market] + plot_cards(
                v.piles,
                plots_below(m, NUM_FARM_PLOTS as int),
            )
            &&& forall|j: int|
                0 <= j < NUM_FARM_PLOTS ==> #[trigger] w.piles[base + j] == if m.has(j as u16) {
                    Seq::<Card>::empty()
                } else {
                    v.piles[base + j]
                }
            &&& forall|d: int| 0 <= d < base ==> #[trigger] w.piles[d] == v.piles[d]
        }),
{
    assert(DepotRole::spec_role_and_subindex(pos.depot_index as int) matches Some(
        (DepotRole::Market, _),
    ));
    assert(crop_group_ok(v));
    let s = choose|s: Suit| crop_group_of_suit(v.piles, m, s);
    lemma_harvest_steps(v, m, s, NUM_FARM_PLOTS as int);
    lemma_harvest_market(v, m, s, NUM_FARM_PLOTS as int);
}

/// The number of cards of `s` equal to `c`.
spec fn copies(s: Seq<Card>, c: Card) -> nat
    decreases s.len(),
{
    if s.len() == 0 {
        0
    } else {
        copies(s.drop_last(), c) + if s.last() == c {
            1nat
        } else {
            0nat
        }
    }
}

/// The number of the first `r` ranks of a suit that equal `x`.
spec fn rank_copies(x: i8, r: int) -> nat
    decreases r,
{
    if r <= 0 {
        0
    } else {
        rank_copies(x, r - 1) + if RANKS_PER_SUIT@[r - 1] == x {
            1nat
        } else {
            0nat
        }
    }
}

proof fn lemma_copies_count(s: Seq<Card>, c: Card)
    ensures
        s.to_multiset().count(c) == copies(s, c),
    decreases s.len(),
{
    broadcast use vstd::seq_lib::group_to_multiset_ensures;

    if s.len() == 0 {
        assert(s.to_multiset() =~= vstd::multiset::Multiset::empty());
    } else {
        lemma_copies_count(s.drop_last(), c);
        assert(s =~= s.drop_last().push(s.last()));
    }
}

proof fn lemma_copies_take(s: Seq<Card>, n: int, c: Card)
    requires
        1 <= n <= s.len(),
    ensures
        copies(s.take(n), c) == copies(s.take(n - 1), c) + if s[n - 1] == c {
            1nat
        } else {
            0nat
        },
{
    assert(s.take(n).drop_last() =~= s.take(n - 1));
}

proof fn lemma_fresh_rounds(c: Card, r: int)
    requires
        0 <= r <= RANKS_PER_SUIT@.len(),
    ensures
        copies(fresh_deck().take(4 * r), c) == rank_copies(c.rank, r),
    decreases r,
{
    let s = fresh_deck();
    if r == 0 {
        assert(s.take(0) =~= Seq::<Card>::empty());
    } else {
        lemma_fresh_rounds(c, r - 1);
        let b = 4 * (r - 1);
        lemma_copies_take(s, b + 1, c);
        lemma_copies_take(s, b + 2, c);
        lemma_copies_take(s, b + 3, c);
        lemma_copies_take(s, b + 4, c);
        assert(s[b] == Card { rank: RANKS_PER_SUIT@[r - 1], suit: suit_in_round(0) });
        assert(s[b + 1] == Card { rank: RANKS_PER_SUIT@[r - 1], suit: suit_in_round(1) });
        assert(s[b + 2] == Card { rank: RANKS_PER_SUIT@[r - 1], suit: suit_in_round(2) });
        assert(s[b + 3] == Card { rank: RANKS_PER_SUIT@[r - 1], suit: suit_in_round(3) });
    }
}

/// The deck holds, for each of the four suits, one card each of ranks -3 and 3 and two cards
/// each of ranks -2 to 2: 48 cards in all. Every deal holds exactly these cards.
pub proof fn law_deck_composition(c: Card)
    ensures
        fresh_deck().len() == DECK_SIZE,
        DECK_SIZE == 48,
        fresh_deck().to_multiset().count(c) == if c.rank == -3 || c.rank == 3 {
            1nat
        } else if -2 <= c.rank <= 2 {
            2nat
        } else {
            0nat
        },
{
    lemma_copies_count(fresh_deck(), c);
    lemma_fresh_rounds(c, 12);
    assert(fresh_deck().take(48) =~= fresh_deck());
    reveal_with_fuel(rank_copies, 13);
}

} // verus!
