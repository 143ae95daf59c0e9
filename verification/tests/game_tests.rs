use rand::Rng;
use farm_solitaire::bitmask::BitMask;
use farm_solitaire::board::{Board, BoardPos, DepotRole, Selection, NUM_DEPOTS, TABLEAU_DEAL};
use farm_solitaire::card::{Card, Suit, DECK_SIZE, RANKS_PER_SUIT};
use farm_solitaire::game::{ActionRecord, GameState, ScreenState};
use farm_solitaire::skin::Skin;

fn c(rank: i8, suit: Suit) -> Card {
    Card { rank, suit }
}

fn fresh_deck() -> Vec<Card> {
    let mut d = vec![];
    for r in RANKS_PER_SUIT {
        for s in Suit::all() {
            d.push(c(r, s));
        }
    }
    d
}

fn sorted_codes(cards: &[Card]) -> Vec<String> {
    let mut v: Vec<String> = cards.iter().map(|c| c.code()).collect();
    v.sort();
    v
}

fn all_board_cards(b: &Board) -> Vec<Card> {
    b.depots.iter().flatten().copied().collect()
}

/// A game whose board is given pile by pile; the deal holds the same cards.
fn game_with(depots: Vec<Vec<Card>>) -> GameState {
    assert_eq!(depots.len(), NUM_DEPOTS);
    let deal: Vec<Card> = depots.iter().flatten().copied().collect();
    GameState {
        board: Board { depots, selected: None, animation_acts: vec![] },
        deal,
        animation_key: 0,
        history: vec![],
        undo_stack: vec![],
        already_won: false,
        num_wins: 0,
        screen_state: ScreenState::Game,
        allow_undo: true,
        skin: Skin::default(),
    }
}

fn empty_piles() -> Vec<Vec<Card>> {
    vec![vec![]; NUM_DEPOTS]
}

fn finish_animations(g: &mut GameState) {
    let key = g.animation_key;
    assert!(g.advance_animations(key));
}

#[test]
fn depot_roles() {
    assert_eq!(NUM_DEPOTS, 15);
    assert_eq!(DepotRole::Tableau.id(0), 0);
    assert_eq!(DepotRole::FreeCell.id(0), 4);
    assert_eq!(DepotRole::Farm.id(0), 5);
    assert_eq!(DepotRole::Farm.id(8), 13);
    assert_eq!(DepotRole::Market.id(0), 14);
    assert_eq!(DepotRole::role_and_subindex(7), Some((DepotRole::Farm, 2)));
    assert_eq!(DepotRole::role(3), Some(DepotRole::Tableau));
    assert_eq!(DepotRole::role(14), Some(DepotRole::Market));
    assert_eq!(DepotRole::role(15), None);
}

#[test]
fn new_deal_is_a_shuffled_deck() {
    let deal = GameState::new_deal(&mut rand::rng());
    assert_eq!(deal.len(), DECK_SIZE);
    assert_eq!(sorted_codes(&deal), sorted_codes(&fresh_deck()));
    // The shuffle moves the cards: the fresh order comes out with probability 1/48!.
    let again = GameState::new_deal(&mut rand::rng());
    assert!(deal != fresh_deck() || again != fresh_deck());
}

#[test]
fn init_deals_the_tableau() {
    let g = GameState::init();
    assert_eq!(g.deal.len(), DECK_SIZE);
    for t in 0..4 {
        assert_eq!(g.board.depots[t], g.deal[t * TABLEAU_DEAL..(t + 1) * TABLEAU_DEAL].to_vec());
    }
    for d in 4..NUM_DEPOTS {
        assert!(g.board.depots[d].is_empty());
    }
    assert!(g.history.is_empty() && g.undo_stack.is_empty());
    assert_eq!(g.num_wins, 0);
    assert!(!g.already_won && g.allow_undo && !g.is_busy() && !g.is_won());
    assert_eq!(g.screen_state, ScreenState::Game);
    assert_eq!(sorted_codes(&all_board_cards(&g.board)), sorted_codes(&fresh_deck()));
}

#[test]
fn can_stack_rule() {
    let g = game_with(empty_piles());
    assert!(g.can_stack(c(2, Suit::Corn), c(1, Suit::Melon)));
    assert!(!g.can_stack(c(2, Suit::Corn), c(1, Suit::Corn)));
    assert!(!g.can_stack(c(2, Suit::Corn), c(0, Suit::Melon)));
    assert!(!g.can_stack(c(1, Suit::Melon), c(2, Suit::Corn)));
}

#[test]
fn select_and_move_a_stack_then_undo() {
    let mut p = empty_piles();
    p[0] = vec![c(3, Suit::Melon), c(2, Suit::Corn), c(1, Suit::Melon)];
    p[1] = vec![c(-3, Suit::Eggplant), c(3, Suit::Blueberry)];
    let mut g = game_with(p);
    let before = g.board.depots.clone();

    // Picking a card whose stack above does not alternate is refused.
    g.onclick(BoardPos::new(0, 0));
    assert_eq!(g.board.selected, Some(Selection::Stack(BoardPos::new(0, 0))));
    g.clear_selection();
    g.onclick(BoardPos::new(0, 1));
    assert_eq!(g.board.selected, Some(Selection::Stack(BoardPos::new(0, 1))));
    // Clicking it again drops the selection.
    g.onclick(BoardPos::new(0, 1));
    assert_eq!(g.board.selected, None);

    g.onclick(BoardPos::new(0, 1));
    // Move the 2C-1M stack onto the 3B of column 1.
    g.onclick(BoardPos::new(1, 1));
    assert_eq!(g.board.depots[0], vec![c(3, Suit::Melon)]);
    assert_eq!(g.board.depots[1], vec![c(-3, Suit::Eggplant), c(3, Suit::Blueberry), c(2, Suit::Corn), c(1, Suit::Melon)]);
    assert_eq!(g.board.selected, None);
    assert_eq!(g.history, vec![ActionRecord { pos1: BoardPos::new(0, 1), pos2: BoardPos::new(1, 2) }]);
    assert_eq!(g.undo_stack, vec![0]);
    assert!(g.is_busy());

    // No undo while the move is being shown.
    assert!(!g.undo());
    assert_eq!(g.history.len(), 1);

    finish_animations(&mut g);
    assert!(!g.is_busy());
    assert!(g.undo_possible());
    assert!(g.undo());
    assert_eq!(g.board.depots, before);
    assert!(g.history.is_empty() && g.undo_stack.is_empty());
    assert!(!g.undo_possible());
    assert!(!g.undo());
}

#[test]
fn refused_moves_change_nothing() {
    let mut p = empty_piles();
    p[0] = vec![c(1, Suit::Melon)];
    p[1] = vec![c(3, Suit::Melon)];
    p[2] = vec![c(2, Suit::Melon), c(0, Suit::Corn)];
    let mut g = game_with(p);
    g.onclick(BoardPos::new(0, 0));
    let snapshot = g.clone();
    // Same suit: refused.
    g.onclick(BoardPos::new(1, 0));
    assert_eq!(g, snapshot);
    // Not the top card of the target: refused.
    g.onclick(BoardPos::new(2, 0));
    assert_eq!(g, snapshot);
    // Clicking a stack of the market while a stack is selected: refused.
    g.onclick(BoardPos::new(14, usize::MAX));
    assert_eq!(g, snapshot);
}

#[test]
fn free_cell_and_empty_column() {
    let mut p = empty_piles();
    p[0] = vec![c(1, Suit::Melon), c(0, Suit::Corn)];
    let mut g = game_with(p);
    // Double click sends the top card to the free cell.
    g.ondoubleclick(BoardPos::new(0, 1));
    assert_eq!(g.board.depots[4], vec![c(0, Suit::Corn)]);
    finish_animations(&mut g);
    // A two-card stack cannot go to the free cell, which is full anyway.
    g.ondoubleclick(BoardPos::new(0, 0));
    assert_eq!(g.board.depots[0], vec![c(1, Suit::Melon)]);
    // Free cell card onto an empty column, reached through its empty frame.
    g.onclick(BoardPos::new(4, 0));
    assert_eq!(g.board.selected, Some(Selection::Stack(BoardPos::new(4, 0))));
    g.onclick(BoardPos::new(2, usize::MAX));
    assert_eq!(g.board.depots[2], vec![c(0, Suit::Corn)]);
    assert!(g.board.depots[4].is_empty());
    finish_animations(&mut g);
    assert!(g.undo());
    assert!(g.undo());
    assert_eq!(g.board.depots[0], vec![c(1, Suit::Melon), c(0, Suit::Corn)]);
    assert!(g.board.depots[4].is_empty());
}

#[test]
fn planting_harvesting_and_winning() {
    // A board with one card short of a finished game is not won.
    let mut p = empty_piles();
    p[0] = vec![c(1, Suit::Corn), c(-1, Suit::Corn)];
    let mut g = game_with(p);
    // Plant both cards in a vertical pair of plots: plots 0 and 3.
    g.onclick(BoardPos::new(0, 1));
    g.onclick(BoardPos::new(5, usize::MAX));
    assert_eq!(g.board.depots[5], vec![c(-1, Suit::Corn)]);
    finish_animations(&mut g);
    g.onclick(BoardPos::new(0, 0));
    g.onclick(BoardPos::new(8, usize::MAX));
    finish_animations(&mut g);
    assert_eq!(g.board.depots[8], vec![c(1, Suit::Corn)]);

    // Select plot 0, then add plot 3.
    g.onclick(BoardPos::new(5, 0));
    assert_eq!(g.board.selected, Some(Selection::Farm(BitMask(1))));
    assert!(!g.valid_crop_group_selected());
    g.onclick(BoardPos::new(8, 0));
    assert_eq!(g.board.selected, Some(Selection::Farm(BitMask(0b1001))));
    assert!(g.valid_crop_group_selected());
    // Toggling a plot off and on again.
    g.onclick(BoardPos::new(8, 0));
    assert_eq!(g.board.selected, Some(Selection::Farm(BitMask(1))));
    g.onclick(BoardPos::new(8, 0));

    let history_before = g.history.len();
    g.onclick(BoardPos::new(14, usize::MAX));
    assert_eq!(g.board.depots[14], vec![c(-1, Suit::Corn), c(1, Suit::Corn)]);
    assert!(g.board.depots[5].is_empty() && g.board.depots[8].is_empty());
    assert_eq!(g.history.len(), history_before + 2);
    assert_eq!(*g.undo_stack.last().unwrap(), history_before);
    assert_eq!(g.board.animation_acts.len(), 2);

    // The harvest is undone as one step.
    finish_animations(&mut g);
    assert!(!g.is_won());
    assert!(g.undo());
    assert_eq!(g.board.depots[5], vec![c(-1, Suit::Corn)]);
    assert_eq!(g.board.depots[8], vec![c(1, Suit::Corn)]);
    assert!(g.board.depots[14].is_empty());
}

#[test]
fn invalid_groups_are_not_harvested() {
    let mut p = empty_piles();
    p[5] = vec![c(1, Suit::Corn)];
    p[8] = vec![c(0, Suit::Corn)];
    p[6] = vec![c(-1, Suit::Melon)];
    let mut g = game_with(p);
    // Sum is not 0.
    g.board.selected = Some(Selection::Farm(BitMask(0b1001)));
    assert!(!g.valid_crop_group_selected());
    let snapshot = g.clone();
    g.onclick(BoardPos::new(14, usize::MAX));
    assert_eq!(g, snapshot);
    // Mixed suits.
    g.board.selected = Some(Selection::Farm(BitMask(0b011)));
    assert!(!g.valid_crop_group_selected());
    // Clicking an empty plot changes nothing.
    g.onclick(BoardPos::new(7, usize::MAX));
    assert_eq!(g.board.selected, Some(Selection::Farm(BitMask(0b011))));
}

#[test]
fn winning_counts_once() {
    let mut p = empty_piles();
    p[14] = fresh_deck();
    let mut g = game_with(p);
    assert!(g.is_won());
    assert!(g.advance_animations(0));
    assert_eq!((g.num_wins, g.already_won, g.animation_key), (1, true, 1));
    // A stale key changes nothing.
    assert!(!g.advance_animations(0));
    assert!(g.advance_animations(1));
    assert_eq!(g.num_wins, 1);
}

#[test]
fn animation_key_wraps() {
    let mut g = game_with(empty_piles());
    g.animation_key = u16::MAX;
    assert!(g.advance_animations(u16::MAX));
    assert_eq!(g.animation_key, 0);
}

#[test]
fn restart_deals_again() {
    let mut g = GameState::init();
    let dealt = g.board.depots.clone();
    assert!(!g.restart());
    // Move the top of column 0 to the free cell.
    g.ondoubleclick(BoardPos::new(0, TABLEAU_DEAL - 1));
    assert_eq!(g.history.len(), 1);
    finish_animations(&mut g);
    g.allow_undo = false;
    assert!(!g.undo());
    assert!(!g.restart());
    g.allow_undo = true;
    assert!(g.restart());
    assert_eq!(g.board.depots, dealt);
    assert!(g.history.is_empty() && g.undo_stack.is_empty());
}

#[test]
fn new_game_keeps_counters() {
    let mut g = GameState::init();
    g.num_wins = 5;
    g.already_won = true;
    g.new_game();
    assert_eq!(g.num_wins, 5);
    assert!(!g.already_won);
    assert_eq!(sorted_codes(&g.deal), sorted_codes(&fresh_deck()));
}

#[test]
fn busy_board_ignores_clicks() {
    let mut p = empty_piles();
    p[0] = vec![c(1, Suit::Melon), c(0, Suit::Corn)];
    let mut g = game_with(p);
    g.ondoubleclick(BoardPos::new(0, 1));
    assert!(g.is_busy() && g.is_acting());
    let snapshot = g.clone();
    g.onclick(BoardPos::new(0, 0));
    g.ondoubleclick(BoardPos::new(0, 0));
    assert_eq!(g, snapshot);
}

#[test]
fn random_play_keeps_cards_and_undoes_fully() {
    let mut rng = rand::rng();
    for _ in 0..20 {
        let mut g = GameState::init();
        let start = g.board.depots.clone();
        for _ in 0..300 {
            let depot = rng.random_range(0..NUM_DEPOTS);
            let len = g.board.depots[depot].len();
            let card = if rng.random_bool(0.2) { usize::MAX } else { rng.random_range(0..len + 1) };
            let pos = BoardPos::new(depot, card);
            match rng.random_range(0..4) {
                0 => g.ondoubleclick(pos),
                1 => {
                    let key = g.animation_key;
                    g.advance_animations(key);
                }
                _ => g.onclick(pos),
            }
            assert_eq!(sorted_codes(&all_board_cards(&g.board)), sorted_codes(&g.deal));
            for d in 4..14 {
                assert!(g.board.depots[d].len() <= 1);
            }
        }
        let key = g.animation_key;
        g.advance_animations(key);
        while g.undo() {}
        assert_eq!(g.board.depots, start);
        assert!(g.history.is_empty());
    }
}

#[test]
fn click_on_a_hand_built_board() {
    let mut s = GameState::init();
    s.board = Board::empty();
    s.board.depots[DepotRole::Tableau.id(0)] = vec![Card { rank: 1, suit: Suit::Melon }];
    s.board.selected = Some(Selection::Stack(BoardPos::new(DepotRole::Tableau.id(0), 0)));
    s.history = vec![];
    s.undo_stack = vec![];
    assert!(s.is_playable());
    s.onclick(BoardPos::new(DepotRole::Tableau.id(1), usize::MAX));
    assert_eq!(
        s.history,
        vec![ActionRecord {
            pos1: BoardPos::new(DepotRole::Tableau.id(0), 0),
            pos2: BoardPos::new(DepotRole::Tableau.id(1), 0),
        }]
    );
    assert_eq!(s.undo_stack, vec![0]);
    assert!(s.history_reversible());
}

#[test]
fn clicks_outside_the_board_when_busy_or_farm_selected() {
    let mut p = empty_piles();
    p[0] = vec![c(1, Suit::Melon), c(0, Suit::Corn)];
    let mut g = game_with(p);
    g.ondoubleclick(BoardPos::new(0, 1));
    assert!(g.is_busy());
    let snapshot = g.clone();
    g.onclick(BoardPos::new(99, 0));
    assert_eq!(g, snapshot);
    finish_animations(&mut g);
    g.board.selected = Some(Selection::Farm(BitMask(1)));
    let snapshot = g.clone();
    g.onclick(BoardPos::new(99, 0));
    assert_eq!(g, snapshot);
}

#[test]
fn farm_cards_stay_until_harvest() {
    let mut p = empty_piles();
    p[5] = vec![c(1, Suit::Corn)];
    p[0] = vec![c(2, Suit::Melon)];
    let mut g = game_with(p);
    // A farm card cannot be picked as a stack.
    g.onclick(BoardPos::new(5, 0));
    assert_eq!(g.board.selected, Some(Selection::Farm(BitMask(1))));
    // Clicking a tableau card with plots selected moves nothing.
    let snapshot = g.clone();
    g.onclick(BoardPos::new(0, 0));
    assert_eq!(g, snapshot);
    g.ondoubleclick(BoardPos::new(5, 0));
    assert_eq!(g, snapshot);
}

#[test]
fn validity_checks() {
    let g = GameState::init();
    assert!(g.is_playable() && g.history_reversible());
    let mut h = g.clone();
    h.board.depots[0][0].rank = 9;
    assert!(!h.is_playable());
    let mut h = g.clone();
    h.board.selected = Some(Selection::Farm(BitMask(1 << 9)));
    assert!(!h.is_playable());
    let mut h = g.clone();
    h.board.selected = Some(Selection::Stack(BoardPos::new(14, 0)));
    assert!(!h.is_playable());
    let mut h = g.clone();
    h.board.depots.pop();
    assert!(!h.is_playable());
    let mut h = g.clone();
    h.history.push(ActionRecord { pos1: BoardPos::new(0, 0), pos2: BoardPos::new(1, 40) });
    assert!(!h.history_reversible());
    let mut h = g.clone();
    // Taking back a move of two cards into the free cell would leave it with two cards.
    h.history.push(ActionRecord { pos1: BoardPos::new(4, 0), pos2: BoardPos::new(0, 10) });
    assert!(!h.history_reversible());
}
