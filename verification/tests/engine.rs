use uno_server::cards::{Card, Color, PlayerId, Type};
use uno_server::errors::HTMLError;
use uno_server::game::{Actions, Game, GameStatistics, Phase, Player, Players};
use uno_server::packets::PacketType;

fn card(kind: Type, color: Option<Color>) -> Card {
    Card::new(kind, color)
}

fn owned(kind: Type, color: Option<Color>, owner: PlayerId) -> Card {
    Card::new_with_owner(kind, color, Some(owner))
}

fn player(id: PlayerId, cards: Vec<Card>) -> Player {
    let mut p = Player::new(id);
    p.is_connected = true;
    p.cards = cards;
    p
}

/// An active game over the given players and top card; the draw pile
/// is padded so that piles and hands together hold the full 108-card
/// deck, as the engine's invariant demands.
fn active_game(pairs: Vec<(PlayerId, Player)>, current: PlayerId, top: Card) -> Game {
    let in_hands: usize = pairs.iter().map(|p| p.1.cards.len()).sum();
    let mut g = Game::new();
    g.phase = Phase::Active;
    g.players = Players(pairs);
    g.current_turn = Some(current);
    g.deck = filler_deck(108 - 1 - in_hands);
    g.placed_deck = vec![top];
    g
}

fn filler_deck(n: usize) -> Vec<Card> {
    let mut v = Vec::new();
    for _ in 0..n {
        v.push(card(Type::One, Some(Color::Yellow)));
    }
    v
}

#[test]
fn statistics_accumulate() {
    let mut s = GameStatistics::new();
    assert_eq!(s.cards_placed, 0);
    assert_eq!(s.cards_drawn, 0);
    assert!(s.start_time.is_none());
    s.card_placed();
    s.card_placed();
    s.card_drawn();
    assert_eq!(s.cards_placed, 2);
    assert_eq!(s.cards_drawn, 1);
    s.game_started();
    s.game_ended();
    assert!(s.start_time.is_some());
    assert!(s.end_time.is_some());
}

#[test]
fn can_end_needs_a_place_or_three_draws() {
    let mut p = Player::new(1);
    assert!(!p.can_end());
    p.actions.push(Actions::DrawCard);
    p.actions.push(Actions::DrawCard);
    assert!(!p.can_end());
    p.actions.push(Actions::DrawCard);
    assert!(p.can_end());
    let mut q = Player::new(2);
    q.actions.push(Actions::PlaceCard);
    assert!(q.can_end());
}

#[test]
fn rotation_forward_and_backward() {
    let mut ps = Players(vec![
        (1, player(1, vec![])),
        (2, player(2, vec![])),
        (3, player(3, vec![])),
    ]);
    assert_eq!(ps.predict_next(false), 3);
    let r = ps.next_player(false);
    assert_eq!(r, 3);
    assert_eq!(ps.keys(), vec![3, 1, 2]);
    assert_eq!(ps.predict_next(true), 3);
    let r2 = ps.next_player(true);
    assert_eq!(r2, 3);
    assert_eq!(ps.keys(), vec![1, 2, 3]);
}

#[test]
fn sort_by_cards_ascending() {
    let ps = Players(vec![
        (1, player(1, filler_deck(3))),
        (2, player(2, vec![])),
        (3, player(3, filler_deck(1))),
    ]);
    let sorted = ps.sort_by_cards();
    assert_eq!(sorted.len(), 3);
    assert_eq!(sorted[0].id, 2);
    assert_eq!(sorted[1].id, 3);
    assert_eq!(sorted[2].id, 1);
}

#[test]
fn stacking_two_on_two_doubles_then_adds() {
    let a: PlayerId = 1;
    let b: PlayerId = 2;
    let mut g = active_game(
        vec![
            (a, player(a, vec![card(Type::DrawTwo, Some(Color::Red))])),
            (b, player(b, vec![card(Type::DrawTwo, Some(Color::Green))])),
        ],
        a,
        card(Type::DrawTwo, Some(Color::Blue)),
    );
    assert_eq!(g.draw_stack, 0);
    g.place_card(0, a);
    assert_eq!(g.draw_stack, 4);
    g.current_turn = Some(b);
    g.place_card(0, b);
    assert_eq!(g.draw_stack, 6);
}

#[test]
fn block_stacking_doubles_then_adds() {
    let a: PlayerId = 1;
    let mut g = active_game(
        vec![
            (
                a,
                player(
                    a,
                    vec![
                        owned(Type::Block, Some(Color::Blue), a),
                        owned(Type::Block, Some(Color::Green), a),
                    ],
                ),
            ),
            (2, player(2, vec![])),
        ],
        a,
        owned(Type::Block, Some(Color::Red), a),
    );
    g.place_card(0, a);
    assert_eq!(g.block_stack, 2);
    g.place_card(0, a);
    assert_eq!(g.block_stack, 3);
}

#[test]
fn placing_unrelated_card_resets_draw_stack() {
    let a: PlayerId = 1;
    let mut g = active_game(
        vec![
            (a, player(a, vec![card(Type::Five, Some(Color::Blue))])),
            (2, player(2, vec![])),
        ],
        a,
        card(Type::Five, Some(Color::Red)),
    );
    g.draw_stack = 6;
    g.place_card(0, a);
    assert_eq!(g.draw_stack, 0);
}

#[test]
fn place_rejects_illegal_card_and_bad_index() {
    let a: PlayerId = 1;
    let mut g = active_game(
        vec![
            (a, player(a, vec![card(Type::Nine, Some(Color::Green))])),
            (2, player(2, vec![])),
        ],
        a,
        card(Type::Five, Some(Color::Red)),
    );
    g.place_card(0, a);
    // the card matches neither color nor rank: rejected, nothing moved
    assert_eq!(g.players.0[0].1.cards.len(), 1);
    assert_eq!(g.placed_deck.len(), 1);
    assert!(matches!(g.outbox.last().unwrap().1, PacketType::Error(400, _)));
    g.place_card(5, a);
    assert!(matches!(g.outbox.last().unwrap().1, PacketType::Error(400, _)));
}

#[test]
fn forced_draw_uses_base_when_stack_empty() {
    let a: PlayerId = 1;
    let b: PlayerId = 2;
    let mut g = active_game(
        vec![
            (b, player(b, vec![card(Type::Nine, Some(Color::Red))])),
            (a, player(a, vec![])),
        ],
        b,
        owned(Type::DrawFour, Some(Color::Red), a),
    );
    g.end_turn(b);
    // exactly four cards were forced, not the empty stack
    assert_eq!(g.players.0.iter().find(|p| p.0 == b).unwrap().1.cards.len(), 5);
    assert!(matches!(g.phase, Phase::Active));
}

#[test]
fn forced_draw_uses_stack_when_larger() {
    let a: PlayerId = 1;
    let b: PlayerId = 2;
    let mut g = active_game(
        vec![
            (b, player(b, vec![card(Type::Nine, Some(Color::Red))])),
            (a, player(a, vec![])),
        ],
        b,
        owned(Type::DrawTwo, Some(Color::Red), a),
    );
    g.draw_stack = 6;
    g.end_turn(b);
    assert_eq!(g.players.0.iter().find(|p| p.0 == b).unwrap().1.cards.len(), 7);
}

#[test]
fn reverse_with_two_players_flips_but_keeps_turn() {
    let a: PlayerId = 1;
    let b: PlayerId = 2;
    let mut pa = player(a, vec![card(Type::One, Some(Color::Red))]);
    pa.actions.push(Actions::PlaceCard);
    let mut g = active_game(
        vec![(a, pa), (b, player(b, vec![card(Type::Two, Some(Color::Red))]))],
        a,
        owned(Type::Reverse, Some(Color::Red), a),
    );
    assert!(!g.reversed);
    g.end_turn(a);
    assert!(g.reversed);
    assert_eq!(g.current_turn, Some(a));
    assert!(matches!(g.phase, Phase::Active));
}

#[test]
fn reverse_with_three_players_hands_turn_back() {
    let a: PlayerId = 1;
    let b: PlayerId = 2;
    let c: PlayerId = 3;
    let mut pa = player(a, vec![card(Type::One, Some(Color::Red))]);
    pa.actions.push(Actions::PlaceCard);
    let mut g = active_game(
        vec![
            (a, pa),
            (b, player(b, vec![card(Type::Two, Some(Color::Red))])),
            (c, player(c, vec![card(Type::Three, Some(Color::Red))])),
        ],
        a,
        owned(Type::Reverse, Some(Color::Red), a),
    );
    g.end_turn(a);
    assert!(g.reversed);
    // the extra rotation skips back past the player who would have gone next
    assert_eq!(g.current_turn, Some(b));
}

#[test]
fn win_empties_hand_and_suppresses_turn_updates() {
    let a: PlayerId = 1;
    let b: PlayerId = 2;
    let mut g = active_game(
        vec![
            (a, player(a, vec![card(Type::Five, Some(Color::Blue))])),
            (b, player(b, vec![card(Type::Two, Some(Color::Red))])),
        ],
        a,
        card(Type::Five, Some(Color::Red)),
    );
    g.place_card(0, a);
    let before = g.outbox.len();
    g.end_turn(a);
    assert!(matches!(g.phase, Phase::Ended));
    assert!(g.current_turn.is_none());
    let delta = &g.outbox[before..];
    assert!(delta.iter().all(|e| !matches!(e.1, PacketType::TurnUpdate(_, _))));
    let win = delta
        .iter()
        .find(|e| matches!(e.1, PacketType::WinUpdate(_, _, _, _)))
        .unwrap();
    if let PacketType::WinUpdate(wid, _, standings, _) = &win.1 {
        assert_eq!(*wid, a);
        assert_eq!(standings.len(), 1);
    }
}

#[test]
fn standings_list_losers_by_ascending_hand_size() {
    let a: PlayerId = 1;
    let b: PlayerId = 2;
    let c: PlayerId = 3;
    let mut pa = player(a, vec![card(Type::Five, Some(Color::Blue))]);
    pa.username = "ann".to_string();
    let mut pb = player(b, filler_deck(2));
    pb.username = "bea".to_string();
    let mut pc = player(c, filler_deck(1));
    pc.username = "cal".to_string();
    let mut g = active_game(
        vec![(a, pa), (b, pb), (c, pc)],
        a,
        card(Type::Five, Some(Color::Red)),
    );
    g.place_card(0, a);
    g.end_turn(a);
    let win = g
        .outbox
        .iter()
        .find(|e| matches!(e.1, PacketType::WinUpdate(_, _, _, _)))
        .unwrap();
    if let PacketType::WinUpdate(wid, wname, standings, _) = &win.1 {
        assert_eq!(*wid, a);
        assert_eq!(wname, "ann");
        assert_eq!(standings, &vec!["cal".to_string(), "bea".to_string()]);
    }
}

#[test]
fn switch_color_replaces_wild_top() {
    let a: PlayerId = 1;
    let mut g = active_game(
        vec![
            (a, player(a, vec![])),
            (2, player(2, vec![card(Type::Two, Some(Color::Red))])),
        ],
        a,
        owned(Type::DrawFour, None, a),
    );
    g.switch_color(Color::Green);
    assert_eq!(g.placed_deck.len(), 1);
    assert!(matches!(g.placed_deck[0].kind, Type::DrawFour));
    assert!(matches!(g.placed_deck[0].color, Some(Color::Green)));
    assert_eq!(g.placed_deck[0].owner, Some(a));
}

#[test]
fn switch_color_rejected_on_plain_top() {
    let a: PlayerId = 1;
    let mut g = active_game(
        vec![
            (a, player(a, vec![])),
            (2, player(2, vec![card(Type::Two, Some(Color::Red))])),
        ],
        a,
        card(Type::Five, Some(Color::Red)),
    );
    g.switch_color(Color::Green);
    assert!(matches!(g.placed_deck[0].color, Some(Color::Red)));
    assert!(matches!(g.outbox.last().unwrap().1, PacketType::Error(400, _)));
}

#[test]
fn premature_end_turn_rejected() {
    let a: PlayerId = 1;
    let mut g = active_game(
        vec![
            (a, player(a, vec![card(Type::Five, Some(Color::Red))])),
            (2, player(2, vec![card(Type::Two, Some(Color::Red))])),
        ],
        a,
        card(Type::Five, Some(Color::Red)),
    );
    let hand_before = g.players.0[0].1.cards.len();
    let placed_before = g.placed_deck.len();
    g.end_turn(a);
    assert!(matches!(g.outbox.last().unwrap().1, PacketType::Error(401, _)));
    assert_eq!(g.players.0[0].1.cards.len(), hand_before);
    assert_eq!(g.placed_deck.len(), placed_before);
    assert_eq!(g.current_turn, Some(a));
    assert!(matches!(g.phase, Phase::Active));
}

#[test]
fn leave_during_active_game_aborts() {
    let a: PlayerId = 1;
    let b: PlayerId = 2;
    let mut g = active_game(
        vec![
            (a, player(a, vec![card(Type::Five, Some(Color::Red))])),
            (b, player(b, vec![card(Type::Two, Some(Color::Red))])),
        ],
        a,
        card(Type::Five, Some(Color::Red)),
    );
    g.leave(b);
    assert!(matches!(g.phase, Phase::Ended));
    assert!(g.current_turn.is_none());
    assert_eq!(g.players.0.len(), 1);
    assert!(g
        .outbox
        .iter()
        .all(|e| !matches!(e.1, PacketType::WinUpdate(_, _, _, _))));
}

#[test]
fn html_error_shape() {
    let e = HTMLError::new(401, "It's not your turn");
    assert_eq!(e.kind, "ERROR");
    assert_eq!(e.status_code, 401);
    assert_eq!(e.body, "It's not your turn");
}
