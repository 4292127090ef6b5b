use uno_server::cards::{Card, Color, PlayerId, Type};
use uno_server::game::Phase;
use uno_server::lobby::{Lobby, RoomId};
use uno_server::packets::PacketType;

const ROOM: RoomId = 42;
const A: PlayerId = 11;
const B: PlayerId = 22;

fn card(kind: Type, color: Option<Color>) -> Card {
    Card::new(kind, color)
}

fn register(lobby: &mut Lobby, who: PlayerId, name: &str) {
    lobby.handle(ROOM, who, PacketType::Register(name.to_string()));
}

/// A fixed deck: a number start card, eight cards for each of two
/// players (the second player's first card matches the start card's
/// color), and filler up to the full deck size.
fn rigged_deck() -> Vec<Card> {
    let mut deck = vec![card(Type::Five, Some(Color::Red))];
    for _ in 0..8 {
        deck.push(card(Type::Nine, Some(Color::Green)));
    }
    deck.push(card(Type::Three, Some(Color::Red)));
    for _ in 0..7 {
        deck.push(card(Type::Seven, Some(Color::Blue)));
    }
    while deck.len() < 108 {
        deck.push(card(Type::One, Some(Color::Yellow)));
    }
    deck
}

#[test]
fn connection_works() {
    let mut lobby = Lobby::new();
    lobby.connect(ROOM, A);
    assert_eq!(lobby.rooms.len(), 1);
    assert_eq!(lobby.rooms[0].0, ROOM);
    assert_eq!(lobby.rooms[0].1.game.players.len(), 1);
    let out = lobby.take_outbox(ROOM);
    // the session is echoed its own identifier
    assert!(out
        .iter()
        .any(|e| e.0 == A && matches!(&e.1, PacketType::GameData(id, _, _) if *id == A)));
}

#[test]
fn game_start() {
    let mut lobby = Lobby::new();
    lobby.connect(ROOM, A);
    register(&mut lobby, A, "test_1");
    lobby.connect(ROOM, B);
    register(&mut lobby, B, "test_2");
    lobby.take_outbox(ROOM);

    // a second registration and an unauthorized start are both refused
    register(&mut lobby, B, "test_2");
    lobby.handle(ROOM, B, PacketType::StartGame("None".to_string()));
    let out = lobby.take_outbox(ROOM);
    assert!(
        out.iter()
            .filter(|e| e.0 == B)
            .filter(|e| matches!(e.1, PacketType::Error(_, _)))
            .count()
            >= 2
    );

    // the host may start; nobody is sent an error
    lobby.handle(ROOM, A, PacketType::StartGame("None".to_string()));
    let out = lobby.take_outbox(ROOM);
    assert!(out.iter().all(|e| !matches!(e.1, PacketType::Error(_, _))));
    for who in [A, B] {
        let got = out.iter().any(|e| {
            e.0 == who
                && match &e.1 {
                    PacketType::StatusUpdatePrivate(hand, _) => hand.len() == 8,
                    _ => false,
                }
        });
        assert!(got, "Failed to receive your initial cards");
    }
    assert!(out.iter().any(|e| matches!(e.1, PacketType::TurnUpdate(_, _))));
    assert!(matches!(lobby.rooms[0].1.game.phase, Phase::Active));
}

#[test]
fn starting_alone_is_refused() {
    let mut lobby = Lobby::new();
    lobby.connect(ROOM, A);
    register(&mut lobby, A, "solo");
    lobby.take_outbox(ROOM);
    lobby.handle(ROOM, A, PacketType::StartGame("None".to_string()));
    let out = lobby.take_outbox(ROOM);
    assert!(out
        .iter()
        .any(|e| e.0 == A && matches!(e.1, PacketType::Error(401, _))));
    assert!(matches!(lobby.rooms[0].1.game.phase, Phase::Waiting));
}

#[test]
fn end_to_end_scenario() {
    let mut lobby = Lobby::new();
    lobby.connect(ROOM, A);
    register(&mut lobby, A, "alice");
    lobby.connect(ROOM, B);
    register(&mut lobby, B, "bob");
    lobby.rooms[0].1.game.deck = rigged_deck();
    lobby.take_outbox(ROOM);

    lobby.handle(ROOM, A, PacketType::StartGame("None".to_string()));
    let out = lobby.take_outbox(ROOM);
    // both hands were dealt privately
    for who in [A, B] {
        assert!(out.iter().any(|e| {
            e.0 == who
                && match &e.1 {
                    PacketType::StatusUpdatePrivate(hand, top) => {
                        hand.len() == 8 && matches!(top.kind, Type::Five)
                    }
                    _ => false,
                }
        }));
    }
    // the first turn goes to the last player in the rotation
    let game = &lobby.rooms[0].1.game;
    assert_eq!(game.current_turn, Some(B));
    assert!(out.iter().any(|e| matches!(e.1, PacketType::TurnUpdate(B, _))));

    // conservation: piles and hands still hold the full deck
    let total: usize = game.deck.len()
        + game.placed_deck.len()
        + game.players.0.iter().map(|p| p.1.cards.len()).sum::<usize>();
    assert_eq!(total, 108);

    // the player out of turn is rejected with a 401
    lobby.handle(ROOM, A, PacketType::DrawCard(1));
    let out = lobby.take_outbox(ROOM);
    assert!(out
        .iter()
        .any(|e| e.0 == A && matches!(e.1, PacketType::Error(401, _))));

    // the turn player places a legal card and gets a fresh legal set
    lobby.handle(ROOM, B, PacketType::PlaceCard(0));
    let out = lobby.take_outbox(ROOM);
    assert!(out.iter().all(|e| !matches!(e.1, PacketType::Error(_, _))));
    assert!(out.iter().any(|e| {
        e.0 == B && matches!(e.1, PacketType::AllowedCardsUpdate(_))
    }));
    let game = &lobby.rooms[0].1.game;
    assert!(matches!(game.placed_deck[0].kind, Type::Three));
    assert_eq!(game.placed_deck[0].owner, Some(B));
}

#[test]
fn joining_active_room_is_refused() {
    let mut lobby = Lobby::new();
    lobby.connect(ROOM, A);
    register(&mut lobby, A, "alice");
    lobby.connect(ROOM, B);
    register(&mut lobby, B, "bob");
    lobby.handle(ROOM, A, PacketType::StartGame("None".to_string()));
    lobby.take_outbox(ROOM);
    lobby.connect(ROOM, 33);
    let out = lobby.take_outbox(ROOM);
    assert!(out
        .iter()
        .any(|e| e.0 == 33 && matches!(e.1, PacketType::Error(401, _))));
    assert_eq!(lobby.rooms[0].1.game.players.len(), 2);
}

#[test]
fn stranger_actions_are_ignored() {
    let mut lobby = Lobby::new();
    lobby.connect(ROOM, A);
    register(&mut lobby, A, "alice");
    lobby.take_outbox(ROOM);
    lobby.handle(ROOM, 99, PacketType::EndTurn);
    assert!(lobby.take_outbox(ROOM).is_empty());
    lobby.handle(77, A, PacketType::EndTurn);
    assert_eq!(lobby.rooms.len(), 1);
}

#[test]
fn disconnect_last_member_destroys_room() {
    let mut lobby = Lobby::new();
    lobby.connect(ROOM, A);
    lobby.disconnect(ROOM, A);
    assert!(lobby.rooms.is_empty());
}

#[test]
fn disconnect_member_aborts_active_game() {
    let mut lobby = Lobby::new();
    lobby.connect(ROOM, A);
    register(&mut lobby, A, "alice");
    lobby.connect(ROOM, B);
    register(&mut lobby, B, "bob");
    lobby.handle(ROOM, A, PacketType::StartGame("None".to_string()));
    lobby.take_outbox(ROOM);
    lobby.disconnect(ROOM, B);
    let out = lobby.take_outbox(ROOM);
    assert!(out
        .iter()
        .any(|e| matches!(&e.1, PacketType::Disconnect(id, _) if *id == B)));
    let game = &lobby.rooms[0].1.game;
    assert!(matches!(game.phase, Phase::Ended));
    assert_eq!(game.players.len(), 1);
}

#[test]
fn message_is_broadcast_to_all_players() {
    let mut lobby = Lobby::new();
    lobby.connect(ROOM, A);
    register(&mut lobby, A, "alice");
    lobby.connect(ROOM, B);
    register(&mut lobby, B, "bob");
    lobby.take_outbox(ROOM);
    lobby.handle(
        ROOM,
        A,
        PacketType::Message("alice".to_string(), "hello".to_string()),
    );
    let out = lobby.take_outbox(ROOM);
    for who in [A, B] {
        assert!(out.iter().any(|e| {
            e.0 == who
                && matches!(&e.1, PacketType::Message(s, c) if s == "alice" && c == "hello")
        }));
    }
}

#[test]
fn color_switch_through_the_coordinator() {
    let mut lobby = Lobby::new();
    lobby.connect(ROOM, A);
    register(&mut lobby, A, "alice");
    lobby.connect(ROOM, B);
    register(&mut lobby, B, "bob");
    lobby.rooms[0].1.game.deck = rigged_deck();
    lobby.handle(ROOM, A, PacketType::StartGame("None".to_string()));
    lobby.take_outbox(ROOM);
    // force a wild card on top, then let the turn player resolve it
    lobby.rooms[0].1.game.placed_deck[0] = Card::new(Type::Switch, None);
    lobby.handle(ROOM, B, PacketType::ColorSwitch(Color::Blue));
    let game = &lobby.rooms[0].1.game;
    assert!(matches!(game.placed_deck[0].color, Some(Color::Blue)));
    assert!(matches!(game.placed_deck[0].kind, Type::Switch));
}
