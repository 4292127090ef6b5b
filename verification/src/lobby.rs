//! The room coordinator: it owns one game per room identifier,
//! serializes every mutation against a room, and routes inbound
//! actions to the engine.

use vstd::prelude::*;

use crate::cards::{legal_subset, Card, PlayerId};
use crate::game::{
    appended, end_gate, end_turn_reversed, end_turn_wins, extends, forced_count, forced_draw,
    has_key, hand_of, key_index, keys_of, lemma_extends_index, lemma_extends_trans,
    lemma_key_index, lemma_sum_hands_nonneg, place_accepts,
    place_block_stack, place_draw_stack, player_of, same_except_outbox, top_card, Game, Phase,
    Player,
};
use crate::packets::PacketType;

verus! {

/// Identifier of a room; the transport layer hands UUIDs over as
/// their 128-bit value.
pub type RoomId = u128;

/// One independent game session.
#[derive(Debug)]
pub struct Room {
    pub game: Game,
}

impl Room {
    /// A fresh room around a fresh game.
    pub fn new() -> (r: Room)
        ensures
            r.game.wf(),
            r.game.phase == Phase::Waiting,
            r.game.players.0@.len() == 0,
            r.game.outbox@.len() == 0,
    {
        Room { game: Game::new() }
    }
}

/// The coordinator: the map from room identifiers to their games.
#[derive(Debug)]
pub struct Lobby {
    pub rooms: Vec<(RoomId, Room)>,
}

/// Whether the lobby holds a room under `rid`.
pub open spec fn has_room(l: Lobby, rid: RoomId) -> bool {
    exists|i: int| 0 <= i < l.rooms@.len() && l.rooms@[i].0 == rid
}

/// The position of the room `rid`; meaningful when room identifiers
/// are distinct and the room exists.
pub open spec fn room_index(l: Lobby, rid: RoomId) -> int {
    choose|i: int| 0 <= i < l.rooms@.len() && l.rooms@[i].0 == rid
}

/// The game of the room `rid`.
pub open spec fn game_of(l: Lobby, rid: RoomId) -> Game {
    l.rooms@[room_index(l, rid)].1.game
}

/// Whether `b` differs from `a` in the room `rid` alone.
pub open spec fn room_updated(a: Lobby, b: Lobby, rid: RoomId) -> bool {
    &&& has_room(a, rid)
    &&& has_room(b, rid)
    &&& b.rooms@.len() == a.rooms@.len()
    &&& room_index(b, rid) == room_index(a, rid)
    &&& forall|j: int|
        0 <= j < a.rooms@.len() && j != room_index(a, rid) ==> b.rooms@[j] == a.rooms@[j]
    &&& b.rooms@[room_index(a, rid)].0 == rid
}

/// A rejection: the game is unchanged but for one queued error to
/// `to`, carrying `code`.
pub open spec fn rejected_with(g0: Game, g1: Game, to: PlayerId, code: u64) -> bool {
    &&& same_except_outbox(g1, g0)
    &&& extends(g0.outbox@, g1.outbox@)
    &&& appended(g0.outbox@, g1.outbox@).len() == 1
    &&& appended(g0.outbox@, g1.outbox@)[0].0 == to
    &&& (appended(g0.outbox@, g1.outbox@)[0].1 matches PacketType::Error(c, _) && c == code)
}

/// A rejection followed by further queued events: the game is
/// unchanged but for the queue, whose first new entry is an error to
/// `to`, carrying `code`.
pub open spec fn first_rejected_with(g0: Game, g1: Game, to: PlayerId, code: u64) -> bool {
    &&& same_except_outbox(g1, g0)
    &&& extends(g0.outbox@, g1.outbox@)
    &&& appended(g0.outbox@, g1.outbox@).len() >= 1
    &&& appended(g0.outbox@, g1.outbox@)[0].0 == to
    &&& (appended(g0.outbox@, g1.outbox@)[0].1 matches PacketType::Error(c, _) && c == code)
}

/// The inbound actions that only the player holding the turn may take.
pub open spec fn turn_gated(p: PacketType) -> bool {
    ||| p matches PacketType::DrawCard(_)
    ||| p matches PacketType::PlaceCard(_)
    ||| p matches PacketType::EndTurn
    ||| p matches PacketType::ColorSwitch(_)
}

/// Whether `g` accepts `sender` as the acting player right now.
pub open spec fn is_accepted_actor(g: Game, sender: PlayerId) -> bool {
    g.phase == Phase::Active && g.current_turn == Some(sender)
}

/// An accepted turn action queues only the status updates and then
/// the sender's fresh legal set, never a rejection: `base_g` is the game
/// right after the engine call (with `g0`'s outbox), `told` after the
/// card-status fan-out, `done` after the allowed-cards update.
proof fn lemma_accepted_updates_queued(base_g: Game, moved: Game, told: Game, done: Game, sender: PlayerId)
    requires
        moved.outbox@ == base_g.outbox@,
        moved.players.wf(),
        has_key(moved.players.0@, sender),
        // the card-status fan-out of moved, queued onto base_g's outbox
        extends(moved.outbox@, told.outbox@),
        appended(moved.outbox@, told.outbox@).len() == moved.players.0@.len(),
        forall|k: int|
            0 <= k < appended(moved.outbox@, told.outbox@).len() && keys_of(moved.players.0@)[k]
                == sender ==> ((#[trigger] appended(moved.outbox@, told.outbox@)[k]).1 matches
                PacketType::StatusUpdatePrivate(_, _)),
        forall|k: int|
            0 <= k < appended(moved.outbox@, told.outbox@).len() && keys_of(moved.players.0@)[k]
                != sender ==> ((#[trigger] appended(moved.outbox@, told.outbox@)[k]).1 matches
                PacketType::StatusUpdatePublic(_, _, _, _)),
        // the allowed-cards update of told
        told.players == moved.players,
        told.placed_deck == moved.placed_deck,
        told.current_turn == moved.current_turn,
        told.current_turn == Some(sender),
        extends(told.outbox@, done.outbox@),
        appended(told.outbox@, done.outbox@).len() == 1,
        appended(told.outbox@, done.outbox@)[0].0 == sender,
        (appended(told.outbox@, done.outbox@)[0].1 matches PacketType::AllowedCardsUpdate(h) && h@
            == legal_subset(
            top_card(told),
            hand_of(told, sender),
            told.current_turn.unwrap(),
        )),
        done.players == told.players,
        done.placed_deck == told.placed_deck,
    ensures
        extends(base_g.outbox@, done.outbox@),
        appended(base_g.outbox@, done.outbox@).len() >= 1,
        forall|k: int|
            0 <= k < appended(base_g.outbox@, done.outbox@).len() ==> !((#[trigger] appended(
                base_g.outbox@,
                done.outbox@,
            )[k]).1 matches PacketType::Error(_, _)),
        appended(base_g.outbox@, done.outbox@).last().0 == sender,
        (appended(base_g.outbox@, done.outbox@).last().1 matches PacketType::AllowedCardsUpdate(h) && h@
            == legal_subset(top_card(done), hand_of(done, sender), sender)),
{
    lemma_extends_trans(base_g.outbox@, told.outbox@, done.outbox@);
    let delta = appended(base_g.outbox@, done.outbox@);
    let sd = appended(moved.outbox@, told.outbox@);
    let ad = appended(told.outbox@, done.outbox@);
    assert forall|k: int|
        0 <= k < delta.len() implies !((#[trigger] delta[k]).1 matches PacketType::Error(
        _,
        _,
    )) by {
        let ka = base_g.outbox@.len() + k;
        assert(delta[k] == done.outbox@[ka]);
        if ka < told.outbox@.len() {
            lemma_extends_index(told.outbox@, done.outbox@, ka);
            assert(sd[ka - moved.outbox@.len()] == told.outbox@[ka]);
            let kk = ka - moved.outbox@.len();
            if keys_of(moved.players.0@)[kk] == sender {
                assert(sd[kk].1 matches PacketType::StatusUpdatePrivate(_, _));
            } else {
                assert(sd[kk].1 matches PacketType::StatusUpdatePublic(_, _, _, _));
            }
        } else {
            assert(ad[ka - told.outbox@.len()] == done.outbox@[ka]);
        }
    }
    assert(done.outbox@.len() == told.outbox@.len() + 1);
    assert(delta.last() == done.outbox@[done.outbox@.len() - 1]);
    assert(ad[0] == done.outbox@[told.outbox@.len() as int]);
    assert(top_card(done) == top_card(told));
    assert(hand_of(done, sender) == hand_of(told, sender));
}

pub proof fn lemma_room_index(l: Lobby, rid: RoomId, i: int)
    requires
        l.wf(),
        0 <= i < l.rooms@.len(),
        l.rooms@[i].0 == rid,
    ensures
        room_index(l, rid) == i,
        has_room(l, rid),
{
    assert(has_room(l, rid));
    let k = room_index(l, rid);
    if k != i {
        if k < i {
            assert(l.rooms@[k].0 != l.rooms@[i].0);
        } else {
            assert(l.rooms@[i].0 != l.rooms@[k].0);
        }
    }
}

impl Lobby {
    /// The internal invariant: distinct room identifiers, every game
    /// well-formed.
    pub open spec fn wf(self) -> bool {
        &&& forall|i: int, j: int|
            0 <= i < j < self.rooms@.len() ==> self.rooms@[i].0 != self.rooms@[j].0
        &&& forall|i: int| 0 <= i < self.rooms@.len() ==> (#[trigger] self.rooms@[i]).1.game.wf()
    }

    /// An empty lobby.
    pub fn new() -> (r: Lobby)
        ensures
            r.wf(),
            r.rooms@.len() == 0,
    {
        Lobby { rooms: Vec::new() }
    }

    /// The position of the room `rid`, if it exists.
    fn position_of(&self, rid: RoomId) -> (r: Option<usize>)
        ensures
            match r {
                Some(i) => i < self.rooms@.len() && self.rooms@[i as int].0 == rid && forall|
                    j: int,
                |
                    0 <= j < i ==> self.rooms@[j].0 != rid,
                None => !has_room(*self, rid),
            },
    {
        for i in 0..self.rooms.len()
            invariant
                forall|j: int| 0 <= j < i ==> self.rooms@[j].0 != rid,
        {
            if self.rooms[i].0 == rid {
                return Some(i);
            }
        }
        None
    }

    /// Connects a session to a room, creating the room on first
    /// reference. Joining an already active game, or joining twice,
    /// is rejected with a structured error.
    pub fn connect(&mut self, room_id: RoomId, id: PlayerId)
        requires
            old(self).wf(),
        ensures
            final(self).wf(),
            has_room(*final(self), room_id),
            !has_room(*old(self), room_id) ==> ({
                let g1 = game_of(*final(self), room_id);
                &&& final(self).rooms@.len() == old(self).rooms@.len() + 1
                &&& forall|j: int|
                    0 <= j < old(self).rooms@.len() ==> final(self).rooms@[j] == old(
                        self,
                    ).rooms@[j]
                &&& g1.phase == Phase::Waiting
                &&& g1.players.0@.len() == 1
                &&& g1.players.0@[0].0 == id
                &&& g1.players.0@[0].1.cards@.len() == 0
                &&& !g1.players.0@[0].1.is_connected
                &&& g1.outbox@.len() == 1
                &&& g1.outbox@[0].0 == id
                &&& (g1.outbox@[0].1 matches PacketType::GameData(i, _, _) && i == id)
            }),
            has_room(*old(self), room_id) ==> ({
                let g0 = game_of(*old(self), room_id);
                let g1 = game_of(*final(self), room_id);
                &&& room_updated(*old(self), *final(self), room_id)
                &&& (g0.phase == Phase::Active ==> rejected_with(g0, g1, id, 401))
                &&& (g0.phase != Phase::Active && has_key(g0.players.0@, id) ==> rejected_with(
                    g0,
                    g1,
                    id,
                    400,
                ))
                &&& (g0.phase != Phase::Active && !has_key(g0.players.0@, id) ==> {
                    let delta = appended(g0.outbox@, g1.outbox@);
                    &&& g1.players.0@.len() == g0.players.0@.len() + 1
                    &&& g1.players.0@ == g0.players.0@.push((id, g1.players.0@.last().1))
                    &&& g1.players.0@.last().1.id == id
                    &&& g1.players.0@.last().1.cards@.len() == 0
                    &&& g1.phase == g0.phase
                    &&& extends(g0.outbox@, g1.outbox@)
                    &&& delta.len() == 1
                    &&& delta[0].0 == id
                    &&& (delta[0].1 matches PacketType::GameData(i, _, _) && i == id)
                })
            }),
    {
        let at = match self.position_of(room_id) {
            Some(i) => i,
            None => {
                let room = Room::new();
                let i = self.rooms.len();
                self.rooms.push((room_id, room));
                proof {
                    assert forall|a: int, b: int|
                        0 <= a < b < self.rooms@.len() implies self.rooms@[a].0
                        != self.rooms@[b].0 by {
                        if b < i {
                            assert(self.rooms@[a] == old(self).rooms@[a]);
                            assert(self.rooms@[b] == old(self).rooms@[b]);
                        } else {
                            assert(!has_room(*old(self), room_id));
                            assert(self.rooms@[a] == old(self).rooms@[a]);
                        }
                    }
                }
                i
            },
        };
        proof {
            lemma_room_index(*self, room_id, at as int);
        }
        let (rid, mut room) = self.rooms.remove(at);
        if room.game.phase == Phase::Active {
            // spectating is reserved: joining a running game is refused
            room.game.emit_error(id, 401, "Game you are trying to join has already started");
        } else if room.game.players.contains_key(id) {
            room.game.emit_error(id, 400, "Already connected to this room");
        } else {
            room.game.players.insert(id, Player::new(id));
            // the session is echoed its own identifier, with the roster
            let roster = room.game.players.map_username();
            room.game.emit(
                id,
                PacketType::GameData(id, "connecting...".to_owned(), roster),
            );
            proof {
                let t = room.game.players.0@;
                let s = t.drop_last();
                assert(room.game.players.wf()) by {
                    assert forall|a: int, b: int| 0 <= a < b < t.len() implies t[a].0 != t[b].0
                    by {
                        if b < t.len() - 1 {
                            assert(t[a] == s[a] && t[b] == s[b]);
                        } else {
                            assert(t[a] == s[a]);
                            assert(t[b].0 == id);
                            assert(s[a].0 != id);
                        }
                    }
                    assert forall|a: int| 0 <= a < t.len() implies (#[trigger] t[a]).0
                        == t[a].1.id by {
                        if a < t.len() - 1 {
                            assert(t[a] == s[a]);
                        }
                    }
                }
            }
        }
        self.rooms.insert(at, (rid, room));
        proof {
            assert(final(self).rooms@ =~= (if has_room(*old(self), room_id) {
                old(self).rooms@.update(at as int, (room_id, room))
            } else {
                old(self).rooms@.push((room_id, room))
            }));
            let rs = final(self).rooms@;
            assert forall|a: int, b: int|
                0 <= a < b < rs.len() implies rs[a].0 != rs[b].0 by {}
            lemma_room_index(*final(self), room_id, at as int);
            if has_room(*old(self), room_id) {
                lemma_room_index(*old(self), room_id, at as int);
                let g0 = game_of(*old(self), room_id);
                let g1 = game_of(*final(self), room_id);
                if g0.phase != Phase::Active && !has_key(g0.players.0@, id) {
                    assert(extends(g0.outbox@, g1.outbox@)) by {
                        assert(g1.outbox@.subrange(0, g0.outbox@.len() as int) =~= g0.outbox@);
                    }
                    assert(appended(g0.outbox@, g1.outbox@)[0] == g1.outbox@[g0.outbox@.len()
                        as int]);
                }
            }
        }
    }

    /// Disconnects a session: a member leaving an otherwise empty room
    /// destroys the room; otherwise the remaining players are told and
    /// the member leaves (aborting an active game). Strangers change
    /// nothing.
    pub fn disconnect(&mut self, room_id: RoomId, id: PlayerId)
        requires
            old(self).wf(),
        ensures
            final(self).wf(),
            !has_room(*old(self), room_id) ==> *final(self) == *old(self),
            has_room(*old(self), room_id) && !has_key(
                game_of(*old(self), room_id).players.0@,
                id,
            ) ==> *final(self) == *old(self),
            has_room(*old(self), room_id) && has_key(game_of(*old(self), room_id).players.0@, id)
                && game_of(*old(self), room_id).players.0@.len() == 1 ==> ({
                &&& final(self).rooms@ == old(self).rooms@.remove(room_index(*old(self), room_id))
                &&& !has_room(*final(self), room_id)
            }),
            has_room(*old(self), room_id) && has_key(game_of(*old(self), room_id).players.0@, id)
                && game_of(*old(self), room_id).players.0@.len() > 1 ==> ({
                let g0 = game_of(*old(self), room_id);
                let g1 = game_of(*final(self), room_id);
                let delta = appended(g0.outbox@, g1.outbox@);
                let n = g0.players.0@.len() as int;
                &&& room_updated(*old(self), *final(self), room_id)
                &&& g1.players.0@ == g0.players.0@.remove(key_index(g0.players.0@, id))
                &&& !has_key(g1.players.0@, id)
                &&& (g0.phase == Phase::Active ==> g1.phase == Phase::Ended)
                &&& (g0.phase != Phase::Active ==> g1.phase == g0.phase)
                &&& extends(g0.outbox@, g1.outbox@)
                &&& delta.len() >= n
                &&& forall|k: int|
                    0 <= k < n ==> (#[trigger] delta[k]).0 == keys_of(g0.players.0@)[k] && (
                    delta[k].1 matches PacketType::Disconnect(i, u) && i == id && u == player_of(
                        g0.players.0@,
                        id,
                    ).username)
            }),
    {
        let at = match self.position_of(room_id) {
            Some(i) => i,
            None => {
                return ;
            },
        };
        proof {
            lemma_room_index(*self, room_id, at as int);
        }
        if !self.rooms[at].1.game.players.contains_key(id) {
            return ;
        }
        if self.rooms[at].1.game.players.len() == 1 {
            self.rooms.remove(at);
            proof {
                let s = old(self).rooms@;
                let t = s.remove(at as int);
                assert forall|a: int, b: int| 0 <= a < b < t.len() implies t[a].0 != t[b].0 by {
                    if b < at {
                    } else if a < at {
                        assert(t[b] == s[b + 1]);
                    } else {
                        assert(t[a] == s[a + 1] && t[b] == s[b + 1]);
                    }
                }
                if has_room(*self, room_id) {
                    let k = choose|k: int|
                        0 <= k < t.len() && t[k].0 == room_id;
                    if k < at {
                        assert(s[k].0 != s[at as int].0);
                    } else {
                        assert(s[at as int].0 != s[k + 1].0);
                    }
                }
                assert(!has_room(*self, room_id));
            }
            return ;
        }
        let (rid, mut room) = self.rooms.remove(at);
        let ghost g0 = room.game;
        let si = room.game.players.found_position(id);
        let uname = room.game.players.0[si].1.username.clone();
        proof {
            lemma_key_index(g0.players.0@, id, si as int);
            assert(uname == player_of(g0.players.0@, id).username);
        }
        room.game.broadcast(PacketType::Disconnect(id, uname));
        let ghost mid = room.game;
        room.game.leave(id);
        proof {
            assert(extends(mid.outbox@, room.game.outbox@)) by {
                if mid.phase != Phase::Active {
                    assert(room.game.outbox@.subrange(0, mid.outbox@.len() as int)
                        =~= mid.outbox@);
                }
            }
            lemma_extends_trans(g0.outbox@, mid.outbox@, room.game.outbox@);
            let delta = appended(g0.outbox@, room.game.outbox@);
            let n = g0.players.0@.len() as int;
            assert forall|k: int|
                0 <= k < n implies (#[trigger] delta[k]).0 == keys_of(g0.players.0@)[k] && (
                delta[k].1 matches PacketType::Disconnect(i, u) && i == id && u == player_of(
                    g0.players.0@,
                    id,
                ).username) by {
                let bd = appended(g0.outbox@, mid.outbox@);
                assert(bd[k] == mid.outbox@[g0.outbox@.len() + k]);
                lemma_extends_index(mid.outbox@, room.game.outbox@, g0.outbox@.len() + k);
                assert(delta[k] == room.game.outbox@[g0.outbox@.len() + k]);
            }
            let s = g0.players.0@;
            let t = s.remove(key_index(s, id));
            assert(!has_key(t, id)) by {
                let i = key_index(s, id);
                if has_key(t, id) {
                    let j = choose|j: int| 0 <= j < t.len() && t[j].0 == id;
                    if j < i {
                        assert(s[j].0 == id);
                        lemma_key_index(s, id, j);
                    } else {
                        assert(s[j + 1].0 == id);
                        lemma_key_index(s, id, j + 1);
                    }
                    lemma_key_index(s, id, i);
                }
            }
        }
        self.rooms.insert(at, (rid, room));
        proof {
            assert(final(self).rooms@ =~= old(self).rooms@.update(at as int, (room_id, room)));
            lemma_room_index(*final(self), room_id, at as int);
        }
    }

    /// Routes one inbound action from `sender` to the room's engine,
    /// enforcing that only a known player may act and that turn-bound
    /// actions come from the player who holds the turn.
    pub fn handle(&mut self, room_id: RoomId, sender: PlayerId, action: PacketType)
        requires
            old(self).wf(),
        ensures
            final(self).wf(),
            !has_room(*old(self), room_id) ==> *final(self) == *old(self),
            has_room(*old(self), room_id) && !has_key(
                game_of(*old(self), room_id).players.0@,
                sender,
            ) ==> *final(self) == *old(self),
            has_room(*old(self), room_id) && has_key(
                game_of(*old(self), room_id).players.0@,
                sender,
            ) ==> ({
                let g0 = game_of(*old(self), room_id);
                let g1 = game_of(*final(self), room_id);
                &&& room_updated(*old(self), *final(self), room_id)
                &&& (turn_gated(action) && !is_accepted_actor(g0, sender) ==> rejected_with(
                    g0,
                    g1,
                    sender,
                    401,
                ))
                &&& ((action matches PacketType::Register(_)) && player_of(
                    g0.players.0@,
                    sender,
                ).is_connected ==> rejected_with(g0, g1, sender, 401))
                &&& (action matches PacketType::Register(u) ==> (!player_of(
                    g0.players.0@,
                    sender,
                ).is_connected ==> {
                    &&& player_of(g1.players.0@, sender).is_connected
                    &&& player_of(g1.players.0@, sender).username@ == u@
                    &&& player_of(g1.players.0@, sender).is_host == (g0.players.0@.len() == 1)
                }))
                &&& ((action matches PacketType::StartGame(_)) && !player_of(
                    g0.players.0@,
                    sender,
                ).is_host ==> rejected_with(g0, g1, sender, 401))
                &&& ((action matches PacketType::StartGame(_)) && player_of(
                    g0.players.0@,
                    sender,
                ).is_host && g0.players.0@.len() < 2 ==> rejected_with(g0, g1, sender, 401))
                &&& ((action matches PacketType::StartGame(_)) && player_of(
                    g0.players.0@,
                    sender,
                ).is_host && g0.players.0@.len() >= 2 && g0.phase != Phase::Waiting
                    ==> rejected_with(g0, g1, sender, 401))
                &&& ((action matches PacketType::StartGame(_)) && player_of(
                    g0.players.0@,
                    sender,
                ).is_host && 2 <= g0.players.0@.len() <= 13 && g0.phase == Phase::Waiting ==> {
                    &&& g1.phase == Phase::Active
                    &&& forall|j: int|
                        0 <= j < g0.players.0@.len() ==> hand_of(
                            g1,
                            #[trigger] keys_of(g0.players.0@)[j],
                        ).len() == 8
                })
                &&& (is_accepted_actor(g0, sender) ==> {
                    &&& (action matches PacketType::PlaceCard(i) ==> ({
                        let c = hand_of(g0, sender)[i as int];
                        let delta = appended(g0.outbox@, g1.outbox@);
                        &&& (place_accepts(g0, i as int, sender) ==> {
                            &&& g1.placed_deck@.len() == g0.placed_deck@.len() + 1
                            &&& top_card(g1) == (Card { owner: Some(sender), ..c })
                            &&& hand_of(g1, sender).len() == hand_of(g0, sender).len() - 1
                            &&& g1.draw_stack == place_draw_stack(g0, c)
                            &&& g1.block_stack == place_block_stack(g0, c)
                            &&& extends(g0.outbox@, g1.outbox@)
                            &&& (forall|k: int|
                                0 <= k < delta.len() ==> !((#[trigger] delta[k]).1 matches
                                PacketType::Error(_, _)))
                            &&& delta.len() >= 1
                            &&& delta.last().0 == sender
                            &&& (delta.last().1 matches PacketType::AllowedCardsUpdate(h) && h@
                                == legal_subset(top_card(g1), hand_of(g1, sender), sender))
                        })
                        &&& (!place_accepts(g0, i as int, sender) ==> first_rejected_with(
                            g0,
                            g1,
                            sender,
                            400,
                        ))
                    }))
                    &&& (action matches PacketType::DrawCard(a) ==> ({
                        let delta = appended(g0.outbox@, g1.outbox@);
                        &&& (a as int <= g0.deck@.len() + g0.placed_deck@.len() - 1 ==> {
                            &&& hand_of(g1, sender).len() == hand_of(g0, sender).len() + a
                            &&& extends(g0.outbox@, g1.outbox@)
                            &&& (forall|k: int|
                                0 <= k < delta.len() ==> !((#[trigger] delta[k]).1 matches
                                PacketType::Error(_, _)))
                            &&& delta.len() >= 1
                            &&& delta.last().0 == sender
                            &&& (delta.last().1 matches PacketType::AllowedCardsUpdate(h) && h@
                                == legal_subset(top_card(g1), hand_of(g1, sender), sender))
                        })
                        &&& (a as int > g0.deck@.len() + g0.placed_deck@.len() - 1
                            ==> first_rejected_with(g0, g1, sender, 400))
                    }))
                    &&& ((action matches PacketType::EndTurn) && !end_gate(g0, sender)
                        ==> rejected_with(g0, g1, sender, 401))
                    &&& ((action matches PacketType::EndTurn) && end_gate(g0, sender) && (
                    forced_draw(g0, sender) ==> forced_count(g0) <= g0.deck@.len()
                        + g0.placed_deck@.len() - 1) ==> {
                        &&& g1.phase == (if end_turn_wins(g0, sender) {
                            Phase::Ended
                        } else {
                            Phase::Active
                        })
                        &&& g1.reversed == end_turn_reversed(g0)
                    })
                    &&& (action matches PacketType::ColorSwitch(c) ==> ({
                        &&& (crate::cards::is_wild(top_card(g0).kind) ==> top_card(g1) == (Card {
                            color: Some(c),
                            ..top_card(g0)
                        }))
                        &&& (!crate::cards::is_wild(top_card(g0).kind) ==> first_rejected_with(
                            g0,
                            g1,
                            sender,
                            400,
                        ))
                    }))
                })
            }),
    {
        let at = match self.position_of(room_id) {
            Some(i) => i,
            None => {
                return ;
            },
        };
        proof {
            lemma_room_index(*self, room_id, at as int);
        }
        if !self.rooms[at].1.game.players.contains_key(sender) {
            return ;
        }
        let ghost a0 = action;
        let (rid, mut room) = self.rooms.remove(at);
        let ghost g0 = room.game;
        match action {
            PacketType::Register(username) => {
                if room.game.get_player(sender).is_connected {
                    room.game.emit_error(sender, 401, "Instance already exists");
                } else {
                    room.game.init_player(sender, username.as_str());
                    room.game.broadcast_ignore_self(
                        sender,
                        PacketType::Connect(sender, username.clone()),
                    );
                    let roster = room.game.players.map_username();
                    room.game.emit(sender, PacketType::GameData(sender, username, roster));
                    proof {
                        let s0 = g0.players.0@;
                        let i = key_index(s0, sender);
                        assert(0 <= i < s0.len() && s0[i].0 == sender);
                        lemma_key_index(room.game.players.0@, sender, i);
                    }
                }
            },
            PacketType::Message(s, c) => {
                room.game.broadcast(PacketType::Message(s, c));
            },
            PacketType::StartGame(_options) => {
                if !room.game.get_player(sender).is_host {
                    room.game.emit_error(sender, 401, "You cannot start the game");
                } else if room.game.players.len() < 2 {
                    room.game.emit_error(sender, 401, "Cannot start the game alone");
                } else if !(match room.game.phase {
                    Phase::Waiting => true,
                    _ => false,
                }) {
                    room.game.emit_error(sender, 401, "The game has already started");
                } else {
                    room.game.start();
                }
            },
            PacketType::DrawCard(amount) => {
                if self_turn(&room.game, sender) {
                    proof {
                        lemma_sum_hands_nonneg(room.game.players.0@);
                    }
                    room.game.draw_cards(amount as usize, sender);
                    proof {
                        let s0 = g0.players.0@;
                        let i = key_index(s0, sender);
                        assert(0 <= i < s0.len() && s0[i].0 == sender);
                        if amount as int <= g0.deck@.len() + g0.placed_deck@.len() - 1 {
                            lemma_key_index(room.game.players.0@, sender, i);
                        }
                    }
                    let ghost m1 = room.game;
                    room.game.update_card_status(sender);
                    let ghost m2 = room.game;
                    room.game.update_allowed_status(sender);
                    proof {
                        assert(extends(g0.outbox@, m1.outbox@)) by {
                            assert(m1.outbox@.subrange(0, g0.outbox@.len() as int)
                                =~= g0.outbox@);
                        }
                        lemma_extends_trans(g0.outbox@, m1.outbox@, m2.outbox@);
                        lemma_extends_trans(g0.outbox@, m2.outbox@, room.game.outbox@);
                        if amount as int > g0.deck@.len() + g0.placed_deck@.len() - 1 {
                            lemma_extends_index(m1.outbox@, m2.outbox@, g0.outbox@.len() as int);
                            lemma_extends_index(
                                m2.outbox@,
                                room.game.outbox@,
                                g0.outbox@.len() as int,
                            );
                        } else {
                            lemma_accepted_updates_queued(g0, m1, m2, room.game, sender);
                        }
                    }
                } else {
                    room.game.emit_error(sender, 401, "It's not your turn");
                }
            },
            PacketType::PlaceCard(index) => {
                if self_turn(&room.game, sender) {
                    room.game.place_card(index, sender);
                    proof {
                        let s0 = g0.players.0@;
                        let i = key_index(s0, sender);
                        assert(0 <= i < s0.len() && s0[i].0 == sender);
                        if place_accepts(g0, index as int, sender) {
                            lemma_key_index(room.game.players.0@, sender, i);
                            assert(room.game.placed_deck@ == g0.placed_deck@.insert(
                                0,
                                (Card {
                                    owner: Some(sender),
                                    ..hand_of(g0, sender)[index as int]
                                }),
                            ));
                        }
                    }
                    let ghost m1 = room.game;
                    room.game.update_card_status(sender);
                    let ghost m2 = room.game;
                    room.game.update_allowed_status(sender);
                    proof {
                        assert(extends(g0.outbox@, m1.outbox@)) by {
                            assert(m1.outbox@.subrange(0, g0.outbox@.len() as int)
                                =~= g0.outbox@);
                        }
                        lemma_extends_trans(g0.outbox@, m1.outbox@, m2.outbox@);
                        lemma_extends_trans(g0.outbox@, m2.outbox@, room.game.outbox@);
                        if !place_accepts(g0, index as int, sender) {
                            lemma_extends_index(m1.outbox@, m2.outbox@, g0.outbox@.len() as int);
                            lemma_extends_index(
                                m2.outbox@,
                                room.game.outbox@,
                                g0.outbox@.len() as int,
                            );
                        } else {
                            lemma_accepted_updates_queued(g0, m1, m2, room.game, sender);
                        }
                    }
                } else {
                    room.game.emit_error(sender, 401, "It's not your turn");
                }
            },
            PacketType::EndTurn => {
                if self_turn(&room.game, sender) {
                    room.game.end_turn(sender);
                } else {
                    room.game.emit_error(sender, 401, "It's not your turn");
                }
            },
            PacketType::ColorSwitch(color) => {
                if self_turn(&room.game, sender) {
                    room.game.switch_color(color);
                    let ghost m1 = room.game;
                    room.game.update_card_status(sender);
                    let ghost m2 = room.game;
                    room.game.update_allowed_status(sender);
                    proof {
                        assert(extends(g0.outbox@, m1.outbox@)) by {
                            assert(m1.outbox@.subrange(0, g0.outbox@.len() as int)
                                =~= g0.outbox@);
                        }
                        lemma_extends_trans(g0.outbox@, m1.outbox@, m2.outbox@);
                        lemma_extends_trans(g0.outbox@, m2.outbox@, room.game.outbox@);
                        if !crate::cards::is_wild(top_card(g0).kind) {
                            lemma_extends_index(m1.outbox@, m2.outbox@, g0.outbox@.len() as int);
                            lemma_extends_index(
                                m2.outbox@,
                                room.game.outbox@,
                                g0.outbox@.len() as int,
                            );
                        }
                    }
                } else {
                    room.game.emit_error(sender, 401, "It's not your turn");
                }
            },
            _ => {
                // the remaining packets only ever travel to clients
            },
        }
        self.rooms.insert(at, (rid, room));
        proof {
            assert(final(self).rooms@ =~= old(self).rooms@.update(at as int, (room_id, room)));
            lemma_room_index(*final(self), room_id, at as int);
            let g1 = room.game;
            assert(game_of(*old(self), room_id) == g0);
            assert(game_of(*final(self), room_id) == g1);
            assert(room_updated(*old(self), *final(self), room_id));
            assert(turn_gated(a0) && !is_accepted_actor(g0, sender) ==> rejected_with(
                g0,
                g1,
                sender,
                401,
            ));
            assert((a0 matches PacketType::Register(_)) && player_of(
                g0.players.0@,
                sender,
            ).is_connected ==> rejected_with(g0, g1, sender, 401));
            assert(a0 matches PacketType::Register(u) ==> (!player_of(
                g0.players.0@,
                sender,
            ).is_connected ==> {
                &&& player_of(g1.players.0@, sender).is_connected
                &&& player_of(g1.players.0@, sender).username@ == u@
                &&& player_of(g1.players.0@, sender).is_host == (g0.players.0@.len() == 1)
            }));
            assert((a0 matches PacketType::StartGame(_)) && !player_of(
                g0.players.0@,
                sender,
            ).is_host ==> rejected_with(g0, g1, sender, 401));
            assert((a0 matches PacketType::StartGame(_)) && player_of(
                g0.players.0@,
                sender,
            ).is_host && g0.players.0@.len() < 2 ==> rejected_with(g0, g1, sender, 401));
            assert((a0 matches PacketType::StartGame(_)) && player_of(
                g0.players.0@,
                sender,
            ).is_host && g0.players.0@.len() >= 2 && g0.phase != Phase::Waiting ==> rejected_with(
                g0,
                g1,
                sender,
                401,
            ));
            assert((a0 matches PacketType::StartGame(_)) && player_of(
                g0.players.0@,
                sender,
            ).is_host && 2 <= g0.players.0@.len() <= 13 && g0.phase == Phase::Waiting ==> {
                &&& g1.phase == Phase::Active
                &&& forall|j: int|
                    0 <= j < g0.players.0@.len() ==> hand_of(
                        g1,
                        #[trigger] keys_of(g0.players.0@)[j],
                    ).len() == 8
            });
            if is_accepted_actor(g0, sender) {
                assert(a0 matches PacketType::PlaceCard(i) ==> ({
                    let c = hand_of(g0, sender)[i as int];
                    &&& (place_accepts(g0, i as int, sender) ==> {
                        &&& g1.placed_deck@.len() == g0.placed_deck@.len() + 1
                        &&& top_card(g1) == (Card { owner: Some(sender), ..c })
                        &&& hand_of(g1, sender).len() == hand_of(g0, sender).len() - 1
                        &&& g1.draw_stack == place_draw_stack(g0, c)
                        &&& g1.block_stack == place_block_stack(g0, c)
                    })
                    &&& (!place_accepts(g0, i as int, sender) ==> first_rejected_with(
                        g0,
                        g1,
                        sender,
                        400,
                    ))
                }));
                assert(a0 matches PacketType::DrawCard(a) ==> ({
                    &&& (a as int <= g0.deck@.len() + g0.placed_deck@.len() - 1 ==> hand_of(
                        g1,
                        sender,
                    ).len() == hand_of(g0, sender).len() + a)
                    &&& (a as int > g0.deck@.len() + g0.placed_deck@.len() - 1
                        ==> first_rejected_with(g0, g1, sender, 400))
                }));
                assert((a0 matches PacketType::EndTurn) && !end_gate(g0, sender)
                    ==> rejected_with(g0, g1, sender, 401));
                assert((a0 matches PacketType::EndTurn) && end_gate(g0, sender) && (forced_draw(
                    g0,
                    sender,
                ) ==> forced_count(g0) <= g0.deck@.len() + g0.placed_deck@.len() - 1) ==> {
                    &&& g1.phase == (if end_turn_wins(g0, sender) {
                        Phase::Ended
                    } else {
                        Phase::Active
                    })
                    &&& g1.reversed == end_turn_reversed(g0)
                });
                assert(a0 matches PacketType::ColorSwitch(c) ==> ({
                    &&& (crate::cards::is_wild(top_card(g0).kind) ==> top_card(g1) == (Card {
                        color: Some(c),
                        ..top_card(g0)
                    }))
                    &&& (!crate::cards::is_wild(top_card(g0).kind) ==> first_rejected_with(
                        g0,
                        g1,
                        sender,
                        400,
                    ))
                }));
            }
        }
    }

    /// Hands over the queued outbound events of the room `rid`.
    pub fn take_outbox(&mut self, room_id: RoomId) -> (r: Vec<(PlayerId, PacketType)>)
        requires
            old(self).wf(),
        ensures
            final(self).wf(),
            !has_room(*old(self), room_id) ==> *final(self) == *old(self) && r@.len() == 0,
            has_room(*old(self), room_id) ==> ({
                let g0 = game_of(*old(self), room_id);
                let g1 = game_of(*final(self), room_id);
                &&& room_updated(*old(self), *final(self), room_id)
                &&& r@ == g0.outbox@
                &&& g1 == (Game { outbox: g1.outbox, ..g0 })
                &&& g1.outbox@.len() == 0
            }),
    {
        let at = match self.position_of(room_id) {
            Some(i) => i,
            None => {
                return Vec::new();
            },
        };
        proof {
            lemma_room_index(*self, room_id, at as int);
        }
        let (rid, mut room) = self.rooms.remove(at);
        let out = room.game.take_outbox();
        self.rooms.insert(at, (rid, room));
        proof {
            assert(final(self).rooms@ =~= old(self).rooms@.update(at as int, (room_id, room)));
            lemma_room_index(*final(self), room_id, at as int);
        }
        out
    }
}

/// Whether the sender currently holds the turn of an active game.
fn self_turn(g: &Game, sender: PlayerId) -> (r: bool)
    ensures
        r == is_accepted_actor(*g, sender),
{
    match g.phase {
        Phase::Active => match g.current_turn {
            Some(c) => c == sender,
            None => false,
        },
        _ => false,
    }
}

} // verus!
