//! The game engine: players, the rotation, statistics, and the
//! turn state machine.

use vstd::multiset::Multiset;
use vstd::prelude::*;
use vstd::string::StringExecFns;

use crate::cards::{
    card_allowed, card_is_allowed, color_label, draw_base, draw_from, first_number_index,
    has_number_card, is_draw_kind, is_number, is_wild, kind_is_draw, kind_is_wild, legal_subset,
    opt_id_eq, Card, Color, PlayerId, Type, DECK_SIZE,
};
use crate::packets::{copy_cards, pkt_eq, PacketType};

verus! {

/// Relies on `std::time::SystemTime::now`: the wall clock, converted to
/// whole milliseconds since the Unix epoch (zero if the clock is set
/// before it).
#[verifier::external_body]
fn now_millis() -> u64 {
    match std::time::SystemTime::now().duration_since(std::time::UNIX_EPOCH) {
        Ok(d) => d.as_millis() as u64,
        Err(_) => 0,
    }
}

/// Relies on `uuid::Uuid::new_v4`: a freshly generated random
/// identifier, handed over as its 128-bit value.
#[verifier::external_body]
fn fresh_id() -> PlayerId {
    uuid::Uuid::new_v4().as_u128()
}

/// Write-only counters around one game, read at game end.
#[derive(Debug, Clone, Copy)]
pub struct GameStatistics {
    pub start_time: Option<u64>,
    pub end_time: Option<u64>,
    pub player_count: usize,
    pub spectator_count: usize,
    pub cards_placed: usize,
    pub cards_drawn: usize,
}

impl GameStatistics {
    /// Counters of a game that has not started.
    pub fn new() -> (r: GameStatistics)
        ensures
            r == (GameStatistics {
                start_time: None::<u64>,
                end_time: None::<u64>,
                player_count: 0usize,
                spectator_count: 0usize,
                cards_placed: 0usize,
                cards_drawn: 0usize,
            }),
    {
        GameStatistics {
            start_time: None,
            end_time: None,
            player_count: 0,
            spectator_count: 0,
            cards_placed: 0,
            cards_drawn: 0,
        }
    }

    /// Stamps the start of the game with the current time.
    pub fn game_started(&mut self)
        ensures
            final(self).start_time.is_some(),
            *final(self) == (GameStatistics {
                start_time: final(self).start_time,
                ..*old(self)
            }),
    {
        self.start_time = Some(now_millis());
    }

    /// Stamps the end of the game with the current time.
    pub fn game_ended(&mut self)
        ensures
            final(self).end_time.is_some(),
            *final(self) == (GameStatistics { end_time: final(self).end_time, ..*old(self) }),
    {
        self.end_time = Some(now_millis());
    }

    /// Counts one placed card; the counter sticks at its maximum.
    pub fn card_placed(&mut self)
        ensures
            *final(self) == (GameStatistics {
                cards_placed: bumped_counter(old(self).cards_placed),
                ..*old(self)
            }),
    {
        if self.cards_placed < usize::MAX {
            self.cards_placed = self.cards_placed + 1;
        }
    }

    /// Counts one drawn card; the counter sticks at its maximum.
    pub fn card_drawn(&mut self)
        ensures
            *final(self) == (GameStatistics {
                cards_drawn: bumped_counter(old(self).cards_drawn),
                ..*old(self)
            }),
    {
        if self.cards_drawn < usize::MAX {
            self.cards_drawn = self.cards_drawn + 1;
        }
    }
}

impl Default for GameStatistics {
    /// The counters of a game that has not started.
    fn default() -> (r: GameStatistics)
        ensures
            r == (GameStatistics {
                start_time: None::<u64>,
                end_time: None::<u64>,
                player_count: 0usize,
                spectator_count: 0usize,
                cards_placed: 0usize,
                cards_drawn: 0usize,
            }),
    {
        GameStatistics::new()
    }
}

/// A counter stepped by one, sticking at the maximum machine value.
pub open spec fn bumped_counter(c: usize) -> usize {
    if c < usize::MAX {
        (c + 1) as usize
    } else {
        c
    }
}

/// The events a player performed since their turn began.
#[derive(Debug, Clone, Copy, PartialEq, Eq, Structural)]
pub enum Actions {
    DrawCard,
    PlaceCard,
}

/// A participant of a room: identity, connection state, hand, and the
/// actions taken this turn.
#[derive(Debug)]
pub struct Player {
    pub id: PlayerId,
    pub username: String,
    pub is_connected: bool,
    pub is_host: bool,
    pub cards: Vec<Card>,
    pub waiting: bool,
    pub actions: Vec<Actions>,
}

/// How many entries of `s` equal `a`.
pub open spec fn count_actions(s: Seq<Actions>, a: Actions) -> int
    decreases s.len(),
{
    if s.len() == 0 {
        0
    } else {
        (if s[0] == a {
            1int
        } else {
            0int
        }) + count_actions(s.drop_first(), a)
    }
}

proof fn lemma_count_actions_push(s: Seq<Actions>, a: Actions, x: Actions)
    ensures
        count_actions(s.push(x), a) == count_actions(s, a) + if x == a {
            1int
        } else {
            0int
        },
    decreases s.len(),
{
    if s.len() == 0 {
        assert(s.push(x).drop_first() =~= s);
    } else {
        assert(s.push(x).drop_first() =~= s.drop_first().push(x));
        lemma_count_actions_push(s.drop_first(), a, x);
    }
}

/// Whether the player may end their turn on their own: at least one
/// placed card, or at least three drawn cards, this turn.
pub open spec fn spec_can_end(p: Player) -> bool {
    count_actions(p.actions@, Actions::PlaceCard) >= 1 || count_actions(
        p.actions@,
        Actions::DrawCard,
    ) >= 3
}

/// Equality of two players up to the identity of their heap parts:
/// scalar and string fields equal, vector fields equal element-wise.
pub open spec fn player_matches(a: Player, b: Player) -> bool {
    &&& a.id == b.id
    &&& a.username == b.username
    &&& a.is_connected == b.is_connected
    &&& a.is_host == b.is_host
    &&& a.cards@ == b.cards@
    &&& a.waiting == b.waiting
    &&& a.actions@ == b.actions@
}

impl Player {
    /// A freshly connected, unnamed player with an empty hand.
    pub fn new(id: PlayerId) -> (r: Player)
        ensures
            r.id == id,
            r.username@ == "connecting..."@,
            !r.is_connected,
            !r.is_host,
            r.cards@ == Seq::<Card>::empty(),
            !r.waiting,
            r.actions@ == Seq::<Actions>::empty(),
    {
        Player {
            id,
            username: "connecting...".to_owned(),
            is_connected: false,
            is_host: false,
            cards: Vec::new(),
            waiting: false,
            actions: Vec::new(),
        }
    }

    /// A copy matching the player.
    pub fn dup(&self) -> (r: Player)
        ensures
            player_matches(r, *self),
    {
        let mut actions: Vec<Actions> = Vec::new();
        for i in 0..self.actions.len()
            invariant
                actions@ == self.actions@.subrange(0, i as int),
        {
            actions.push(self.actions[i]);
            assert(actions@ =~= self.actions@.subrange(0, i + 1 as int));
        }
        assert(self.actions@.subrange(0, self.actions@.len() as int) =~= self.actions@);
        Player {
            id: self.id,
            username: self.username.clone(),
            is_connected: self.is_connected,
            is_host: self.is_host,
            cards: copy_cards(&self.cards),
            waiting: self.waiting,
            actions,
        }
    }

    /// Whether the player may end their turn on their own, mirroring
    /// [`spec_can_end`].
    pub fn can_end(&self) -> (r: bool)
        ensures
            r == spec_can_end(*self),
    {
        let mut placed: usize = 0;
        let mut drawn: usize = 0;
        for i in 0..self.actions.len()
            invariant
                placed == count_actions(self.actions@.subrange(0, i as int), Actions::PlaceCard),
                drawn == count_actions(self.actions@.subrange(0, i as int), Actions::DrawCard),
                placed <= i,
                drawn <= i,
        {
            proof {
                lemma_count_actions_push(
                    self.actions@.subrange(0, i as int),
                    Actions::PlaceCard,
                    self.actions@[i as int],
                );
                lemma_count_actions_push(
                    self.actions@.subrange(0, i as int),
                    Actions::DrawCard,
                    self.actions@[i as int],
                );
                assert(self.actions@.subrange(0, i + 1 as int) =~= self.actions@.subrange(
                    0,
                    i as int,
                ).push(self.actions@[i as int]));
            }
            match self.actions[i] {
                Actions::PlaceCard => {
                    placed = placed + 1;
                },
                Actions::DrawCard => {
                    drawn = drawn + 1;
                },
            }
        }
        assert(self.actions@.subrange(0, self.actions@.len() as int) =~= self.actions@);
        placed >= 1 || drawn >= 3
    }
}

/// The identifiers of a rotation, in order.
pub open spec fn keys_of(s: Seq<(PlayerId, Player)>) -> Seq<PlayerId> {
    s.map_values(|p: (PlayerId, Player)| p.0)
}

/// Whether some pair of `s` carries the key `id`.
pub open spec fn has_key(s: Seq<(PlayerId, Player)>, id: PlayerId) -> bool {
    exists|i: int| 0 <= i < s.len() && s[i].0 == id
}

/// The position of the key `id` in `s`; meaningful when the keys of
/// `s` are distinct and `id` occurs.
pub open spec fn key_index(s: Seq<(PlayerId, Player)>, id: PlayerId) -> int {
    choose|i: int| 0 <= i < s.len() && s[i].0 == id
}

/// The player stored under `id`.
pub open spec fn player_of(s: Seq<(PlayerId, Player)>, id: PlayerId) -> Player {
    s[key_index(s, id)].1
}

/// Well-formed pairing: distinct keys, each equal to its player's id.
pub open spec fn pairs_wf(s: Seq<(PlayerId, Player)>) -> bool {
    &&& forall|i: int, j: int| 0 <= i < j < s.len() ==> s[i].0 != s[j].0
    &&& forall|i: int| 0 <= i < s.len() ==> (#[trigger] s[i]).0 == s[i].1.id
}

pub proof fn lemma_key_index(s: Seq<(PlayerId, Player)>, id: PlayerId, i: int)
    requires
        pairs_wf(s),
        0 <= i < s.len(),
        s[i].0 == id,
    ensures
        key_index(s, id) == i,
        has_key(s, id),
{
    assert(has_key(s, id));
    let k = key_index(s, id);
    if k != i {
        assert(s[k].0 == id);
        if k < i {
            assert(s[k].0 != s[i].0);
        } else {
            assert(s[i].0 != s[k].0);
        }
    }
}

/// The total number of cards held across all hands of `s`.
pub open spec fn sum_hands(s: Seq<(PlayerId, Player)>) -> int
    decreases s.len(),
{
    if s.len() == 0 {
        0
    } else {
        s[0].1.cards@.len() + sum_hands(s.drop_first())
    }
}

pub proof fn lemma_sum_hands_push(s: Seq<(PlayerId, Player)>, p: (PlayerId, Player))
    ensures
        sum_hands(s.push(p)) == sum_hands(s) + p.1.cards@.len(),
    decreases s.len(),
{
    if s.len() == 0 {
        assert(s.push(p).drop_first() =~= s);
    } else {
        assert(s.push(p).drop_first() =~= s.drop_first().push(p));
        lemma_sum_hands_push(s.drop_first(), p);
    }
}

pub proof fn lemma_sum_hands_update(s: Seq<(PlayerId, Player)>, i: int, p: (PlayerId, Player))
    requires
        0 <= i < s.len(),
    ensures
        sum_hands(s.update(i, p)) == sum_hands(s) - s[i].1.cards@.len() + p.1.cards@.len(),
    decreases s.len(),
{
    if i == 0 {
        assert(s.update(0, p).drop_first() =~= s.drop_first());
        assert(s.update(0, p)[0] == p);
    } else {
        assert(s.update(i, p).drop_first() =~= s.drop_first().update(i - 1, p));
        assert(s.update(i, p)[0] == s[0]);
        lemma_sum_hands_update(s.drop_first(), i - 1, p);
    }
}

/// One rotation step of a sequence of identifiers: forward moves the
/// tail to the head, reverse moves the head to the tail.
pub open spec fn rot_ids(s: Seq<PlayerId>, reversed: bool) -> Seq<PlayerId> {
    if !reversed {
        seq![s.last()] + s.drop_last()
    } else {
        s.drop_first().push(s.first())
    }
}

/// `n` rotation steps in the same direction.
pub open spec fn rot_ids_n(s: Seq<PlayerId>, reversed: bool, n: nat) -> Seq<PlayerId>
    decreases n,
{
    if n == 0 {
        s
    } else {
        rot_ids_n(rot_ids(s, reversed), reversed, (n - 1) as nat)
    }
}

/// The identifier an advance in direction `reversed` would make
/// current: the tail going forward, the head going backwards.
pub open spec fn next_of(s: Seq<PlayerId>, reversed: bool) -> PlayerId {
    if !reversed {
        s.last()
    } else {
        s.first()
    }
}

/// One rotation step of the pair sequence itself.
pub open spec fn rotated(s: Seq<(PlayerId, Player)>, reversed: bool) -> Seq<(PlayerId, Player)> {
    if !reversed {
        seq![s.last()] + s.drop_last()
    } else {
        s.drop_first().push(s.first())
    }
}

pub proof fn lemma_rotated_wf(s: Seq<(PlayerId, Player)>, reversed: bool)
    requires
        s.len() >= 1,
        pairs_wf(s),
    ensures
        pairs_wf(rotated(s, reversed)),
        rotated(s, reversed).len() == s.len(),
        keys_of(rotated(s, reversed)) =~= rot_ids(keys_of(s), reversed),
        sum_hands(rotated(s, reversed)) == sum_hands(s),
        rotated(s, reversed).to_multiset() == s.to_multiset(),
        forall|id: PlayerId| has_key(rotated(s, reversed), id) <==> has_key(s, id),
        forall|id: PlayerId|
            has_key(s, id) ==> player_of(rotated(s, reversed), id) == player_of(s, id),
{
    broadcast use vstd::seq_lib::group_to_multiset_ensures;

    let r = rotated(s, reversed);
    if !reversed {
        assert(r =~= seq![s.last()] + s.drop_last());
        assert(forall|i: int| 1 <= i < r.len() ==> r[i] == s[i - 1]);
        assert(r[0] == s[s.len() - 1]);
        assert(s =~= s.drop_last().push(s.last()));
        lemma_sum_hands_push(s.drop_last(), s.last());
        assert(sum_hands(r) == r[0].1.cards@.len() + sum_hands(r.drop_first()));
        assert(r.drop_first() =~= s.drop_last());
        assert(s.drop_last().push(s.last()).to_multiset() == s.drop_last().to_multiset().insert(
            s.last(),
        ));
        assert(r.drop_first().push(r.first()).to_multiset() == r.drop_first().to_multiset().insert(
            r.first(),
        ));
        assert(r =~= r.drop_first().insert(0, r.first()));
        assert(r.to_multiset() == r.drop_first().to_multiset().insert(r.first())) by {
            lemma_to_multiset_cons(r);
        }
        assert(r.to_multiset() == s.to_multiset());
    } else {
        assert(r =~= s.drop_first().push(s.first()));
        assert(forall|i: int| 0 <= i < r.len() - 1 ==> r[i] == s[i + 1]);
        assert(r[r.len() - 1] == s[0]);
        lemma_sum_hands_push(s.drop_first(), s.first());
        assert(s.drop_first().push(s.first()).to_multiset() == s.drop_first().to_multiset().insert(
            s.first(),
        ));
        assert(s.to_multiset() == s.drop_first().to_multiset().insert(s.first())) by {
            lemma_to_multiset_cons(s);
        }
    }
    assert forall|id: PlayerId| has_key(r, id) <==> has_key(s, id) by {
        if has_key(r, id) {
            let i = choose|i: int| 0 <= i < r.len() && r[i].0 == id;
            if !reversed {
                if i == 0 {
                    assert(s[s.len() - 1].0 == id);
                } else {
                    assert(s[i - 1].0 == id);
                }
            } else {
                if i == r.len() - 1 {
                    assert(s[0].0 == id);
                } else {
                    assert(s[i + 1].0 == id);
                }
            }
        }
        if has_key(s, id) {
            let i = choose|i: int| 0 <= i < s.len() && s[i].0 == id;
            if !reversed {
                if i == s.len() - 1 {
                    assert(r[0].0 == id);
                } else {
                    assert(r[i + 1].0 == id);
                }
            } else {
                if i == 0 {
                    assert(r[r.len() - 1].0 == id);
                } else {
                    assert(r[i - 1].0 == id);
                }
            }
        }
    }
    assert forall|id: PlayerId| has_key(s, id) implies player_of(r, id) == player_of(s, id) by {
        let i = choose|i: int| 0 <= i < s.len() && s[i].0 == id;
        lemma_key_index(s, id, i);
        if !reversed {
            if i == s.len() - 1 {
                lemma_key_index(r, id, 0);
            } else {
                lemma_key_index(r, id, i + 1);
            }
        } else {
            if i == 0 {
                lemma_key_index(r, id, r.len() - 1);
            } else {
                lemma_key_index(r, id, i - 1);
            }
        }
    }
}

/// A nonempty sequence's multiset is its first element joined onto the
/// rest.
proof fn lemma_to_multiset_cons(s: Seq<(PlayerId, Player)>)
    requires
        s.len() >= 1,
    ensures
        s.to_multiset() == s.drop_first().to_multiset().insert(s.first()),
    decreases s.len(),
{
    broadcast use vstd::seq_lib::group_to_multiset_ensures;

    if s.len() == 1 {
        assert(s =~= Seq::<(PlayerId, Player)>::empty().push(s.first()));
        assert(s.drop_first() =~= Seq::<(PlayerId, Player)>::empty());
    } else {
        let t = s.drop_last();
        assert(s =~= t.push(s.last()));
        assert(s.to_multiset() == t.to_multiset().insert(s.last()));
        lemma_to_multiset_cons(t);
        assert(t.drop_first().push(s.last()) =~= s.drop_first());
        assert(s.drop_first().to_multiset() == t.drop_first().to_multiset().insert(s.last()));
        assert(t.to_multiset() == t.drop_first().to_multiset().insert(t.first()));
        assert(s.to_multiset() == t.drop_first().to_multiset().insert(t.first()).insert(s.last()));
        assert(t.drop_first().to_multiset().insert(t.first()).insert(s.last())
            =~= t.drop_first().to_multiset().insert(s.last()).insert(t.first()));
        assert(t.first() == s.first());
    }
}

/// The ordered, rotatable collection of the room's players.
#[derive(Debug)]
pub struct Players(pub Vec<(PlayerId, Player)>);

impl Players {
    /// Well-formed pairing of keys and players.
    pub open spec fn wf(self) -> bool {
        pairs_wf(self.0@)
    }

    /// An empty rotation.
    pub fn new() -> (r: Players)
        ensures
            r.0@ == Seq::<(PlayerId, Player)>::empty(),
            r.wf(),
    {
        Players(Vec::new())
    }

    /// The number of players in the game.
    pub fn len(&self) -> (r: usize)
        ensures
            r == self.0@.len(),
    {
        self.0.len()
    }

    /// Whether no player is present.
    pub fn is_empty(&self) -> (r: bool)
        ensures
            r == (self.0@.len() == 0),
    {
        self.0.len() == 0
    }

    /// The identifiers of the players, in rotation order.
    pub fn keys(&self) -> (r: Vec<PlayerId>)
        ensures
            r@ == keys_of(self.0@),
    {
        let mut out: Vec<PlayerId> = Vec::new();
        for i in 0..self.0.len()
            invariant
                out@.len() == i,
                forall|j: int| 0 <= j < i ==> out@[j] == self.0@[j].0,
        {
            out.push(self.0[i].0);
        }
        assert(out@ =~= keys_of(self.0@));
        out
    }

    /// The identifiers of the players, owned; same contents as
    /// [`Players::keys`].
    pub fn keys_mut(&self) -> (r: Vec<PlayerId>)
        ensures
            r@ == keys_of(self.0@),
    {
        self.keys()
    }

    /// Copies of the players, in rotation order.
    pub fn players(&self) -> (r: Vec<Player>)
        ensures
            r@.len() == self.0@.len(),
            forall|j: int| 0 <= j < r@.len() ==> player_matches(#[trigger] r@[j], self.0@[j].1),
    {
        let mut out: Vec<Player> = Vec::new();
        for i in 0..self.0.len()
            invariant
                out@.len() == i,
                forall|j: int| 0 <= j < i ==> player_matches(#[trigger] out@[j], self.0@[j].1),
        {
            out.push(self.0[i].1.dup());
        }
        out
    }

    /// The roster: each player's identifier and username, in order.
    pub fn map_username(&self) -> (r: Vec<(PlayerId, String)>)
        ensures
            r@ =~= self.0@.map_values(|p: (PlayerId, Player)| (p.0, p.1.username)),
    {
        let mut out: Vec<(PlayerId, String)> = Vec::new();
        for i in 0..self.0.len()
            invariant
                out@.len() == i,
                forall|j: int|
                    0 <= j < i ==> out@[j] == (self.0@[j].0, self.0@[j].1.username),
        {
            out.push((self.0[i].0, self.0[i].1.username.clone()));
        }
        out
    }

    /// The least position holding `key`, if any.
    pub fn position_of(&self, key: PlayerId) -> (r: Option<usize>)
        ensures
            match r {
                Some(i) => i < self.0@.len() && self.0@[i as int].0 == key && forall|j: int|
                    0 <= j < i ==> self.0@[j].0 != key,
                None => !has_key(self.0@, key),
            },
    {
        for i in 0..self.0.len()
            invariant
                forall|j: int| 0 <= j < i ==> self.0@[j].0 != key,
        {
            if self.0[i].0 == key {
                return Some(i);
            }
        }
        None
    }

    /// Whether a player with the identifier `key` is present.
    pub fn contains_key(&self, key: PlayerId) -> (r: bool)
        ensures
            r == has_key(self.0@, key),
    {
        self.position_of(key).is_some()
    }

    /// The player stored under `key`, if any.
    pub fn get(&self, key: PlayerId) -> (r: Option<&Player>)
        requires
            self.wf(),
        ensures
            r.is_some() <==> has_key(self.0@, key),
            r.is_some() ==> *r.unwrap() == player_of(self.0@, key),
    {
        match self.position_of(key) {
            Some(i) => {
                proof {
                    lemma_key_index(self.0@, key, i as int);
                }
                Some(&self.0[i].1)
            },
            None => None,
        }
    }

    /// Appends a new pair at the tail of the rotation.
    pub fn insert(&mut self, key: PlayerId, player: Player)
        ensures
            final(self).0@ == old(self).0@.push((key, player)),
    {
        self.0.push((key, player));
    }

    /// Removes the player stored under `key`.
    pub fn remove(&mut self, key: PlayerId)
        requires
            old(self).wf(),
            has_key(old(self).0@, key),
        ensures
            final(self).0@ == old(self).0@.remove(key_index(old(self).0@, key)),
            final(self).wf(),
    {
        let i = match self.position_of(key) {
            Some(i) => i,
            None => {
                proof {
                    assert(false);
                }
                0
            },
        };
        proof {
            lemma_key_index(self.0@, key, i as int);
        }
        self.0.remove(i);
        proof {
            let s = old(self).0@;
            let t = s.remove(i as int);
            assert forall|a: int, b: int| 0 <= a < b < t.len() implies t[a].0 != t[b].0 by {
                if b < i {
                    assert(t[a] == s[a] && t[b] == s[b]);
                } else if a < i {
                    assert(t[a] == s[a] && t[b] == s[b + 1]);
                } else {
                    assert(t[a] == s[a + 1] && t[b] == s[b + 1]);
                }
            }
            assert forall|a: int| 0 <= a < t.len() implies (#[trigger] t[a]).0 == t[a].1.id by {
                if a < i {
                    assert(t[a] == s[a]);
                } else {
                    assert(t[a] == s[a + 1]);
                }
            }
        }
    }

    /// Rotates the players by one position in the requested direction
    /// and returns the identifier that is now current.
    pub fn next_player(&mut self, reversed: bool) -> (r: PlayerId)
        requires
            old(self).0@.len() >= 1,
        ensures
            final(self).0@ == rotated(old(self).0@, reversed),
            r == next_of(keys_of(old(self).0@), reversed),
    {
        if !reversed {
            let current = match self.0.pop() {
                Some(p) => p,
                None => {
                    proof {
                        assert(false);
                    }
                    (0, Player::new(0))
                },
            };
            let id = current.0;
            self.0.insert(0, current);
            proof {
                assert(final(self).0@ =~= rotated(old(self).0@, reversed));
            }
            id
        } else {
            let current = self.0.remove(0);
            let id = current.0;
            self.0.push(current);
            id
        }
    }

    /// Predicts the identifier [`Players::next_player`] would return,
    /// without rotating.
    pub fn predict_next(&self, reversed: bool) -> (r: PlayerId)
        requires
            self.0@.len() >= 1,
        ensures
            r == next_of(keys_of(self.0@), reversed),
    {
        if !reversed {
            self.0[self.0.len() - 1].0
        } else {
            self.0[0].0
        }
    }
}

/// Agreement on every field but the hand.
pub open spec fn same_player_except_cards(a: Player, b: Player) -> bool {
    &&& a.id == b.id
    &&& a.username == b.username
    &&& a.is_connected == b.is_connected
    &&& a.is_host == b.is_host
    &&& a.waiting == b.waiting
    &&& a.actions == b.actions
}

/// Agreement on every field but the turn actions.
pub open spec fn same_player_except_actions(a: Player, b: Player) -> bool {
    &&& a.id == b.id
    &&& a.username == b.username
    &&& a.is_connected == b.is_connected
    &&& a.is_host == b.is_host
    &&& a.waiting == b.waiting
    &&& a.cards == b.cards
}

impl Players {
    /// Looks the key up, handing back its position; the key must be
    /// present.
    pub(crate) fn found_position(&self, key: PlayerId) -> (r: usize)
        requires
            self.wf(),
            has_key(self.0@, key),
        ensures
            r == key_index(self.0@, key),
            r < self.0@.len(),
            self.0@[r as int].0 == key,
    {
        match self.position_of(key) {
            Some(i) => {
                proof {
                    lemma_key_index(self.0@, key, i as int);
                }
                i
            },
            None => {
                proof {
                    assert(false);
                }
                0
            },
        }
    }

    proof fn lemma_update_wf(self, other: Players, i: int, key: PlayerId)
        requires
            self.wf(),
            0 <= i < self.0@.len(),
            other.0@.len() == self.0@.len(),
            forall|j: int| 0 <= j < self.0@.len() && j != i ==> other.0@[j] == self.0@[j],
            other.0@[i].0 == self.0@[i].0,
            other.0@[i].1.id == self.0@[i].1.id,
        ensures
            other.wf(),
    {
        assert forall|a: int, b: int|
            0 <= a < b < other.0@.len() implies other.0@[a].0 != other.0@[b].0 by {
            assert(other.0@[a].0 == self.0@[a].0);
            assert(other.0@[b].0 == self.0@[b].0);
        }
        assert forall|a: int|
            0 <= a < other.0@.len() implies (#[trigger] other.0@[a]).0 == other.0@[a].1.id by {
            assert(self.0@[a].0 == self.0@[a].1.id);
        }
    }

    /// Appends `extra` to the hand of the player stored under `key`.
    pub fn add_cards(&mut self, key: PlayerId, extra: Vec<Card>)
        requires
            old(self).wf(),
            has_key(old(self).0@, key),
        ensures
            final(self).wf(),
            final(self).0@.len() == old(self).0@.len(),
            ({
                let i = key_index(old(self).0@, key);
                &&& forall|j: int|
                    0 <= j < old(self).0@.len() && j != i ==> final(self).0@[j] == old(self).0@[j]
                &&& final(self).0@[i].0 == key
                &&& same_player_except_cards(final(self).0@[i].1, old(self).0@[i].1)
                &&& final(self).0@[i].1.cards@ == old(self).0@[i].1.cards@ + extra@
            }),
    {
        let i = self.found_position(key);
        let mut extra = extra;
        let (k, mut p) = self.0.remove(i);
        p.cards.append(&mut extra);
        self.0.insert(i, (k, p));
        proof {
            assert(final(self).0@ =~= old(self).0@.update(
                i as int,
                final(self).0@[i as int],
            ));
            old(self).lemma_update_wf(*final(self), i as int, key);
        }
    }

    /// Removes and returns the card at `idx` from the hand of the
    /// player stored under `key`.
    pub fn remove_card(&mut self, key: PlayerId, idx: usize) -> (c: Card)
        requires
            old(self).wf(),
            has_key(old(self).0@, key),
            idx < player_of(old(self).0@, key).cards@.len(),
        ensures
            final(self).wf(),
            final(self).0@.len() == old(self).0@.len(),
            ({
                let i = key_index(old(self).0@, key);
                &&& forall|j: int|
                    0 <= j < old(self).0@.len() && j != i ==> final(self).0@[j] == old(self).0@[j]
                &&& final(self).0@[i].0 == key
                &&& same_player_except_cards(final(self).0@[i].1, old(self).0@[i].1)
                &&& final(self).0@[i].1.cards@ == old(self).0@[i].1.cards@.remove(idx as int)
                &&& c == old(self).0@[i].1.cards@[idx as int]
            }),
    {
        let i = self.found_position(key);
        let (k, mut p) = self.0.remove(i);
        let c = p.cards.remove(idx);
        self.0.insert(i, (k, p));
        proof {
            assert(final(self).0@ =~= old(self).0@.update(
                i as int,
                final(self).0@[i as int],
            ));
            old(self).lemma_update_wf(*final(self), i as int, key);
        }
        c
    }

    /// Records an action for the player stored under `key`.
    pub fn push_action(&mut self, key: PlayerId, a: Actions)
        requires
            old(self).wf(),
            has_key(old(self).0@, key),
        ensures
            final(self).wf(),
            final(self).0@.len() == old(self).0@.len(),
            ({
                let i = key_index(old(self).0@, key);
                &&& forall|j: int|
                    0 <= j < old(self).0@.len() && j != i ==> final(self).0@[j] == old(self).0@[j]
                &&& final(self).0@[i].0 == key
                &&& same_player_except_actions(final(self).0@[i].1, old(self).0@[i].1)
                &&& final(self).0@[i].1.actions@ == old(self).0@[i].1.actions@.push(a)
            }),
    {
        let i = self.found_position(key);
        let (k, mut p) = self.0.remove(i);
        p.actions.push(a);
        self.0.insert(i, (k, p));
        proof {
            assert(final(self).0@ =~= old(self).0@.update(
                i as int,
                final(self).0@[i as int],
            ));
            old(self).lemma_update_wf(*final(self), i as int, key);
        }
    }

    /// Clears the turn actions of the player stored under `key`.
    pub fn clear_actions(&mut self, key: PlayerId)
        requires
            old(self).wf(),
            has_key(old(self).0@, key),
        ensures
            final(self).wf(),
            final(self).0@.len() == old(self).0@.len(),
            ({
                let i = key_index(old(self).0@, key);
                &&& forall|j: int|
                    0 <= j < old(self).0@.len() && j != i ==> final(self).0@[j] == old(self).0@[j]
                &&& final(self).0@[i].0 == key
                &&& same_player_except_actions(final(self).0@[i].1, old(self).0@[i].1)
                &&& final(self).0@[i].1.actions@ == Seq::<Actions>::empty()
            }),
    {
        let i = self.found_position(key);
        let (k, mut p) = self.0.remove(i);
        p.actions.clear();
        self.0.insert(i, (k, p));
        proof {
            assert(final(self).0@ =~= old(self).0@.update(
                i as int,
                final(self).0@[i as int],
            ));
            old(self).lemma_update_wf(*final(self), i as int, key);
        }
    }

    /// Names the player stored under `key`, marks them connected, and
    /// sets their host flag.
    pub fn set_profile(&mut self, key: PlayerId, username: String, host: bool)
        requires
            old(self).wf(),
            has_key(old(self).0@, key),
        ensures
            final(self).wf(),
            final(self).0@.len() == old(self).0@.len(),
            ({
                let i = key_index(old(self).0@, key);
                &&& forall|j: int|
                    0 <= j < old(self).0@.len() && j != i ==> final(self).0@[j] == old(self).0@[j]
                &&& final(self).0@[i].0 == key
                &&& final(self).0@[i].1 == (Player {
                    username: username,
                    is_connected: true,
                    is_host: host,
                    ..old(self).0@[i].1
                })
            }),
    {
        let i = self.found_position(key);
        let (k, mut p) = self.0.remove(i);
        p.username = username;
        p.is_connected = true;
        p.is_host = host;
        self.0.insert(i, (k, p));
        proof {
            assert(final(self).0@ =~= old(self).0@.update(
                i as int,
                final(self).0@[i as int],
            ));
            old(self).lemma_update_wf(*final(self), i as int, key);
        }
    }

    /// Copies of the players ordered by hand size, ascending; every
    /// player appears exactly once. Among equal hand sizes the order
    /// is left open: the contract promises no tie order (a deliberate
    /// deviation from a stable sort, which would also keep the
    /// rotation order among ties).
    pub fn sort_by_cards(&self) -> (r: Vec<Player>)
        requires
            self.wf(),
        ensures
            r@.len() == self.0@.len(),
            forall|a: int, b: int|
                0 <= a < b < r@.len() ==> r@[a].cards@.len() <= r@[b].cards@.len(),
            forall|k: int|
                0 <= k < r@.len() ==> has_key(self.0@, (#[trigger] r@[k]).id) && player_matches(
                    r@[k],
                    player_of(self.0@, r@[k].id),
                ),
            forall|id: PlayerId|
                has_key(self.0@, id) ==> exists|k: int| 0 <= k < r@.len() && r@[k].id == id,
            forall|a: int, b: int| 0 <= a < b < r@.len() ==> r@[a].id != r@[b].id,
    {
        broadcast use vstd::seq_lib::group_to_multiset_ensures;

        let copies = self.players();
        let r = sort_players(copies);
        proof {
            let s = self.0@;
            let cv = copies@;
            assert forall|k: int|
                0 <= k < r@.len() implies has_key(s, (#[trigger] r@[k]).id) && player_matches(
                r@[k],
                player_of(s, r@[k].id),
            ) by {
                assert(r@.contains(r@[k]));
                assert(r@.to_multiset().count(r@[k]) > 0);
                assert(cv.to_multiset().count(r@[k]) > 0);
                assert(cv.contains(r@[k]));
                let j = choose|j: int| 0 <= j < cv.len() && cv[j] == r@[k];
                assert(player_matches(cv[j], s[j].1));
                assert(s[j].0 == s[j].1.id);
                lemma_key_index(s, s[j].0, j);
            }
            assert forall|id: PlayerId|
                has_key(s, id) implies exists|k: int| 0 <= k < r@.len() && r@[k].id == id by {
                let j = choose|j: int| 0 <= j < s.len() && s[j].0 == id;
                assert(player_matches(cv[j], s[j].1));
                assert(cv.contains(cv[j]));
                assert(r@.to_multiset().count(cv[j]) > 0);
                assert(r@.contains(cv[j]));
                let k = choose|k: int| 0 <= k < r@.len() && r@[k] == cv[j];
                assert(r@[k].id == id);
            }
            assert forall|a: int, b: int|
                0 <= a < b < r@.len() implies r@[a].id != r@[b].id by {
                if r@[a].id == r@[b].id {
                    assert(cv.contains(r@[a])) by {
                        assert(r@.contains(r@[a]));
                        assert(cv.to_multiset().count(r@[a]) > 0);
                    }
                    assert(cv.contains(r@[b])) by {
                        assert(r@.contains(r@[b]));
                        assert(cv.to_multiset().count(r@[b]) > 0);
                    }
                    let ja = choose|j: int| 0 <= j < cv.len() && cv[j] == r@[a];
                    let jb = choose|j: int| 0 <= j < cv.len() && cv[j] == r@[b];
                    // distinct rotation keys give the copies distinct ids
                    assert(cv[ja].id == s[ja].1.id && s[ja].0 == s[ja].1.id);
                    assert(cv[jb].id == s[jb].1.id && s[jb].0 == s[jb].1.id);
                    assert(ja == jb);
                    let v = r@[a];
                    assert(r@[b] == v);
                    // the same value twice in the result means its count is two
                    assert(r@.remove(a).to_multiset() =~= r@.to_multiset().remove(v));
                    assert(r@.remove(a)[b - 1] == r@[b]);
                    assert(r@.remove(a).contains(v));
                    assert(r@.remove(a).to_multiset().count(v) > 0);
                    assert(r@.to_multiset().count(v) >= 2);
                    // but the copies hold each player's value only once
                    assert(cv.remove(ja).to_multiset() =~= cv.to_multiset().remove(v));
                    assert(cv.to_multiset().count(v) >= 2);
                    assert(cv.remove(ja).to_multiset().count(v) > 0);
                    assert(cv.remove(ja).contains(v));
                    let j2 = choose|j: int| 0 <= j < cv.remove(ja).len() && cv.remove(ja)[j] == v;
                    let j2o: int = if j2 < ja {
                        j2
                    } else {
                        j2 + 1
                    };
                    assert(cv[j2o] == v && j2o != ja);
                    assert(cv[j2o].id == s[j2o].1.id && s[j2o].0 == s[j2o].1.id);
                    assert(s[j2o].0 == s[ja].0);
                    assert(false);
                }
            }
        }
        r
    }
}

/// The lifecycle of a room: players joining, turns proceeding, and the
/// terminal state after a win or an abort.
#[derive(Debug, Clone, Copy, PartialEq, Eq, Structural)]
pub enum Phase {
    Waiting,
    Active,
    Ended,
}

/// The authoritative state of one room.
#[derive(Debug)]
pub struct Game {
    pub id: PlayerId,
    pub phase: Phase,
    pub players: Players,
    pub spectators: Vec<(PlayerId, Player)>,
    pub current_turn: Option<PlayerId>,
    pub deck: Vec<Card>,
    pub placed_deck: Vec<Card>,
    pub draw_stack: usize,
    pub block_stack: usize,
    pub reversed: bool,
    pub statistics: GameStatistics,
    pub outbox: Vec<(PlayerId, PacketType)>,
}

/// The cards on the table and in every hand, together.
pub open spec fn total_cards(g: Game) -> int {
    g.deck@.len() + g.placed_deck@.len() + sum_hands(g.players.0@)
}

/// The hand of the player stored under `id`.
pub open spec fn hand_of(g: Game, id: PlayerId) -> Seq<Card> {
    player_of(g.players.0@, id).cards@
}

/// The top of the discard pile.
pub open spec fn top_card(g: Game) -> Card {
    g.placed_deck@[0]
}

/// Agreement of two games on everything but the outbox.
pub open spec fn same_except_outbox(a: Game, b: Game) -> bool {
    a == (Game { outbox: a.outbox, ..b })
}

/// The entries `delta` appends to `base`.
pub open spec fn appended(
    base: Seq<(PlayerId, PacketType)>,
    now: Seq<(PlayerId, PacketType)>,
) -> Seq<(PlayerId, PacketType)> {
    now.subrange(base.len() as int, now.len() as int)
}

/// Whether `now` extends `base` without rewriting it.
pub open spec fn extends(
    base: Seq<(PlayerId, PacketType)>,
    now: Seq<(PlayerId, PacketType)>,
) -> bool {
    now.len() >= base.len() && now.subrange(0, base.len() as int) == base
}

/// Extension of outboxes composes.
pub proof fn lemma_extends_trans(
    a: Seq<(PlayerId, PacketType)>,
    b: Seq<(PlayerId, PacketType)>,
    c: Seq<(PlayerId, PacketType)>,
)
    requires
        extends(a, b),
        extends(b, c),
    ensures
        extends(a, c),
{
    assert forall|i: int| 0 <= i < a.len() implies c.subrange(0, a.len() as int)[i] == a[i] by {
        assert(b.subrange(0, a.len() as int)[i] == a[i]);
        assert(c.subrange(0, b.len() as int)[i] == b[i]);
    }
    assert(c.subrange(0, a.len() as int) =~= a);
}

/// An entry below the base of an extension is unchanged.
pub proof fn lemma_extends_index(
    a: Seq<(PlayerId, PacketType)>,
    c: Seq<(PlayerId, PacketType)>,
    i: int,
)
    requires
        extends(a, c),
        0 <= i < a.len(),
    ensures
        c[i] == a[i],
{
    assert(c.subrange(0, a.len() as int)[i] == c[i]);
}

impl Game {
    /// The internal invariant of a room's state.
    pub open spec fn wf(self) -> bool {
        &&& self.players.wf()
        &&& pairs_wf(self.spectators@)
        &&& (self.phase == Phase::Waiting ==> {
            &&& self.current_turn.is_none()
            &&& self.placed_deck@.len() == 0
            &&& self.deck@.len() == DECK_SIZE
            &&& has_number_card(self.deck@)
            &&& forall|i: int|
                0 <= i < self.players.0@.len() ==> (
                #[trigger] self.players.0@[i]).1.cards@.len() == 0
            &&& self.draw_stack == 0
            &&& self.block_stack == 0
            &&& !self.reversed
        })
        &&& (self.phase == Phase::Active ==> {
            &&& self.players.0@.len() >= 2
            &&& self.current_turn.is_some()
            &&& has_key(self.players.0@, self.current_turn.unwrap())
            &&& self.placed_deck@.len() >= 1
            &&& total_cards(self) == DECK_SIZE
            &&& (!self.reversed ==> keys_of(self.players.0@).first()
                == self.current_turn.unwrap())
            &&& (self.reversed ==> keys_of(self.players.0@).last() == self.current_turn.unwrap())
        })
        &&& (self.phase == Phase::Ended ==> self.current_turn.is_none())
    }

    /// A fresh room: waiting for players, with a full shuffled deck.
    pub fn new() -> (r: Game)
        ensures
            r.wf(),
            r.phase == Phase::Waiting,
            r.players.0@ == Seq::<(PlayerId, Player)>::empty(),
            r.spectators@ == Seq::<(PlayerId, Player)>::empty(),
            r.current_turn.is_none(),
            r.deck@.len() == DECK_SIZE,
            has_number_card(r.deck@),
            forall|i: int| 0 <= i < r.deck@.len() ==> r.deck@[i].owner.is_none(),
            r.placed_deck@ == Seq::<Card>::empty(),
            r.draw_stack == 0,
            r.block_stack == 0,
            !r.reversed,
            r.statistics == (GameStatistics {
                start_time: None::<u64>,
                end_time: None::<u64>,
                player_count: 0usize,
                spectator_count: 0usize,
                cards_placed: 0usize,
                cards_drawn: 0usize,
            }),
            r.outbox@ == Seq::<(PlayerId, PacketType)>::empty(),
    {
        Game {
            id: fresh_id(),
            phase: Phase::Waiting,
            players: Players::new(),
            spectators: Vec::new(),
            current_turn: None,
            deck: Card::generate_deck(),
            placed_deck: Vec::new(),
            draw_stack: 0,
            block_stack: 0,
            reversed: false,
            statistics: GameStatistics::new(),
            outbox: Vec::new(),
        }
    }

    /// Queues one event for one recipient.
    pub fn emit(&mut self, id: PlayerId, data: PacketType)
        ensures
            same_except_outbox(*final(self), *old(self)),
            final(self).outbox@ == old(self).outbox@.push((id, data)),
    {
        self.outbox.push((id, data));
    }

    /// Queues a rejection for one recipient.
    pub fn emit_error(&mut self, id: PlayerId, code: u64, msg: &str)
        ensures
            same_except_outbox(*final(self), *old(self)),
            final(self).outbox@.len() == old(self).outbox@.len() + 1,
            extends(old(self).outbox@, final(self).outbox@),
            final(self).outbox@.last().0 == id,
            final(self).outbox@.last().1 matches PacketType::Error(c, b) && c == code && b@
                == msg@,
    {
        self.emit(id, PacketType::Error(code, msg.to_owned()));
        proof {
            assert(final(self).outbox@.subrange(0, old(self).outbox@.len() as int) =~= old(
                self,
            ).outbox@);
        }
    }

    /// Queues one event for every player, in rotation order.
    pub fn broadcast(&mut self, data: PacketType)
        ensures
            same_except_outbox(*final(self), *old(self)),
            extends(old(self).outbox@, final(self).outbox@),
            ({
                let delta = appended(old(self).outbox@, final(self).outbox@);
                &&& delta.len() == old(self).players.0@.len()
                &&& forall|k: int|
                    0 <= k < delta.len() ==> (#[trigger] delta[k]).0 == keys_of(
                        old(self).players.0@,
                    )[k] && pkt_eq(delta[k].1, data)
            }),
    {
        let n = self.players.0.len();
        let ghost base = self.outbox@;
        for i in 0..n
            invariant
                n == self.players.0@.len(),
                self.players.0@ == old(self).players.0@,
                same_except_outbox(*self, *old(self)),
                self.outbox@.len() == base.len() + i,
                self.outbox@.subrange(0, base.len() as int) == base,
                forall|k: int|
                    0 <= k < i ==> (#[trigger] self.outbox@[base.len() + k]).0 == old(
                        self,
                    ).players.0@[k].0 && pkt_eq(self.outbox@[base.len() + k].1, data),
        {
            let key = self.players.0[i].0;
            let copy = data.dup();
            self.outbox.push((key, copy));
            proof {
                assert(self.outbox@.subrange(0, base.len() as int) =~= base);
            }
        }
        proof {
            let delta = appended(base, final(self).outbox@);
            assert forall|k: int|
                0 <= k < delta.len() implies (#[trigger] delta[k]).0 == keys_of(
                old(self).players.0@,
            )[k] && pkt_eq(delta[k].1, data) by {
                assert(delta[k] == final(self).outbox@[base.len() + k]);
            }
        }
    }

    /// Queues one event for every player but `self_id`, in rotation
    /// order.
    pub fn broadcast_ignore_self(&mut self, self_id: PlayerId, data: PacketType)
        ensures
            same_except_outbox(*final(self), *old(self)),
            extends(old(self).outbox@, final(self).outbox@),
            ({
                let delta = appended(old(self).outbox@, final(self).outbox@);
                &&& forall|k: int|
                    0 <= k < delta.len() ==> (#[trigger] delta[k]).0 != self_id && pkt_eq(
                        delta[k].1,
                        data,
                    )
                &&& forall|j: int|
                    0 <= j < old(self).players.0@.len() && old(self).players.0@[j].0 != self_id
                        ==> exists|k: int|
                        0 <= k < delta.len() && (#[trigger] delta[k]).0 == old(
                            self,
                        ).players.0@[j].0
            }),
    {
        let n = self.players.0.len();
        let ghost base = self.outbox@;
        for i in 0..n
            invariant
                n == self.players.0@.len(),
                self.players.0@ == old(self).players.0@,
                same_except_outbox(*self, *old(self)),
                self.outbox@.len() >= base.len(),
                self.outbox@.subrange(0, base.len() as int) == base,
                forall|k: int|
                    base.len() <= k < self.outbox@.len() ==> (#[trigger] self.outbox@[k]).0
                        != self_id && pkt_eq(self.outbox@[k].1, data),
                forall|j: int|
                    0 <= j < i && old(self).players.0@[j].0 != self_id ==> exists|k: int|
                        base.len() <= k < self.outbox@.len() && (#[trigger] self.outbox@[k]).0
                            == old(self).players.0@[j].0,
        {
            let ghost ob0 = self.outbox@;
            let key = self.players.0[i].0;
            if key != self_id {
                let copy = data.dup();
                self.outbox.push((key, copy));
                proof {
                    assert(self.outbox@.subrange(0, base.len() as int) =~= base);
                    assert(self.outbox@[self.outbox@.len() - 1].0 == key);
                }
            }
            proof {
                assert forall|j: int|
                    0 <= j < i + 1 && old(self).players.0@[j].0 != self_id implies exists|k: int|
                    base.len() <= k < self.outbox@.len() && (#[trigger] self.outbox@[k]).0 == old(
                    self,
                ).players.0@[j].0 by {
                    if j < i {
                        let k0 = choose|k0: int|
                            base.len() <= k0 < ob0.len() && (#[trigger] ob0[k0]).0 == old(
                                self,
                            ).players.0@[j].0;
                        assert(self.outbox@[k0].0 == old(self).players.0@[j].0);
                    } else {
                        assert(self.outbox@[self.outbox@.len() - 1].0 == old(
                            self,
                        ).players.0@[j].0);
                    }
                }
            }
        }
        proof {
            let delta = appended(base, final(self).outbox@);
            assert forall|k: int|
                0 <= k < delta.len() implies (#[trigger] delta[k]).0 != self_id && pkt_eq(
                delta[k].1,
                data,
            ) by {
                assert(delta[k] == final(self).outbox@[base.len() + k]);
            }
            assert forall|j: int|
                0 <= j < old(self).players.0@.len() && old(self).players.0@[j].0
                    != self_id implies exists|k: int|
                0 <= k < delta.len() && (#[trigger] delta[k]).0 == old(self).players.0@[j].0 by {
                let ob = final(self).outbox@;
                let k0 = choose|k0: int|
                    base.len() <= k0 < ob.len() && (#[trigger] ob[k0]).0 == old(
                        self,
                    ).players.0@[j].0;
                assert(delta[k0 - base.len()] == ob[k0]);
            }
        }
    }

    /// The player stored under `id`, who must be present.
    pub fn get_player(&self, id: PlayerId) -> (r: &Player)
        requires
            self.wf(),
            has_key(self.players.0@, id),
        ensures
            *r == player_of(self.players.0@, id),
    {
        match self.players.get(id) {
            Some(p) => p,
            None => {
                proof {
                    assert(false);
                }
                &self.players.0[0].1
            },
        }
    }
}

/// A counter stepped `n` times, sticking at the maximum machine value.
pub open spec fn bumped_n(c: usize, n: nat) -> usize
    decreases n,
{
    if n == 0 {
        c
    } else {
        bumped_counter(bumped_n(c, (n - 1) as nat))
    }
}

pub proof fn lemma_bumped_n_add(c: usize, a: nat, b: nat)
    ensures
        bumped_n(bumped_n(c, a), b) == bumped_n(c, a + b),
    decreases b,
{
    if b > 0 {
        lemma_bumped_n_add(c, a, (b - 1) as nat);
    }
}

/// Two pair sequences whose hands agree in length, position by
/// position, hold the same number of cards overall.
pub proof fn lemma_sum_hands_pointwise(a: Seq<(PlayerId, Player)>, b: Seq<(PlayerId, Player)>)
    requires
        a.len() == b.len(),
        forall|i: int| 0 <= i < a.len() ==> a[i].1.cards@.len() == b[i].1.cards@.len(),
    ensures
        sum_hands(a) == sum_hands(b),
    decreases a.len(),
{
    if a.len() > 0 {
        lemma_sum_hands_pointwise(a.drop_first(), b.drop_first());
    }
}

/// Hands never hold a negative number of cards.
pub proof fn lemma_sum_hands_nonneg(s: Seq<(PlayerId, Player)>)
    ensures
        sum_hands(s) >= 0,
    decreases s.len(),
{
    if s.len() > 0 {
        lemma_sum_hands_nonneg(s.drop_first());
    }
}

/// A sequence of empty hands holds no cards.
pub proof fn lemma_sum_hands_zero(s: Seq<(PlayerId, Player)>)
    requires
        forall|i: int| 0 <= i < s.len() ==> (#[trigger] s[i]).1.cards@.len() == 0,
    ensures
        sum_hands(s) == 0,
    decreases s.len(),
{
    if s.len() > 0 {
        lemma_sum_hands_zero(s.drop_first());
    }
}

/// Stamps every card of `v` as owned by `owner`.
pub fn own_cards(v: Vec<Card>, owner: PlayerId) -> (r: Vec<Card>)
    ensures
        r@.len() == v@.len(),
        forall|i: int|
            0 <= i < v@.len() ==> r@[i] == (Card { owner: Some(owner), ..v@[i] }),
{
    let mut out: Vec<Card> = Vec::new();
    for i in 0..v.len()
        invariant
            out@.len() == i,
            forall|j: int|
                0 <= j < i ==> out@[j] == (Card { owner: Some(owner), ..v@[j] }),
    {
        let c = v[i];
        out.push(Card { kind: c.kind, color: c.color, owner: Some(owner) });
    }
    out
}

impl Game {
    /// The invariant only looks at the shape of the rotation: same
    /// keys, same hand sizes, and an otherwise equal game are as
    /// well-formed as the original.
    proof fn lemma_wf_players_shape(self, other: Game)
        requires
            self.wf(),
            other.players.wf(),
            pairs_wf(other.spectators@),
            other.phase == self.phase,
            other.current_turn == self.current_turn,
            other.deck@ == self.deck@,
            other.placed_deck@ == self.placed_deck@,
            other.draw_stack == self.draw_stack,
            other.block_stack == self.block_stack,
            other.reversed == self.reversed,
            other.players.0@.len() == self.players.0@.len(),
            forall|i: int|
                0 <= i < self.players.0@.len() ==> (#[trigger] other.players.0@[i]).0
                    == self.players.0@[i].0,
            forall|i: int|
                0 <= i < self.players.0@.len() ==> (#[trigger] other.players.0@[i]).1.cards@.len()
                    == self.players.0@[i].1.cards@.len(),
        ensures
            other.wf(),
    {
        lemma_sum_hands_pointwise(other.players.0@, self.players.0@);
        assert(keys_of(other.players.0@) =~= keys_of(self.players.0@));
        assert forall|id: PlayerId|
            has_key(self.players.0@, id) implies has_key(other.players.0@, id) by {
            let i = choose|i: int| 0 <= i < self.players.0@.len() && self.players.0@[i].0 == id;
            assert(other.players.0@[i].0 == id);
        }
    }

    /// Names the joining player, marks them connected, and makes them
    /// the host exactly when they are alone in the room; the host is
    /// told so.
    pub fn init_player(&mut self, id: PlayerId, username: &str)
        requires
            old(self).wf(),
        ensures
            final(self).wf(),
            *final(self) == (Game {
                players: final(self).players,
                outbox: final(self).outbox,
                ..*old(self)
            }),
            !has_key(old(self).players.0@, id) ==> final(self).players.0@ == old(self).players.0@
                && final(self).outbox@ == old(self).outbox@,
            has_key(old(self).players.0@, id) ==> ({
                let i = key_index(old(self).players.0@, id);
                let p0 = old(self).players.0@[i].1;
                let p1 = final(self).players.0@[i].1;
                &&& final(self).players.0@.len() == old(self).players.0@.len()
                &&& forall|j: int|
                    0 <= j < old(self).players.0@.len() && j != i ==> final(self).players.0@[j]
                        == old(self).players.0@[j]
                &&& final(self).players.0@[i].0 == id
                &&& p1.id == p0.id
                &&& p1.cards == p0.cards
                &&& p1.actions == p0.actions
                &&& p1.waiting == p0.waiting
                &&& p1.username@ == username@
                &&& p1.is_connected
                &&& p1.is_host == (old(self).players.0@.len() == 1)
            }),
            has_key(old(self).players.0@, id) && old(self).players.0@.len() == 1 ==> ({
                let delta = appended(old(self).outbox@, final(self).outbox@);
                &&& extends(old(self).outbox@, final(self).outbox@)
                &&& delta.len() == 1
                &&& delta[0].0 == id
                &&& delta[0].1 matches PacketType::Message(s, c) && s@ == "Server"@ && c@
                    == "You are the host"@
            }),
            has_key(old(self).players.0@, id) && old(self).players.0@.len() != 1
                ==> final(self).outbox@ == old(self).outbox@,
    {
        let host = self.players.len() == 1;
        if self.players.contains_key(id) {
            self.players.set_profile(id, username.to_owned(), host);
            proof {
                old(self).lemma_wf_players_shape(*self);
            }
            if host {
                self.emit(
                    id,
                    PacketType::Message("Server".to_owned(), "You are the host".to_owned()),
                );
                proof {
                    assert(final(self).outbox@.subrange(0, old(self).outbox@.len() as int) =~= old(
                        self,
                    ).outbox@);
                }
            }
        }
    }

    /// Rotates the turn to the next player and records them as
    /// current.
    pub fn next_turn(&mut self) -> (r: PlayerId)
        requires
            old(self).players.wf(),
            old(self).players.0@.len() >= 1,
        ensures
            *final(self) == (Game {
                players: final(self).players,
                current_turn: Some(r),
                ..*old(self)
            }),
            final(self).players.0@ == rotated(old(self).players.0@, old(self).reversed),
            r == next_of(keys_of(old(self).players.0@), old(self).reversed),
            final(self).players.wf(),
            old(self).wf() && old(self).phase == Phase::Active ==> final(self).wf(),
    {
        let r = self.players.next_player(self.reversed);
        self.current_turn = Some(r);
        proof {
            lemma_rotated_wf(old(self).players.0@, old(self).reversed);
            let s = old(self).players.0@;
            let rev = old(self).reversed;
            if old(self).wf() && old(self).phase == Phase::Active {
                assert(has_key(s, r)) by {
                    if !rev {
                        assert(s[s.len() - 1].0 == keys_of(s).last());
                    } else {
                        assert(s[0].0 == keys_of(s).first());
                    }
                }
                assert(keys_of(final(self).players.0@) =~= rot_ids(keys_of(s), rev));
                if !rev {
                    assert(keys_of(final(self).players.0@).first() == keys_of(s).last());
                } else {
                    assert(keys_of(final(self).players.0@).last() == keys_of(s).first());
                }
            }
        }
        r
    }

    /// Tells `self_id` their private hand and everyone else the public
    /// view of `self_id`: identity, hand size, and the shared top
    /// card.
    pub fn update_card_status(&mut self, self_id: PlayerId)
        requires
            old(self).players.wf(),
            old(self).placed_deck@.len() >= 1,
            has_key(old(self).players.0@, self_id),
        ensures
            old(self).wf() ==> final(self).wf(),
            same_except_outbox(*final(self), *old(self)),
            extends(old(self).outbox@, final(self).outbox@),
            ({
                let delta = appended(old(self).outbox@, final(self).outbox@);
                let s = old(self).players.0@;
                &&& delta.len() == s.len()
                &&& forall|k: int|
                    0 <= k < delta.len() ==> (#[trigger] delta[k]).0 == keys_of(s)[k]
                &&& forall|k: int|
                    0 <= k < delta.len() && keys_of(s)[k] == self_id ==> ((
                    #[trigger] delta[k]).1 matches PacketType::StatusUpdatePrivate(h, c) && h@
                        == hand_of(*old(self), self_id) && c == top_card(*old(self)))
                &&& forall|k: int|
                    0 <= k < delta.len() && keys_of(s)[k] != self_id ==> ((
                    #[trigger] delta[k]).1 matches PacketType::StatusUpdatePublic(i2, u, m, c)
                        && i2 == self_id && u == player_of(s, self_id).username && m == hand_of(
                        *old(self),
                        self_id,
                    ).len() && c == top_card(*old(self)))
            }),
    {
        let top = self.placed_deck[0];
        let si = self.players.found_position(self_id);
        let n = self.players.0.len();
        let ghost base = self.outbox@;
        for i in 0..n
            invariant
                n == self.players.0@.len(),
                si == key_index(old(self).players.0@, self_id),
                si < n,
                self.players.0@[si as int].0 == self_id,
                top == top_card(*old(self)),
                self.players.0@ == old(self).players.0@,
                self.placed_deck@ == old(self).placed_deck@,
                same_except_outbox(*self, *old(self)),
                self.outbox@.len() == base.len() + i,
                self.outbox@.subrange(0, base.len() as int) == base,
                forall|k: int|
                    0 <= k < i ==> (#[trigger] self.outbox@[base.len() + k]).0 == old(
                        self,
                    ).players.0@[k].0,
                forall|k: int|
                    0 <= k < i && old(self).players.0@[k].0 == self_id ==> ((
                    #[trigger] self.outbox@[base.len() + k]).1 matches
                        PacketType::StatusUpdatePrivate(h, c) && h@ == hand_of(
                        *old(self),
                        self_id,
                    ) && c == top_card(*old(self))),
                forall|k: int|
                    0 <= k < i && old(self).players.0@[k].0 != self_id ==> ((
                    #[trigger] self.outbox@[base.len() + k]).1 matches
                        PacketType::StatusUpdatePublic(i2, u, m, c) && i2 == self_id && u
                        == player_of(old(self).players.0@, self_id).username && m == hand_of(
                        *old(self),
                        self_id,
                    ).len() && c == top_card(*old(self))),
                pairs_wf(old(self).players.0@),
        {
            proof {
                lemma_key_index(old(self).players.0@, self_id, si as int);
            }
            let key = self.players.0[i].0;
            if key == self_id {
                let hand = copy_cards(&self.players.0[si].1.cards);
                self.outbox.push((key, PacketType::StatusUpdatePrivate(hand, top)));
            } else {
                let u = self.players.0[si].1.username.clone();
                let m = self.players.0[si].1.cards.len();
                self.outbox.push((key, PacketType::StatusUpdatePublic(self_id, u, m, top)));
            }
            proof {
                assert(self.outbox@.subrange(0, base.len() as int) =~= base);
            }
        }
        proof {
            let ob = final(self).outbox@;
            let delta = appended(base, ob);
            assert(delta.len() == old(self).players.0@.len());
            assert forall|k: int|
                0 <= k < delta.len() implies (#[trigger] delta[k]) == ob[base.len() + k] by {}
        }
    }

    /// Computes and sends `self_id` the set of cards they may place
    /// right now, judged for the player who holds the turn.
    pub fn update_allowed_status(&mut self, self_id: PlayerId)
        requires
            old(self).players.wf(),
            old(self).placed_deck@.len() >= 1,
            old(self).current_turn.is_some(),
            has_key(old(self).players.0@, self_id),
        ensures
            old(self).wf() ==> final(self).wf(),
            same_except_outbox(*final(self), *old(self)),
            extends(old(self).outbox@, final(self).outbox@),
            ({
                let delta = appended(old(self).outbox@, final(self).outbox@);
                &&& delta.len() == 1
                &&& delta[0].0 == self_id
                &&& delta[0].1 matches PacketType::AllowedCardsUpdate(h) && h@ == legal_subset(
                    top_card(*old(self)),
                    hand_of(*old(self), self_id),
                    old(self).current_turn.unwrap(),
                )
            }),
    {
        let top = self.placed_deck[0];
        let si = self.players.found_position(self_id);
        let hand = copy_cards(&self.players.0[si].1.cards);
        let cur = match self.current_turn {
            Some(c) => c,
            None => {
                proof {
                    assert(false);
                }
                0
            },
        };
        let allowed = Card::get_allowed_cards(top, hand, cur);
        self.emit(self_id, PacketType::AllowedCardsUpdate(allowed));
        proof {
            assert(final(self).outbox@.subrange(0, old(self).outbox@.len() as int) =~= old(
                self,
            ).outbox@);
        }
    }

    /// Draws `count` cards for `owner`: the cards come off the draw
    /// pile (recycling the discard history as needed), become owned by
    /// `owner`, join their hand, and one DrawCard action is recorded.
    /// When fewer than `count` cards exist outside the top card, the
    /// request is rejected and nothing changes.
    pub fn draw_cards(&mut self, count: usize, owner: PlayerId)
        requires
            old(self).players.wf(),
            old(self).placed_deck@.len() >= 1,
            old(self).deck@.len() + old(self).placed_deck@.len() <= usize::MAX,
            has_key(old(self).players.0@, owner),
        ensures
            final(self).players.wf(),
            old(self).wf() && old(self).phase == Phase::Active ==> final(self).wf(),
            count > old(self).deck@.len() + old(self).placed_deck@.len() - 1 ==> ({
                let delta = appended(old(self).outbox@, final(self).outbox@);
                &&& same_except_outbox(*final(self), *old(self))
                &&& extends(old(self).outbox@, final(self).outbox@)
                &&& delta.len() == 1
                &&& delta[0].0 == owner
                &&& delta[0].1 matches PacketType::Error(c, _) && c == 400
            }),
            count <= old(self).deck@.len() + old(self).placed_deck@.len() - 1 ==> ({
                let i = key_index(old(self).players.0@, owner);
                let p0 = old(self).players.0@[i].1;
                let p1 = final(self).players.0@[i].1;
                &&& final(self).phase == old(self).phase
                &&& final(self).id == old(self).id
                &&& final(self).current_turn == old(self).current_turn
                &&& final(self).reversed == old(self).reversed
                &&& final(self).draw_stack == old(self).draw_stack
                &&& final(self).block_stack == old(self).block_stack
                &&& final(self).spectators == old(self).spectators
                &&& final(self).outbox@ == old(self).outbox@
                &&& final(self).players.0@.len() == old(self).players.0@.len()
                &&& forall|j: int|
                    0 <= j < old(self).players.0@.len() && j != i ==> final(self).players.0@[j]
                        == old(self).players.0@[j]
                &&& final(self).players.0@[i].0 == owner
                &&& p1.id == p0.id
                &&& p1.username == p0.username
                &&& p1.is_connected == p0.is_connected
                &&& p1.is_host == p0.is_host
                &&& p1.waiting == p0.waiting
                &&& p1.actions@ == p0.actions@.push(Actions::DrawCard)
                &&& p1.cards@.len() == p0.cards@.len() + count
                &&& p1.cards@.subrange(0, p0.cards@.len() as int) == p0.cards@
                &&& forall|j: int|
                    p0.cards@.len() <= j < p1.cards@.len() ==> (
                    #[trigger] p1.cards@[j]).owner == Some(owner)
                &&& final(self).placed_deck@.len() >= 1
                &&& final(self).placed_deck@[0] == old(self).placed_deck@[0]
                &&& final(self).deck@.len() + final(self).placed_deck@.len() + count == old(
                    self,
                ).deck@.len() + old(self).placed_deck@.len()
                &&& final(self).statistics == (GameStatistics {
                    cards_drawn: bumped_n(old(self).statistics.cards_drawn, count as nat),
                    ..old(self).statistics
                })
                &&& (count <= old(self).deck@.len() ==> {
                    &&& final(self).deck@ == old(self).deck@.subrange(
                        count as int,
                        old(self).deck@.len() as int,
                    )
                    &&& final(self).placed_deck@ == old(self).placed_deck@
                    &&& forall|j: int|
                        0 <= j < count ==> #[trigger] p1.cards@[p0.cards@.len() + j] == (Card {
                            owner: Some(owner),
                            ..old(self).deck@[j]
                        })
                })
            }),
    {
        proof {
            lemma_sum_hands_nonneg(self.players.0@);
        }
        let avail = self.deck.len() + (self.placed_deck.len() - 1);
        if count > avail {
            self.emit_error(owner, 400, "Not enough cards left to draw");
            return ;
        }
        let drawn = match draw_from(&mut self.deck, &mut self.placed_deck, count) {
            Some(d) => d,
            None => {
                proof {
                    assert(false);
                }
                Vec::new()
            },
        };
        let owned = own_cards(drawn, owner);
        let ghost mid = *self;
        for i in 0..count
            invariant
                *self == (Game { statistics: self.statistics, ..mid }),
                self.statistics == (GameStatistics {
                    cards_drawn: bumped_n(mid.statistics.cards_drawn, i as nat),
                    ..mid.statistics
                }),
        {
            self.statistics.card_drawn();
        }
        proof {
            let s = old(self).players.0@;
            assert(has_key(s, owner));
            let i = key_index(s, owner);
            assert(0 <= i < s.len() && s[i].0 == owner);
        }
        self.players.add_cards(owner, owned);
        self.players.push_action(owner, Actions::DrawCard);
        proof {
            let s = old(self).players.0@;
            let i = key_index(s, owner);
            lemma_sum_hands_update(s, i, final(self).players.0@[i]);
            assert(final(self).players.0@ =~= s.update(i, final(self).players.0@[i]));
            assert(final(self).players.0@[i].1.cards@.subrange(
                0,
                s[i].1.cards@.len() as int,
            ) =~= s[i].1.cards@);
            // the shape of the rotation is unchanged, so the invariant survives
            assert(keys_of(final(self).players.0@) =~= keys_of(s));
            assert forall|id: PlayerId|
                has_key(s, id) implies has_key(final(self).players.0@, id) by {
                let j = choose|j: int| 0 <= j < s.len() && s[j].0 == id;
                assert(final(self).players.0@[j].0 == id);
            }
        }
    }
}

/// A penalty stack stepped by `base`: the first counter-stack doubles
/// the base penalty, later ones add it again; the counter sticks at
/// the maximum machine value.
pub open spec fn stack_bump(stack: int, base: int) -> int {
    if stack == 0 {
        2 * base
    } else if stack + base <= usize::MAX {
        stack + base
    } else {
        stack
    }
}

/// The draw stack after placing `c`: it escalates when `c` re-covers a
/// draw rank, and resets otherwise.
pub open spec fn place_draw_stack(g: Game, c: Card) -> int {
    if c.kind == top_card(g).kind && is_draw_kind(top_card(g).kind) {
        stack_bump(g.draw_stack as int, draw_base(top_card(g).kind))
    } else {
        0
    }
}

/// The block stack after placing `c`: it escalates when `c` re-covers
/// a Block of the same pending holder, and resets otherwise.
pub open spec fn place_block_stack(g: Game, c: Card) -> int {
    if c.kind == top_card(g).kind && top_card(g).kind == Type::Block && c.owner == top_card(
        g,
    ).owner {
        stack_bump(g.block_stack as int, 1)
    } else {
        0
    }
}

/// Whether `place_card` accepts hand position `index` for player `id`.
pub open spec fn place_accepts(g: Game, index: int, id: PlayerId) -> bool {
    &&& 0 <= index < hand_of(g, id).len()
    &&& card_allowed(top_card(g), hand_of(g, id)[index], id)
}

impl Game {
    /// Places the card at hand position `index` for player `id`: the
    /// card becomes the new top of the discard pile with `id` as its
    /// pending holder, the penalty stacks escalate or reset, and a
    /// PlaceCard action is recorded. An out-of-range index or a card
    /// outside the legal set is rejected and nothing changes.
    pub fn place_card(&mut self, index: usize, id: PlayerId)
        requires
            old(self).wf(),
            old(self).phase == Phase::Active,
            old(self).current_turn == Some(id),
        ensures
            final(self).wf(),
            !place_accepts(*old(self), index as int, id) ==> ({
                let delta = appended(old(self).outbox@, final(self).outbox@);
                &&& same_except_outbox(*final(self), *old(self))
                &&& extends(old(self).outbox@, final(self).outbox@)
                &&& delta.len() == 1
                &&& delta[0].0 == id
                &&& (delta[0].1 matches PacketType::Error(c, _) && c == 400)
            }),
            place_accepts(*old(self), index as int, id) ==> ({
                let i = key_index(old(self).players.0@, id);
                let p0 = old(self).players.0@[i].1;
                let p1 = final(self).players.0@[i].1;
                let c = hand_of(*old(self), id)[index as int];
                &&& final(self).phase == old(self).phase
                &&& final(self).id == old(self).id
                &&& final(self).current_turn == old(self).current_turn
                &&& final(self).reversed == old(self).reversed
                &&& final(self).spectators == old(self).spectators
                &&& final(self).outbox@ == old(self).outbox@
                &&& final(self).deck@ == old(self).deck@
                &&& final(self).placed_deck@ == old(self).placed_deck@.insert(
                    0,
                    (Card { owner: Some(id), ..c }),
                )
                &&& final(self).draw_stack == place_draw_stack(*old(self), c)
                &&& final(self).block_stack == place_block_stack(*old(self), c)
                &&& final(self).players.0@.len() == old(self).players.0@.len()
                &&& forall|j: int|
                    0 <= j < old(self).players.0@.len() && j != i ==> final(self).players.0@[j]
                        == old(self).players.0@[j]
                &&& final(self).players.0@[i].0 == id
                &&& p1.id == p0.id
                &&& p1.username == p0.username
                &&& p1.is_connected == p0.is_connected
                &&& p1.is_host == p0.is_host
                &&& p1.waiting == p0.waiting
                &&& p1.actions@ == p0.actions@.push(Actions::PlaceCard)
                &&& p1.cards@ == p0.cards@.remove(index as int)
                &&& final(self).statistics == (GameStatistics {
                    cards_placed: bumped_counter(old(self).statistics.cards_placed),
                    ..old(self).statistics
                })
            }),
    {
        let si = self.players.found_position(id);
        if index >= self.players.0[si].1.cards.len() {
            self.emit_error(id, 400, "Card index out of range");
            return ;
        }
        let top = self.placed_deck[0];
        let c = self.players.0[si].1.cards[index];
        if !card_is_allowed(&top, &c, id) {
            self.emit_error(id, 400, "You cannot place this card");
            return ;
        }
        // stacked draw cards escalate the pending penalty
        if c.kind == top.kind && kind_is_draw(&top.kind) {
            let base: usize = if top.kind == Type::DrawFour {
                4
            } else {
                2
            };
            self.draw_stack = if self.draw_stack == 0 {
                base * 2
            } else if self.draw_stack <= usize::MAX - base {
                self.draw_stack + base
            } else {
                self.draw_stack
            };
        } else {
            self.draw_stack = 0;
        }
        // stacked block cards of the same pending holder escalate too
        if c.kind == top.kind && top.kind == Type::Block && opt_id_eq(&c.owner, &top.owner) {
            self.block_stack = if self.block_stack == 0 {
                2
            } else if self.block_stack <= usize::MAX - 1 {
                self.block_stack + 1
            } else {
                self.block_stack
            };
        } else {
            self.block_stack = 0;
        }
        self.players.push_action(id, Actions::PlaceCard);
        let removed = self.players.remove_card(id, index);
        self.placed_deck.insert(0, Card { kind: removed.kind, color: removed.color, owner: Some(
            id,
        ) });
        self.statistics.card_placed();
        proof {
            let s = old(self).players.0@;
            let i = key_index(s, id);
            assert(has_key(s, id));
            assert(0 <= i < s.len() && s[i].0 == id);
            lemma_sum_hands_update(s, i, final(self).players.0@[i]);
            assert(final(self).players.0@ =~= s.update(i, final(self).players.0@[i]));
            assert(keys_of(final(self).players.0@) =~= keys_of(s));
            assert forall|pid: PlayerId|
                has_key(s, pid) implies has_key(final(self).players.0@, pid) by {
                let j = choose|j: int| 0 <= j < s.len() && s[j].0 == pid;
                assert(final(self).players.0@[j].0 == pid);
            }
        }
    }

    /// Replaces a wild top card with the same rank and pending holder
    /// in the chosen color, telling every player; on a non-wild top
    /// card the request is rejected and nothing changes.
    pub fn switch_color(&mut self, color: Color)
        requires
            old(self).wf(),
            old(self).phase == Phase::Active,
        ensures
            final(self).wf(),
            is_wild(top_card(*old(self)).kind) ==> ({
                let delta = appended(old(self).outbox@, final(self).outbox@);
                let top = top_card(*old(self));
                &&& *final(self) == (Game {
                    placed_deck: final(self).placed_deck,
                    outbox: final(self).outbox,
                    ..*old(self)
                })
                &&& final(self).placed_deck@ == old(self).placed_deck@.update(
                    0,
                    (Card { color: Some(color), ..top }),
                )
                &&& extends(old(self).outbox@, final(self).outbox@)
                &&& delta.len() == old(self).players.0@.len()
                &&& forall|k: int|
                    0 <= k < delta.len() ==> (#[trigger] delta[k]).0 == keys_of(
                        old(self).players.0@,
                    )[k] && (delta[k].1 matches PacketType::Message(s, c) && s@ == "Server"@ && c@
                        == "Switched color to "@ + color_label(color))
            }),
            !is_wild(top_card(*old(self)).kind) ==> ({
                let delta = appended(old(self).outbox@, final(self).outbox@);
                &&& same_except_outbox(*final(self), *old(self))
                &&& extends(old(self).outbox@, final(self).outbox@)
                &&& delta.len() == 1
                &&& delta[0].0 == old(self).current_turn.unwrap()
                &&& (delta[0].1 matches PacketType::Error(c, _) && c == 400)
            }),
    {
        let top = self.placed_deck[0];
        if kind_is_wild(&top.kind) {
            let msg = "Switched color to ".to_owned().concat(color.name());
            self.broadcast(PacketType::Message("Server".to_owned(), msg));
            let replaced = self.placed_deck.remove(0);
            self.placed_deck.insert(0, Card::new_with_owner(replaced.kind, Some(color),
                replaced.owner));
            proof {
                assert(final(self).placed_deck@ =~= old(self).placed_deck@.update(
                    0,
                    (Card { color: Some(color), ..top_card(*old(self)) }),
                ));
            }
        } else {
            let cur = match self.current_turn {
                Some(c) => c,
                None => {
                    proof {
                        assert(false);
                    }
                    0
                },
            };
            self.emit_error(cur, 400, "The top card's color cannot be switched");
        }
    }

    /// Hands the turn to the next player: rotates, announces the turn
    /// and the predicted player after it, and sends the new current
    /// player their legal cards.
    pub fn give_turn(&mut self)
        requires
            old(self).players.wf(),
            pairs_wf(old(self).spectators@),
            old(self).phase == Phase::Active,
            old(self).players.0@.len() >= 2,
            old(self).placed_deck@.len() >= 1,
            total_cards(*old(self)) == DECK_SIZE,
        ensures
            final(self).wf(),
            ({
                let ks = keys_of(old(self).players.0@);
                let rev = old(self).reversed;
                let cur = next_of(ks, rev);
                let nxt = next_of(rot_ids(ks, rev), rev);
                let n = old(self).players.0@.len() as int;
                let delta = appended(old(self).outbox@, final(self).outbox@);
                &&& *final(self) == (Game {
                    players: final(self).players,
                    current_turn: Some(cur),
                    outbox: final(self).outbox,
                    ..*old(self)
                })
                &&& final(self).players.0@ == rotated(old(self).players.0@, rev)
                &&& final(self).current_turn == Some(cur)
                &&& extends(old(self).outbox@, final(self).outbox@)
                &&& delta.len() == n + 2
                &&& delta[0].0 == cur
                &&& (delta[0].1 matches PacketType::Message(s, c) && s@ == "Server"@ && c@
                    == "Your turn"@)
                &&& forall|k: int|
                    0 <= k < n ==> (#[trigger] delta[1 + k]).0 == rot_ids(ks, rev)[k]
                        && delta[1 + k].1 == PacketType::TurnUpdate(cur, nxt)
                &&& delta[n + 1].0 == cur
                &&& (delta[n + 1].1 matches PacketType::AllowedCardsUpdate(h) && h@
                    == legal_subset(
                    top_card(*old(self)),
                    player_of(old(self).players.0@, cur).cards@,
                    cur,
                ))
            }),
    {
        let ghost g0 = *old(self);
        let cur = self.next_turn();
        self.emit(cur, PacketType::Message("Server".to_owned(), "Your turn".to_owned()));
        let ghost g1 = *self;
        let nxt = self.players.predict_next(self.reversed);
        self.broadcast(PacketType::TurnUpdate(cur, nxt));
        let ghost g2 = *self;
        proof {
            lemma_rotated_wf(g0.players.0@, g0.reversed);
            let s = g0.players.0@;
            if !g0.reversed {
                assert(s[s.len() - 1].0 == keys_of(s).last());
            } else {
                assert(s[0].0 == keys_of(s).first());
            }
            assert(has_key(s, cur));
            assert(has_key(g2.players.0@, cur));
            assert(g2.players.wf());
        }
        self.update_allowed_status(cur);
        proof {
            let s = g0.players.0@;
            let rev = g0.reversed;
            assert(final(self).wf()) by {
                lemma_rotated_wf(s, rev);
                assert(keys_of(final(self).players.0@) =~= rot_ids(keys_of(s), rev));
                if !rev {
                    assert(keys_of(final(self).players.0@).first() == keys_of(s).last());
                } else {
                    assert(keys_of(final(self).players.0@).last() == keys_of(s).first());
                }
                assert(sum_hands(final(self).players.0@) == sum_hands(s));
            }
        }
        proof {
            let base = g0.outbox@;
            let ob = final(self).outbox@;
            lemma_rotated_wf(g0.players.0@, g0.reversed);
            assert(player_of(g2.players.0@, cur) == player_of(g0.players.0@, cur));
            assert(extends(base, g1.outbox@)) by {
                assert(g1.outbox@.subrange(0, base.len() as int) =~= base);
            }
            lemma_extends_trans(base, g1.outbox@, g2.outbox@);
            lemma_extends_trans(base, g2.outbox@, ob);
            assert(ob.subrange(0, base.len() as int) =~= base);
            let delta = appended(base, ob);
            let n = g0.players.0@.len() as int;
            assert(delta[0] == ob[base.len() as int]);
            assert(ob[base.len() as int] == g1.outbox@[base.len() as int]);
            assert forall|k: int|
                0 <= k < n implies (#[trigger] delta[1 + k]).0 == rot_ids(
                keys_of(g0.players.0@),
                g0.reversed,
            )[k] && delta[1 + k].1 == PacketType::TurnUpdate(cur, nxt) by {
                let d2 = appended(g1.outbox@, g2.outbox@);
                assert(d2[k] == g2.outbox@[g1.outbox@.len() + k]);
                assert(delta[1 + k] == ob[base.len() + 1 + k]);
                assert(ob[base.len() + 1 + k] == g2.outbox@[base.len() + 1 + k]);
                assert(keys_of(g1.players.0@)[k] == rot_ids(
                    keys_of(g0.players.0@),
                    g0.reversed,
                )[k]);
                assert(pkt_eq(d2[k].1, PacketType::TurnUpdate(cur, nxt)));
                assert(d2[k].1 == PacketType::TurnUpdate(cur, nxt)) by {
                    if !(d2[k].1 matches PacketType::TurnUpdate(_, _)) {
                        assert(false);
                    }
                }
            }
            assert(delta[n + 1] == ob[base.len() + n + 1]);
        }
    }
}

/// Somewhere past position `lo`, the queue holds `id`'s private view
/// of the game `g`: their own hand and the top of the discard pile.
pub open spec fn private_status_queued(
    ob: Seq<(PlayerId, PacketType)>,
    lo: int,
    g: Game,
    id: PlayerId,
) -> bool {
    exists|k: int|
        lo <= k < ob.len() && (#[trigger] ob[k]).0 == id && (ob[k].1 matches
            PacketType::StatusUpdatePrivate(h, c) && h@ == hand_of(g, id) && c
            == g.placed_deck@[0])
}

/// Somewhere past position `lo`, the queue tells `id` that `cur` holds
/// the turn.
pub open spec fn turn_update_queued(
    ob: Seq<(PlayerId, PacketType)>,
    lo: int,
    cur: PlayerId,
    id: PlayerId,
) -> bool {
    exists|k: int|
        lo <= k < ob.len() && (#[trigger] ob[k]).0 == id && (ob[k].1 matches
            PacketType::TurnUpdate(a, _) && a == cur)
}

/// A rotation step keeps the same identifiers.
pub proof fn lemma_rot_ids_contains(s: Seq<PlayerId>, rev: bool, x: PlayerId)
    requires
        s.len() >= 1,
    ensures
        rot_ids(s, rev).contains(x) <==> s.contains(x),
{
    let r = rot_ids(s, rev);
    if s.contains(x) {
        let i = choose|i: int| 0 <= i < s.len() && s[i] == x;
        if !rev {
            if i == s.len() - 1 {
                assert(r[0] == x);
            } else {
                assert(r[i + 1] == x);
            }
        } else {
            if i == 0 {
                assert(r[r.len() - 1] == x);
            } else {
                assert(r[i - 1] == x);
            }
        }
    }
    if r.contains(x) {
        let i = choose|i: int| 0 <= i < r.len() && r[i] == x;
        if !rev {
            if i == 0 {
                assert(s[s.len() - 1] == x);
            } else {
                assert(s[i - 1] == x);
            }
        } else {
            if i == r.len() - 1 {
                assert(s[0] == x);
            } else {
                assert(s[i + 1] == x);
            }
        }
    }
}

/// Many rotation steps keep the same identifiers, and the length.
pub proof fn lemma_rot_ids_n_contains(s: Seq<PlayerId>, rev: bool, n: nat, x: PlayerId)
    requires
        s.len() >= 1,
    ensures
        rot_ids_n(s, rev, n).len() == s.len(),
        rot_ids_n(s, rev, n).contains(x) <==> s.contains(x),
    decreases n,
{
    if n > 0 {
        lemma_rot_ids_contains(s, rev, x);
        lemma_rot_ids_n_contains(rot_ids(s, rev), rev, (n - 1) as nat, x);
    }
}

/// The final standings: `order` ranks every player once, the winner
/// first, the rest by ascending hand size (ties in no promised
/// order), and `st` lists the usernames of everyone but the winner in
/// that rank order.
pub open spec fn standings_order_ok(
    order: Seq<PlayerId>,
    s: Seq<(PlayerId, Player)>,
    wid: PlayerId,
    st: Seq<String>,
) -> bool {
    &&& order.len() == s.len()
    &&& order.len() >= 1
    &&& order[0] == wid
    &&& forall|a: int, b: int| 0 <= a < b < order.len() ==> order[a] != order[b]
    &&& forall|k: int| 0 <= k < order.len() ==> has_key(s, #[trigger] order[k])
    &&& forall|k1: int, k2: int|
        0 <= k1 < k2 < order.len() ==> player_of(s, #[trigger] order[k1]).cards@.len()
            <= player_of(s, #[trigger] order[k2]).cards@.len()
    &&& st.len() == order.len() - 1
    &&& forall|m: int|
        0 <= m < st.len() ==> #[trigger] st[m] == player_of(s, order[m + 1]).username
}

/// One delivery of the final results: every player is told the winner,
/// the standings of the others by ascending hand size, and the frozen
/// statistics.
pub open spec fn win_broadcast_ok(
    delta: Seq<(PlayerId, PacketType)>,
    s: Seq<(PlayerId, Player)>,
    stats: GameStatistics,
    wid: PlayerId,
) -> bool {
    &&& has_key(s, wid)
    &&& forall|id: PlayerId|
        has_key(s, id) ==> player_of(s, wid).cards@.len() <= player_of(s, id).cards@.len()
    &&& delta.len() == s.len()
    &&& forall|k: int|
        0 <= k < delta.len() ==> (#[trigger] delta[k]).0 == keys_of(s)[k] && (delta[k].1 matches
            PacketType::WinUpdate(w, u, st, t) && w == wid && u == player_of(s, wid).username
            && t == stats && (exists|order: Seq<PlayerId>|
            standings_order_ok(order, s, wid, st@)))
}

impl Game {
    /// Closes the game on a win: freezes the statistics, computes the
    /// standings by ascending hand size, tells every player, and
    /// enters the terminal state.
    pub fn end(&mut self)
        requires
            old(self).players.wf(),
            old(self).players.0@.len() >= 1,
            pairs_wf(old(self).spectators@),
        ensures
            final(self).wf(),
            *final(self) == (Game {
                phase: Phase::Ended,
                current_turn: None::<PlayerId>,
                statistics: final(self).statistics,
                outbox: final(self).outbox,
                ..*old(self)
            }),
            final(self).statistics.end_time.is_some(),
            final(self).statistics == (GameStatistics {
                end_time: final(self).statistics.end_time,
                player_count: old(self).players.0@.len() as usize,
                ..old(self).statistics
            }),
            extends(old(self).outbox@, final(self).outbox@),
            exists|wid: PlayerId|
                win_broadcast_ok(
                    appended(old(self).outbox@, final(self).outbox@),
                    old(self).players.0@,
                    final(self).statistics,
                    wid,
                ),
    {
        self.statistics.game_ended();
        self.statistics.player_count = self.players.len();
        let placements = self.players.sort_by_cards();
        let winner_id = placements[0].id;
        let winner_name = placements[0].username.clone();
        let mut standings: Vec<String> = Vec::new();
        for j in 1..placements.len()
            invariant
                standings@.len() == j - 1,
                placements@.len() >= 1,
                forall|m: int|
                    0 <= m < standings@.len() ==> #[trigger] standings@[m] == placements@[m
                        + 1].username,
        {
            standings.push(placements[j].username.clone());
            proof {
                assert(standings@.last() == placements@[j as int].username);
            }
        }
        let p = PacketType::WinUpdate(winner_id, winner_name, standings, self.statistics);
        self.broadcast(p);
        self.phase = Phase::Ended;
        self.current_turn = None;
        proof {
            let s = old(self).players.0@;
            let delta = appended(old(self).outbox@, final(self).outbox@);
            assert forall|id: PlayerId|
                has_key(s, id) implies player_of(s, winner_id).cards@.len() <= player_of(
                s,
                id,
            ).cards@.len() by {
                let k = choose|k: int| 0 <= k < placements@.len() && placements@[k].id == id;
                assert(placements@[0].cards@.len() <= placements@[k].cards@.len());
            }
            // the ranking the packet reports: the sorted players' identifiers
            let order = Seq::new(placements@.len() as nat, |k: int| placements@[k].id);
            assert(standings_order_ok(order, s, winner_id, standings@)) by {
                assert forall|k1: int, k2: int|
                    0 <= k1 < k2 < order.len() implies player_of(
                    s,
                    #[trigger] order[k1],
                ).cards@.len() <= player_of(s, #[trigger] order[k2]).cards@.len() by {
                    assert(player_matches(placements@[k1], player_of(s, placements@[k1].id)));
                    assert(player_matches(placements@[k2], player_of(s, placements@[k2].id)));
                }
                assert forall|m: int|
                    0 <= m < standings@.len() implies #[trigger] standings@[m] == player_of(
                    s,
                    order[m + 1],
                ).username by {
                    assert(player_matches(placements@[m + 1], player_of(
                        s,
                        placements@[m + 1].id,
                    )));
                }
            }
            assert(win_broadcast_ok(delta, s, final(self).statistics, winner_id));
        }
    }

    /// Starts the game: seeds the discard pile with a number card,
    /// deals eight cards to every player, and gives the first turn.
    /// With more players than one deck can serve, the start is
    /// rejected and the room keeps waiting.
    pub fn start(&mut self)
        requires
            old(self).wf(),
            old(self).phase == Phase::Waiting,
            old(self).players.0@.len() >= 2,
        ensures
            final(self).wf(),
            old(self).players.0@.len() > 13 ==> ({
                let delta = appended(old(self).outbox@, final(self).outbox@);
                &&& same_except_outbox(*final(self), *old(self))
                &&& extends(old(self).outbox@, final(self).outbox@)
                &&& delta.len() == old(self).players.0@.len()
                &&& forall|k: int|
                    0 <= k < delta.len() ==> (#[trigger] delta[k]).0 == keys_of(
                        old(self).players.0@,
                    )[k] && (delta[k].1 matches PacketType::Error(c, _) && c == 400)
            }),
            old(self).players.0@.len() <= 13 ==> ({
                let ks = keys_of(old(self).players.0@);
                let n = old(self).players.0@.len() as int;
                let fni = first_number_index(old(self).deck@);
                let deck1 = old(self).deck@.remove(fni);
                let cur = ks.last();
                let delta = appended(old(self).outbox@, final(self).outbox@);
                &&& final(self).phase == Phase::Active
                &&& final(self).id == old(self).id
                &&& final(self).spectators == old(self).spectators
                &&& !final(self).reversed
                &&& final(self).draw_stack == 0
                &&& final(self).block_stack == 0
                &&& final(self).placed_deck@ =~= seq![old(self).deck@[fni]]
                &&& is_number(old(self).deck@[fni].kind)
                &&& final(self).deck@ == deck1.subrange(8 * n, deck1.len() as int)
                &&& final(self).current_turn == Some(cur)
                &&& keys_of(final(self).players.0@) == rot_ids(ks, false)
                &&& forall|j: int|
                    0 <= j < n ==> hand_of(*final(self), ks[j]).len() == 8
                &&& forall|j: int, j2: int|
                    0 <= j < n && 0 <= j2 < 8 ==> #[trigger] hand_of(*final(self), ks[j])[j2]
                        == (Card { owner: Some(ks[j]), ..deck1[8 * j + j2] })
                &&& final(self).statistics.start_time.is_some()
                &&& final(self).statistics == (GameStatistics {
                    start_time: final(self).statistics.start_time,
                    cards_drawn: bumped_n(old(self).statistics.cards_drawn, (8 * n) as nat),
                    ..old(self).statistics
                })
                &&& extends(old(self).outbox@, final(self).outbox@)
                &&& forall|k: int|
                    0 <= k < delta.len() ==> !((#[trigger] delta[k]).1 matches PacketType::Error(
                        _,
                        _,
                    ))
                &&& forall|j: int|
                    #![trigger ks[j]]
                    0 <= j < n ==> private_status_queued(
                        final(self).outbox@,
                        old(self).outbox@.len() as int,
                        *final(self),
                        ks[j],
                    )
                &&& forall|j: int|
                    #![trigger ks[j]]
                    0 <= j < n ==> turn_update_queued(
                        final(self).outbox@,
                        old(self).outbox@.len() as int,
                        cur,
                        ks[j],
                    )
            }),
    {
        let n = self.players.len();
        if n > 13 {
            self.broadcast(
                PacketType::Error(400, "Too many players to deal a full hand each".to_owned()),
            );
            proof {
                let base = old(self).outbox@;
                let ob = final(self).outbox@;
                let delta = appended(base, ob);
                assert forall|k: int|
                    0 <= k < delta.len() implies ((#[trigger] delta[k]).1 matches
                    PacketType::Error(c, _) && c == 400) by {
                    assert(delta[k] == ob[base.len() + k]);
                }
            }
            return ;
        }
        let start_card = match Card::get_allowed_start_card(&mut self.deck) {
            Some(c) => c,
            None => {
                proof {
                    assert(false);
                }
                Card::new(Type::Zero, None)
            },
        };
        self.placed_deck.insert(0, start_card);
        self.phase = Phase::Active;
        let ghost g1 = *self;
        let ghost ks = keys_of(old(self).players.0@);
        let ghost deck1 = old(self).deck@.remove(first_number_index(old(self).deck@));
        let ids = self.players.keys_mut();
        proof {
            lemma_sum_hands_zero(self.players.0@);
            assert(self.outbox@.subrange(0, old(self).outbox@.len() as int) =~= old(self).outbox@);
            assert(self.deck@ =~= deck1.subrange(0, deck1.len() as int));
        }
        for j in 0..n
            invariant
                n == ids@.len(),
                n == self.players.0@.len(),
                2 <= n <= 13,
                ids@ == ks,
                ks == keys_of(old(self).players.0@),
                deck1 == old(self).deck@.remove(first_number_index(old(self).deck@)),
                deck1.len() == 107,
                self.phase == Phase::Active,
                self.id == old(self).id,
                self.spectators == old(self).spectators,
                pairs_wf(self.spectators@),
                !self.reversed,
                self.draw_stack == 0,
                self.block_stack == 0,
                self.current_turn.is_none(),
                self.players.wf(),
                self.placed_deck@ == g1.placed_deck@,
                self.placed_deck@.len() == 1,
                self.deck@ == deck1.subrange(8 * j, deck1.len() as int),
                keys_of(self.players.0@) == ks,
                forall|j1: int|
                    0 <= j1 < j ==> hand_of(*self, ks[j1]).len() == 8,
                forall|j1: int, j2: int|
                    0 <= j1 < j && 0 <= j2 < 8 ==> #[trigger] hand_of(*self, ks[j1])[j2] == (Card {
                        owner: Some(ks[j1]),
                        ..deck1[8 * j1 + j2]
                    }),
                forall|j1: int|
                    j <= j1 < n ==> (#[trigger] self.players.0@[j1]).1.cards@.len() == 0,
                sum_hands(self.players.0@) == 8 * j,
                self.statistics == (GameStatistics {
                    cards_drawn: bumped_n(old(self).statistics.cards_drawn, (8 * j) as nat),
                    ..old(self).statistics
                }),
                extends(old(self).outbox@, self.outbox@),
                forall|k: int|
                    old(self).outbox@.len() <= k < self.outbox@.len() ==> !((
                    #[trigger] self.outbox@[k]).1 matches PacketType::Error(_, _)),
                forall|j1: int| #![trigger ks[j1]]
                    0 <= j1 < j ==> private_status_queued(
                        self.outbox@,
                        old(self).outbox@.len() as int,
                        *self,
                        ks[j1],
                    ),
        {
            let id = ids[j];
            proof {
                assert(keys_of(self.players.0@)[j as int] == self.players.0@[j as int].0);
                assert(self.players.0@[j as int].0 == id);
                assert(has_key(self.players.0@, id));
            }
            let ghost pre = *self;
            self.draw_cards(8, id);
            proof {
                let s = pre.players.0@;
                lemma_key_index(s, id, j as int);
                let p1 = self.players.0@[j as int].1;
                assert(self.deck@ =~= deck1.subrange(8 * (j + 1) as int, deck1.len() as int));
                assert(keys_of(self.players.0@) =~= ks);
                assert(hand_of(*self, id) == p1.cards@) by {
                    lemma_key_index(self.players.0@, id, j as int);
                }
                assert(p1.cards@.len() == 8);
                assert forall|j2: int| 0 <= j2 < 8 implies #[trigger] hand_of(*self, id)[j2]
                    == (Card { owner: Some(id), ..deck1[8 * (j as int) + j2] }) by {
                    assert(p1.cards@[0 + j2] == (Card { owner: Some(id), ..pre.deck@[j2] }));
                    assert(pre.deck@[j2] == deck1[8 * (j as int) + j2]);
                }
                assert forall|j1: int| 0 <= j1 < j implies hand_of(*self, ks[j1]).len() == 8
                    && (forall|j2: int|
                    0 <= j2 < 8 ==> #[trigger] hand_of(*self, ks[j1])[j2] == (Card {
                        owner: Some(ks[j1]),
                        ..deck1[8 * j1 + j2]
                    })) by {
                    lemma_key_index(s, ks[j1], j1);
                    lemma_key_index(self.players.0@, ks[j1], j1);
                    assert(self.players.0@[j1] == s[j1]);
                }
                lemma_bumped_n_add(old(self).statistics.cards_drawn, (8 * j) as nat, 8);
                lemma_sum_hands_update(s, j as int, self.players.0@[j as int]);
                assert(self.players.0@ =~= s.update(j as int, self.players.0@[j as int]));
            }
            let ghost pre2 = *self;
            self.update_card_status(id);
            proof {
                let base = old(self).outbox@;
                lemma_extends_trans(base, pre2.outbox@, self.outbox@);
                let d2 = appended(pre2.outbox@, self.outbox@);
                let sk = keys_of(pre2.players.0@);
                assert forall|k: int|
                    base.len() <= k < self.outbox@.len() implies !((
                    #[trigger] self.outbox@[k]).1 matches PacketType::Error(_, _)) by {
                    if k < pre2.outbox@.len() {
                        lemma_extends_index(pre2.outbox@, self.outbox@, k);
                    } else {
                        assert(d2[k - pre2.outbox@.len()] == self.outbox@[k]);
                        let kk = k - pre2.outbox@.len();
                        if sk[kk] == id {
                            assert(d2[kk].1 matches PacketType::StatusUpdatePrivate(_, _));
                        } else {
                            assert(d2[kk].1 matches PacketType::StatusUpdatePublic(_, _, _, _));
                        }
                    }
                }
                // the freshly dealt player's private status is on the queue
                assert(sk =~= ks);
                assert(d2[j as int] == self.outbox@[pre2.outbox@.len() + j]);
                assert(sk[j as int] == id);
                lemma_key_index(pre2.players.0@, id, j as int);
                assert forall|j1: int| #![trigger ks[j1]]
                    0 <= j1 < j + 1 implies private_status_queued(
                    self.outbox@,
                    base.len() as int,
                    *self,
                    ks[j1],
                ) by {
                    if j1 < j {
                        assert(private_status_queued(pre.outbox@, base.len() as int, pre, ks[j1]));
                        let k0 = choose|k0: int|
                            base.len() <= k0 < pre.outbox@.len() && (
                            #[trigger] pre.outbox@[k0]).0 == ks[j1] && (pre.outbox@[k0].1
                                matches PacketType::StatusUpdatePrivate(h, c) && h@ == hand_of(
                                pre,
                                ks[j1],
                            ) && c == pre.placed_deck@[0]);
                        assert(pre2.outbox@ == pre.outbox@);
                        lemma_extends_index(pre2.outbox@, self.outbox@, k0);
                        assert(self.outbox@[k0].0 == ks[j1]);
                        assert(hand_of(*self, ks[j1]) == hand_of(pre, ks[j1]));
                    } else {
                        assert(self.outbox@[pre2.outbox@.len() + j].0 == id);
                        assert((d2[j as int].1 matches PacketType::StatusUpdatePrivate(h, c) && h@
                            == hand_of(pre2, id) && c == top_card(pre2)));
                        assert(hand_of(pre2, id) == hand_of(*self, id));
                    }
                }
            }
        }
        let ghost pre3 = *self;
        proof {
            assert(total_cards(*self) == DECK_SIZE) by {
                assert(self.deck@.len() == 107 - 8 * n);
            }
        }
        self.give_turn();
        let ghost pre4 = *self;
        self.statistics.game_started();
        let ghost pre5 = *self;
        self.broadcast(
            PacketType::Message(
                "Server".to_owned(),
                "The host has started the game".to_owned(),
            ),
        );
        proof {
            let base = old(self).outbox@;
            let ob = final(self).outbox@;
            lemma_extends_trans(base, pre3.outbox@, pre4.outbox@);
            lemma_extends_trans(base, pre4.outbox@, ob);
            let delta = appended(base, ob);
            let n = n as int;
            let cur = next_of(ks, false);
            lemma_rotated_wf(pre3.players.0@, false);
            // hands survive the rotation and the final broadcasts
            assert forall|j: int| 0 <= j < n implies hand_of(*final(self), ks[j]) == hand_of(
                pre3,
                ks[j],
            ) by {
                assert(has_key(pre3.players.0@, ks[j])) by {
                    assert(pre3.players.0@[j].0 == keys_of(pre3.players.0@)[j]);
                }
            }
            assert(keys_of(final(self).players.0@) =~= rot_ids(ks, false));
            // no rejection is queued anywhere in the delta
            let gd = appended(pre3.outbox@, pre4.outbox@);
            assert forall|k: int|
                0 <= k < delta.len() implies !((#[trigger] delta[k]).1 matches PacketType::Error(
                _,
                _,
            )) by {
                let ka = base.len() + k;
                assert(delta[k] == ob[ka]);
                if ka < pre3.outbox@.len() {
                    lemma_extends_index(pre3.outbox@, pre4.outbox@, ka);
                    lemma_extends_index(pre4.outbox@, ob, ka);
                } else if ka < pre4.outbox@.len() {
                    lemma_extends_index(pre4.outbox@, ob, ka);
                    assert(gd[ka - pre3.outbox@.len()] == pre4.outbox@[ka]);
                    let kk = ka - pre3.outbox@.len();
                    if kk == 0 {
                        assert(gd[0].1 matches PacketType::Message(_, _));
                    } else if kk <= n {
                        assert(gd[1 + (kk - 1)].1 == PacketType::TurnUpdate(
                            cur,
                            next_of(rot_ids(ks, false), false),
                        ));
                    } else {
                        assert(gd[n + 1].1 matches PacketType::AllowedCardsUpdate(_));
                    }
                } else {
                    let bd = appended(pre5.outbox@, ob);
                    assert(bd[ka - pre5.outbox@.len()] == ob[ka]);
                }
            }
            // every player was privately dealt in, and told whose turn it is
            assert forall|j: int| #![trigger ks[j]]
                0 <= j < n implies private_status_queued(ob, base.len() as int, *final(self), ks[j])
                by {
                assert(private_status_queued(pre3.outbox@, base.len() as int, pre3, ks[j]));
                let k0 = choose|k0: int|
                    base.len() <= k0 < pre3.outbox@.len() && (#[trigger] pre3.outbox@[k0]).0
                        == ks[j] && (pre3.outbox@[k0].1 matches
                        PacketType::StatusUpdatePrivate(h, c) && h@ == hand_of(pre3, ks[j]) && c
                        == pre3.placed_deck@[0]);
                lemma_extends_index(pre3.outbox@, pre4.outbox@, k0);
                lemma_extends_index(pre4.outbox@, ob, k0);
                assert(ob[k0].0 == ks[j]);
            }
            assert forall|j: int| #![trigger ks[j]]
                0 <= j < n implies turn_update_queued(ob, base.len() as int, cur, ks[j]) by {
                let idx: int = if j == n - 1 {
                    0
                } else {
                    j + 1
                };
                assert(rot_ids(ks, false)[idx] == ks[j]);
                let ka = pre3.outbox@.len() + 1 + idx;
                assert(gd[1 + idx] == pre4.outbox@[ka]);
                lemma_extends_index(pre4.outbox@, ob, ka);
                assert(ob[ka].0 == ks[j]);
            }
        }
    }
}

/// Many rotation steps, unfolded from the back: one more step rotates
/// the result of the previous ones.
pub proof fn lemma_rot_ids_n_snoc(s: Seq<PlayerId>, rev: bool, n: nat)
    ensures
        rot_ids_n(s, rev, n + 1) == rot_ids(rot_ids_n(s, rev, n), rev),
    decreases n,
{
    if n == 0 {
        assert(rot_ids_n(s, rev, 1) == rot_ids_n(rot_ids(s, rev), rev, 0));
        assert(rot_ids_n(rot_ids(s, rev), rev, 0) == rot_ids(s, rev));
        assert(rot_ids_n(s, rev, 0) == s);
    } else {
        lemma_rot_ids_n_snoc(rot_ids(s, rev), rev, (n - 1) as nat);
    }
}

/// Whether `id` may end their turn: they acted this turn, or they face
/// an unresolved draw penalty placed by another player.
pub open spec fn end_gate(g: Game, id: PlayerId) -> bool {
    spec_can_end(player_of(g.players.0@, id)) || forced_draw(g, id)
}

/// Whether ending the turn forces `id` to draw: the top card is an
/// unresolved draw rank pending on another player.
pub open spec fn forced_draw(g: Game, id: PlayerId) -> bool {
    is_draw_kind(top_card(g).kind) && top_card(g).owner.is_some() && top_card(g).owner != Some(id)
}

/// How many cards a forced draw costs: the accumulated stack, but
/// never less than the rank's base penalty.
pub open spec fn forced_count(g: Game) -> int {
    if g.draw_stack >= draw_base(top_card(g).kind) {
        g.draw_stack as int
    } else {
        draw_base(top_card(g).kind)
    }
}

/// The direction after resolving the top card: a Reverse flips it.
pub open spec fn end_turn_reversed(g: Game) -> bool {
    if top_card(g).kind == Type::Reverse {
        !g.reversed
    } else {
        g.reversed
    }
}

/// How many extra rotations a Block costs.
pub open spec fn end_block_steps(g: Game) -> nat {
    if g.block_stack > 1 {
        g.block_stack as nat
    } else {
        1
    }
}

/// The rotation order after resolving Reverse and Block, before the
/// normal hand-off: a Reverse rotates once more in the new direction
/// when three or more players remain; a Block rotates
/// [`end_block_steps`] times.
pub open spec fn end_turn_keys_mid(g: Game) -> Seq<PlayerId> {
    let ks = keys_of(g.players.0@);
    let rev1 = end_turn_reversed(g);
    let ks1 = if top_card(g).kind == Type::Reverse && g.players.0@.len() > 2 {
        rot_ids(ks, rev1)
    } else {
        ks
    };
    if top_card(g).kind == Type::Block {
        rot_ids_n(ks1, rev1, end_block_steps(g))
    } else {
        ks1
    }
}

/// The pending holder of the top card once the turn has ended: a
/// forced draw neutralizes it, an uncontested effect passes to the
/// turn-ending player, and Reverse and Block are neutralized after
/// resolving.
pub open spec fn end_top_owner(g: Game, id: PlayerId) -> Option<PlayerId> {
    let o1 = if forced_draw(g, id) {
        None
    } else {
        top_card(g).owner
    };
    let o2: Option<PlayerId> = if o1.is_some() {
        Some(id)
    } else {
        None
    };
    if top_card(g).kind == Type::Reverse || top_card(g).kind == Type::Block {
        None
    } else {
        o2
    }
}

/// The pending holder of the top card after the confirmation and the
/// Reverse and Block resolutions alone (with any forced draw already
/// served).
pub open spec fn confirm_top_owner(g: Game, id: PlayerId) -> Option<PlayerId> {
    let o2: Option<PlayerId> = if top_card(g).owner.is_some() {
        Some(id)
    } else {
        None
    };
    if top_card(g).kind == Type::Reverse || top_card(g).kind == Type::Block {
        None
    } else {
        o2
    }
}

/// Whether ending the turn wins the game: the hand is empty after any
/// forced draw (so only when none was forced).
pub open spec fn end_turn_wins(g: Game, id: PlayerId) -> bool {
    hand_of(g, id).len() + (if forced_draw(g, id) {
        forced_count(g)
    } else {
        0
    }) == 0
}

impl Game {
    /// Ends the turn of player `id`, resolving pending effects in
    /// order: an unresolved draw penalty of another player is served
    /// (at least its base, or the whole stack), the top card's
    /// pending ownership passes to `id`, a Reverse flips the
    /// direction (rotating once more when three or more players
    /// remain), a Block skips ahead by the accumulated stack, the
    /// turn actions are cleared, and the game either ends on an empty
    /// hand or hands the turn on. A premature request, or one that
    /// cannot be served for want of cards, is rejected and changes
    /// nothing.
    #[verifier::rlimit(100)]
    pub fn end_turn(&mut self, id: PlayerId)
        requires
            old(self).wf(),
            old(self).phase == Phase::Active,
            old(self).current_turn == Some(id),
        ensures
            final(self).wf(),
            !end_gate(*old(self), id) ==> ({
                let delta = appended(old(self).outbox@, final(self).outbox@);
                &&& same_except_outbox(*final(self), *old(self))
                &&& extends(old(self).outbox@, final(self).outbox@)
                &&& delta.len() == 1
                &&& delta[0].0 == id
                &&& (delta[0].1 matches PacketType::Error(c, _) && c == 401)
            }),
            end_gate(*old(self), id) && forced_draw(*old(self), id) && forced_count(*old(self))
                > old(self).deck@.len() + old(self).placed_deck@.len() - 1 ==> ({
                let delta = appended(old(self).outbox@, final(self).outbox@);
                &&& same_except_outbox(*final(self), *old(self))
                &&& extends(old(self).outbox@, final(self).outbox@)
                &&& delta.len() == 1
                &&& delta[0].0 == id
                &&& (delta[0].1 matches PacketType::Error(c, _) && c == 400)
            }),
            end_gate(*old(self), id) && (forced_draw(*old(self), id) ==> forced_count(*old(self))
                <= old(self).deck@.len() + old(self).placed_deck@.len() - 1) ==> ({
                let g0 = *old(self);
                let ks = keys_of(g0.players.0@);
                let rev1 = end_turn_reversed(g0);
                let ks2 = end_turn_keys_mid(g0);
                let fc: int = if forced_draw(g0, id) {
                    forced_count(g0)
                } else {
                    0
                };
                let won = end_turn_wins(g0, id);
                let delta = appended(g0.outbox@, final(self).outbox@);
                &&& final(self).reversed == rev1
                &&& final(self).draw_stack == g0.draw_stack
                &&& final(self).block_stack == (if top_card(g0).kind == Type::Block {
                    0int
                } else {
                    g0.block_stack as int
                })
                &&& final(self).phase == (if won {
                    Phase::Ended
                } else {
                    Phase::Active
                })
                &&& (won ==> final(self).current_turn.is_none() && keys_of(final(self).players.0@)
                    == ks2)
                &&& (!won ==> final(self).current_turn == Some(next_of(ks2, rev1)) && keys_of(
                    final(self).players.0@,
                ) == rot_ids(ks2, rev1))
                &&& final(self).placed_deck@.len() >= 1
                &&& final(self).placed_deck@[0] == (Card {
                    owner: end_top_owner(g0, id),
                    ..top_card(g0)
                })
                &&& total_cards(*final(self)) == DECK_SIZE
                &&& has_key(final(self).players.0@, id)
                &&& hand_of(*final(self), id).len() == hand_of(g0, id).len() + fc
                &&& player_of(final(self).players.0@, id).actions@ == Seq::<Actions>::empty()
                &&& (forall|pid: PlayerId|
                    has_key(g0.players.0@, pid) ==> has_key(final(self).players.0@, pid))
                &&& (forall|pid: PlayerId|
                    has_key(g0.players.0@, pid) && pid != id ==> player_of(
                        final(self).players.0@,
                        pid,
                    ) == player_of(g0.players.0@, pid))
                &&& extends(g0.outbox@, final(self).outbox@)
                &&& delta.len() >= 1
                &&& delta[0] == (id, PacketType::EndTurn)
                &&& (won ==> forall|k: int|
                    0 <= k < delta.len() ==> !((#[trigger] delta[k]).1 matches
                    PacketType::TurnUpdate(_, _)))
                &&& (won ==> exists|k: int|
                    0 <= k < delta.len() && ((#[trigger] delta[k]).1 matches PacketType::WinUpdate(
                        _,
                        _,
                        _,
                        _,
                    )))
                &&& (won ==> final(self).statistics.end_time.is_some())
                &&& final(self).statistics.cards_drawn == bumped_n(
                    g0.statistics.cards_drawn,
                    fc as nat,
                )
                &&& (!won ==> forall|j: int|
                    #![trigger ks[j]]
                    0 <= j < ks.len() ==> turn_update_queued(
                        final(self).outbox@,
                        g0.outbox@.len() as int,
                        next_of(ks2, rev1),
                        ks[j],
                    ))
                &&& (!won ==> delta.last().0 == next_of(ks2, rev1) && (delta.last().1 matches
                    PacketType::AllowedCardsUpdate(h) && h@ == legal_subset(
                    top_card(*final(self)),
                    hand_of(*final(self), next_of(ks2, rev1)),
                    next_of(ks2, rev1),
                )))
            }),
    {
        let ghost g0 = *old(self);
        let si = self.players.found_position(id);
        let top = self.placed_deck[0];
        let can = (&self.players.0[si].1).can_end();
        let draw_kind = kind_is_draw(&top.kind);
        let owner_other = match top.owner {
            Some(o) => o != id,
            None => false,
        };
        proof {
            assert((draw_kind && owner_other) == forced_draw(g0, id));
            assert(can == spec_can_end(player_of(g0.players.0@, id)));
        }
        if !(can || (draw_kind && owner_other)) {
            self.emit_error(
                id,
                401,
                "Cannot end your turn yet. Please either place a card or draw three cards",
            );
            return ;
        }
        // serve a pending draw penalty placed by another player
        if draw_kind && owner_other {
            let base_count: usize = if top.kind == Type::DrawFour {
                4
            } else {
                2
            };
            let count = if self.draw_stack >= base_count {
                self.draw_stack
            } else {
                base_count
            };
            proof {
                assert(count == forced_count(g0));
                lemma_sum_hands_nonneg(self.players.0@);
            }
            let avail = self.deck.len() + (self.placed_deck.len() - 1);
            if count > avail {
                self.emit_error(id, 400, "Not enough cards left to draw");
                return ;
            }
            self.draw_cards(count, id);
            self.set_top_owner(None);
        }
        let ghost g1 = *self;
        proof {
            assert(g1.players.wf());
            assert(keys_of(g1.players.0@) =~= keys_of(g0.players.0@));
            assert(has_key(g1.players.0@, id)) by {
                let i = key_index(g0.players.0@, id);
                assert(g0.players.0@[i].0 == id);
                assert(g1.players.0@[i].0 == id);
            }
        }
        self.resolve_top_effects(id);
        let ghost g4 = *self;
        proof {
            assert(end_turn_reversed(g1) == end_turn_reversed(g0));
            assert(end_turn_keys_mid(g1) == end_turn_keys_mid(g0)) by {
                assert(keys_of(g1.players.0@) == keys_of(g0.players.0@));
            }
            assert(confirm_top_owner(g1, id) == end_top_owner(g0, id));
            assert(keys_of(g4.players.0@) == end_turn_keys_mid(g0));
            assert(g4.placed_deck@[0] == (Card { owner: end_top_owner(g0, id), ..top_card(g0) }));
            assert(has_key(g4.players.0@, id));
        }
        self.players.clear_actions(id);
        proof {
            let s = g4.players.0@;
            let i = key_index(s, id);
            assert(0 <= i < s.len() && s[i].0 == id);
            lemma_sum_hands_update(s, i, self.players.0@[i]);
            assert(self.players.0@ =~= s.update(i, self.players.0@[i]));
            assert(keys_of(self.players.0@) =~= keys_of(s));
            assert forall|pid: PlayerId|
                has_key(s, pid) implies has_key(self.players.0@, pid) by {
                let j = choose|j: int| 0 <= j < s.len() && s[j].0 == pid;
                assert(self.players.0@[j].0 == pid);
            }
            assert forall|pid: PlayerId|
                has_key(s, pid) && pid != id implies player_of(self.players.0@, pid) == player_of(
                s,
                pid,
            ) by {
                let j = choose|j: int| 0 <= j < s.len() && s[j].0 == pid;
                lemma_key_index(s, pid, j);
                lemma_key_index(self.players.0@, pid, j);
                assert(j != i);
            }
        }
        self.emit(id, PacketType::EndTurn);
        let ghost g5 = *self;
        self.update_card_status(id);
        let ghost g6 = *self;
        proof {
            assert(extends(g5.outbox@, g6.outbox@));
            assert(g5.outbox@ == g4.outbox@.push((id, PacketType::EndTurn)));
            assert(extends(g4.outbox@, g5.outbox@)) by {
                assert(g5.outbox@.subrange(0, g4.outbox@.len() as int) =~= g4.outbox@);
            }
            assert(g4.outbox@ == g0.outbox@);
            lemma_extends_trans(g0.outbox@, g5.outbox@, g6.outbox@);
        }
        let si2 = self.players.found_position(id);
        if self.players.0[si2].1.cards.len() == 0 {
            self.end();
            proof {
                let ob = final(self).outbox@;
                lemma_extends_trans(g0.outbox@, g6.outbox@, ob);
                let delta = appended(g0.outbox@, ob);
                lemma_extends_index(g5.outbox@, g6.outbox@, g0.outbox@.len() as int);
                lemma_extends_index(g6.outbox@, ob, g0.outbox@.len() as int);
                assert(delta[0] == ob[g0.outbox@.len() as int]);
                assert(delta[0] == (id, PacketType::EndTurn));
                // the game is over: no further turn is announced
                let sd = appended(g5.outbox@, g6.outbox@);
                let ed = appended(g6.outbox@, ob);
                assert forall|k: int|
                    0 <= k < delta.len() implies !((#[trigger] delta[k]).1 matches
                    PacketType::TurnUpdate(_, _)) by {
                    let ka = g0.outbox@.len() + k;
                    assert(delta[k] == ob[ka]);
                    if ka < g5.outbox@.len() {
                        lemma_extends_index(g5.outbox@, g6.outbox@, ka);
                        lemma_extends_index(g6.outbox@, ob, ka);
                    } else if ka < g6.outbox@.len() {
                        lemma_extends_index(g6.outbox@, ob, ka);
                        assert(sd[ka - g5.outbox@.len()] == g6.outbox@[ka]);
                        let kk = ka - g5.outbox@.len();
                        if keys_of(g5.players.0@)[kk] == id {
                            assert(sd[kk].1 matches PacketType::StatusUpdatePrivate(_, _));
                        } else {
                            assert(sd[kk].1 matches PacketType::StatusUpdatePublic(_, _, _, _));
                        }
                    } else {
                        assert(ed[ka - g6.outbox@.len()] == ob[ka]);
                        let wid = choose|wid: PlayerId|
                            win_broadcast_ok(ed, g6.players.0@, final(self).statistics, wid);
                        assert(ed[ka - g6.outbox@.len()].1 matches PacketType::WinUpdate(
                            _,
                            _,
                            _,
                            _,
                        ));
                    }
                }
                // and the results are on the queue
                let wid = choose|wid: PlayerId|
                    win_broadcast_ok(ed, g6.players.0@, final(self).statistics, wid);
                assert(g6.players.0@.len() >= 1);
                assert(ed[0].1 matches PacketType::WinUpdate(_, _, _, _));
                assert(ob[g6.outbox@.len() as int] == ed[0]);
                assert(delta[g6.outbox@.len() - g0.outbox@.len()].1 matches PacketType::WinUpdate(
                    _,
                    _,
                    _,
                    _,
                ));
            }
            return ;
        }
        proof {
            lemma_sum_hands_nonneg(self.players.0@);
            assert(total_cards(*self) == DECK_SIZE);
            assert(self.players.0@.len() >= 2);
        }
        self.give_turn();
        proof {
            let ob = final(self).outbox@;
            let ks = keys_of(g0.players.0@);
            let ks2 = end_turn_keys_mid(g0);
            let rev1 = end_turn_reversed(g0);
            let cur = next_of(ks2, rev1);
            lemma_extends_trans(g0.outbox@, g6.outbox@, ob);
            let delta = appended(g0.outbox@, ob);
            lemma_extends_index(g5.outbox@, g6.outbox@, g0.outbox@.len() as int);
            lemma_extends_index(g6.outbox@, ob, g0.outbox@.len() as int);
            assert(delta[0] == ob[g0.outbox@.len() as int]);
            assert(delta[0] == (id, PacketType::EndTurn));
            assert(keys_of(g6.players.0@) == ks2);
            lemma_rotated_wf(g6.players.0@, rev1);
            // every player is told whose turn it is now
            let gd = appended(g6.outbox@, ob);
            assert forall|j: int|
                #![trigger ks[j]]
                0 <= j < ks.len() implies turn_update_queued(
                ob,
                g0.outbox@.len() as int,
                cur,
                ks[j],
            ) by {
                assert(ks.contains(ks[j]));
                assert(ks2.contains(ks[j])) by {
                    let rv = end_turn_reversed(g0);
                    let ks1 = if top_card(g0).kind == Type::Reverse && g0.players.0@.len() > 2 {
                        rot_ids(ks, rv)
                    } else {
                        ks
                    };
                    if top_card(g0).kind == Type::Reverse && g0.players.0@.len() > 2 {
                        lemma_rot_ids_contains(ks, rv, ks[j]);
                    }
                    if top_card(g0).kind == Type::Block {
                        lemma_rot_ids_n_contains(ks1, rv, end_block_steps(g0), ks[j]);
                    }
                }
                let rk = rot_ids(ks2, rev1);
                assert(rk.contains(ks[j])) by {
                    lemma_rot_ids_contains(ks2, rev1, ks[j]);
                }
                let k = choose|k: int| 0 <= k < rk.len() && rk[k] == ks[j];
                let ka = g6.outbox@.len() + 1 + k;
                assert(gd[1 + k].0 == rk[k]);
                assert(gd[1 + k].1 == PacketType::TurnUpdate(cur, next_of(rk, rev1)));
                assert(gd[1 + k] == ob[ka]);
                assert(ob[ka].0 == ks[j]);
            }
            // the new current player was sent their fresh legal set, last
            let n6 = g6.players.0@.len() as int;
            assert(has_key(g6.players.0@, cur)) by {
                if !rev1 {
                    assert(g6.players.0@[n6 - 1].0 == keys_of(g6.players.0@).last());
                } else {
                    assert(g6.players.0@[0].0 == keys_of(g6.players.0@).first());
                }
            }
            assert(gd[n6 + 1].0 == cur);
            assert(delta.last() == ob[ob.len() - 1]);
            assert(gd[n6 + 1] == ob[g6.outbox@.len() + n6 + 1]);
            assert(ob.len() == g6.outbox@.len() + n6 + 2);
            assert(player_of(final(self).players.0@, cur) == player_of(g6.players.0@, cur));
            assert(hand_of(*final(self), cur) == player_of(g6.players.0@, cur).cards@);
            // the forced-draw statistics survive the later steps
            assert(final(self).statistics.cards_drawn == g6.statistics.cards_drawn);
            assert forall|pid: PlayerId|
                has_key(g0.players.0@, pid) implies has_key(final(self).players.0@, pid) by {
                let j = choose|j: int| 0 <= j < g0.players.0@.len() && g0.players.0@[j].0 == pid;
                assert(g1.players.0@[j].0 == pid);
                assert(has_key(g1.players.0@, pid));
                assert(has_key(g6.players.0@, pid));
            }
            assert forall|pid: PlayerId|
                has_key(g0.players.0@, pid) && pid != id implies player_of(
                final(self).players.0@,
                pid,
            ) == player_of(g0.players.0@, pid) by {
                let s0 = g0.players.0@;
                let j = choose|j: int| 0 <= j < s0.len() && s0[j].0 == pid;
                lemma_key_index(s0, pid, j);
                assert(g1.players.0@[j].0 == pid);
                lemma_key_index(g1.players.0@, pid, j);
                assert(j != key_index(s0, id)) by {
                    lemma_key_index(s0, id, key_index(s0, id));
                }
                assert(player_of(g1.players.0@, pid) == player_of(s0, pid));
                assert(has_key(g1.players.0@, pid));
            }
        }
    }

    /// Resolves the top card once any forced draw has been served:
    /// pending ownership passes to `id`, a Reverse flips the
    /// direction (rotating once more when three or more players
    /// remain), and a Block skips ahead by the accumulated stack;
    /// resolved effect cards are neutralized.
    fn resolve_top_effects(&mut self, id: PlayerId)
        requires
            old(self).players.wf(),
            old(self).players.0@.len() >= 1,
            old(self).placed_deck@.len() >= 1,
        ensures
            *final(self) == (Game {
                players: final(self).players,
                placed_deck: final(self).placed_deck,
                reversed: final(self).reversed,
                block_stack: final(self).block_stack,
                ..*old(self)
            }),
            final(self).reversed == end_turn_reversed(*old(self)),
            final(self).block_stack == (if top_card(*old(self)).kind == Type::Block {
                0int
            } else {
                old(self).block_stack as int
            }),
            final(self).placed_deck@ == old(self).placed_deck@.update(
                0,
                (Card { owner: confirm_top_owner(*old(self), id), ..top_card(*old(self)) }),
            ),
            final(self).players.wf(),
            final(self).players.0@.len() == old(self).players.0@.len(),
            keys_of(final(self).players.0@) == end_turn_keys_mid(*old(self)),
            sum_hands(final(self).players.0@) == sum_hands(old(self).players.0@),
            forall|pid: PlayerId|
                has_key(old(self).players.0@, pid) <==> has_key(final(self).players.0@, pid),
            forall|pid: PlayerId|
                has_key(old(self).players.0@, pid) ==> player_of(final(self).players.0@, pid)
                    == player_of(old(self).players.0@, pid),
    {
        let ghost g1 = *old(self);
        // an uncontested effect now belongs to the turn-ending player
        let still_owned = match self.placed_deck[0].owner {
            Some(_) => true,
            None => false,
        };
        if still_owned {
            self.set_top_owner(Some(id));
        }
        let ghost g2 = *self;
        // a Reverse flips the direction
        if self.placed_deck[0].kind == Type::Reverse {
            self.reversed = !self.reversed;
            if self.players.len() > 2 {
                let _ = self.players.next_player(self.reversed);
                proof {
                    lemma_rotated_wf(g2.players.0@, self.reversed);
                }
            }
            self.set_top_owner(None);
        }
        let ghost g3 = *self;
        proof {
            assert(self.reversed == end_turn_reversed(g1));
            assert(keys_of(g3.players.0@) == (if top_card(g1).kind == Type::Reverse
                && g1.players.0@.len() > 2 {
                rot_ids(keys_of(g1.players.0@), end_turn_reversed(g1))
            } else {
                keys_of(g1.players.0@)
            }));
        }
        // a Block skips ahead by the accumulated stack
        if self.placed_deck[0].kind == Type::Block {
            let count = if self.block_stack > 1 {
                self.block_stack
            } else {
                1
            };
            let ghost ksb = keys_of(g3.players.0@);
            for it in 0..count
                invariant
                    *self == (Game { players: self.players, ..g3 }),
                    self.players.wf(),
                    self.players.0@.len() == g3.players.0@.len(),
                    self.players.0@.len() >= 1,
                    keys_of(self.players.0@) == rot_ids_n(ksb, g3.reversed, it as nat),
                    sum_hands(self.players.0@) == sum_hands(g3.players.0@),
                    forall|pid: PlayerId|
                        has_key(g3.players.0@, pid) <==> has_key(self.players.0@, pid),
                    forall|pid: PlayerId|
                        has_key(g3.players.0@, pid) ==> player_of(self.players.0@, pid)
                            == player_of(g3.players.0@, pid),
                    ksb == keys_of(g3.players.0@),
            {
                let ghost prev = *self;
                let _ = self.players.next_player(self.reversed);
                proof {
                    lemma_rotated_wf(prev.players.0@, prev.reversed);
                    lemma_rot_ids_n_snoc(ksb, g3.reversed, it as nat);
                    assert(keys_of(self.players.0@) =~= rot_ids(
                        keys_of(prev.players.0@),
                        g3.reversed,
                    ));
                }
            }
            self.set_top_owner(None);
            self.block_stack = 0;
            proof {
                assert(keys_of(self.players.0@) == end_turn_keys_mid(g1));
            }
        }
        proof {
            assert(final(self).placed_deck@ =~= g1.placed_deck@.update(
                0,
                (Card { owner: confirm_top_owner(g1, id), ..top_card(g1) }),
            ));
        }
    }

    /// Removes a player (or spectator) from the room. Leaving an
    /// active game aborts it: the remaining players are told, and the
    /// room enters the terminal state with no winner computed.
    pub fn leave(&mut self, id: PlayerId)
        requires
            old(self).wf(),
        ensures
            final(self).wf(),
            !has_key(old(self).players.0@, id) && !has_key(old(self).spectators@, id)
                ==> *final(self) == *old(self),
            has_key(old(self).players.0@, id) ==> final(self).players.0@
                == old(self).players.0@.remove(key_index(old(self).players.0@, id))
                && final(self).spectators@ == old(self).spectators@,
            has_key(old(self).players.0@, id) || has_key(old(self).spectators@, id) ==> ({
                &&& final(self).deck@ == old(self).deck@
                &&& final(self).placed_deck@ == old(self).placed_deck@
                &&& final(self).statistics == old(self).statistics
                &&& (old(self).phase != Phase::Active ==> final(self).phase == old(self).phase
                    && final(self).current_turn == old(self).current_turn && final(self).outbox@
                    == old(self).outbox@)
                &&& (old(self).phase == Phase::Active ==> {
                    let delta = appended(old(self).outbox@, final(self).outbox@);
                    &&& final(self).phase == Phase::Ended
                    &&& final(self).current_turn.is_none()
                    &&& extends(old(self).outbox@, final(self).outbox@)
                    &&& delta.len() == final(self).players.0@.len()
                    &&& forall|k: int|
                        0 <= k < delta.len() ==> (#[trigger] delta[k]).0 == keys_of(
                            final(self).players.0@,
                        )[k] && (delta[k].1 matches PacketType::Message(s, c) && s@ == "Server"@
                            && c@ == "Game ended due to one of the players leaving"@)
                })
            }),
            !has_key(old(self).players.0@, id) && has_key(old(self).spectators@, id)
                ==> final(self).players.0@ == old(self).players.0@,
    {
        if self.players.contains_key(id) {
            self.players.remove(id);
        } else {
            let mut found: bool = false;
            let mut at: usize = 0;
            for i in 0..self.spectators.len()
                invariant
                    !found ==> forall|j: int| 0 <= j < i ==> self.spectators@[j].0 != id,
                    found ==> at < self.spectators@.len() && self.spectators@[at as int].0 == id,
                    self.spectators@ == old(self).spectators@,
            {
                if !found && self.spectators[i].0 == id {
                    found = true;
                    at = i;
                }
            }
            if !found {
                return ;
            }
            self.spectators.remove(at);
            proof {
                let s = old(self).spectators@;
                let t = s.remove(at as int);
                assert forall|a: int, b: int| 0 <= a < b < t.len() implies t[a].0 != t[b].0 by {
                    if b < at {
                    } else if a < at {
                        assert(t[b] == s[b + 1]);
                    } else {
                        assert(t[a] == s[a + 1] && t[b] == s[b + 1]);
                    }
                }
            }
        }
        if self.phase == Phase::Active {
            self.broadcast(
                PacketType::Message(
                    "Server".to_owned(),
                    "Game ended due to one of the players leaving".to_owned(),
                ),
            );
            self.phase = Phase::Ended;
            self.current_turn = None;
        }
    }

    /// Hands the queued outbound events over for delivery, leaving the
    /// queue empty.
    pub fn take_outbox(&mut self) -> (r: Vec<(PlayerId, PacketType)>)
        ensures
            *final(self) == (Game { outbox: final(self).outbox, ..*old(self) }),
            r@ == old(self).outbox@,
            final(self).outbox@ == Seq::<(PlayerId, PacketType)>::empty(),
    {
        let r = self.outbox.split_off(0);
        proof {
            assert(r@ =~= old(self).outbox@);
            assert(final(self).outbox@ =~= Seq::<(PlayerId, PacketType)>::empty());
        }
        r
    }

    /// Rewrites the pending holder of the top card.
    fn set_top_owner(&mut self, o: Option<PlayerId>)
        requires
            old(self).placed_deck@.len() >= 1,
        ensures
            *final(self) == (Game { placed_deck: final(self).placed_deck, ..*old(self) }),
            final(self).placed_deck@ == old(self).placed_deck@.update(
                0,
                (Card { owner: o, ..old(self).placed_deck@[0] }),
            ),
    {
        let c = self.placed_deck.remove(0);
        self.placed_deck.insert(0, Card { kind: c.kind, color: c.color, owner: o });
        proof {
            assert(final(self).placed_deck@ =~= old(self).placed_deck@.update(
                0,
                (Card { owner: o, ..old(self).placed_deck@[0] }),
            ));
        }
    }
}

impl Default for Players {
    /// An empty rotation.
    fn default() -> (r: Players)
        ensures
            r.0@ == Seq::<(PlayerId, Player)>::empty(),
            r.wf(),
    {
        Players::new()
    }
}

impl Default for Game {
    /// A fresh room, waiting for players.
    fn default() -> (r: Game)
        ensures
            r.wf(),
            r.phase == Phase::Waiting,
            r.players.0@.len() == 0,
            r.outbox@.len() == 0,
    {
        Game::new()
    }
}

/// Sorts players by hand size, ascending, preserving the multiset of
/// players.
fn sort_players(v: Vec<Player>) -> (r: Vec<Player>)
    ensures
        r@.len() == v@.len(),
        r@.to_multiset() == v@.to_multiset(),
        forall|a: int, b: int|
            0 <= a < b < r@.len() ==> r@[a].cards@.len() <= r@[b].cards@.len(),
{
    broadcast use vstd::seq_lib::group_to_multiset_ensures;

    let mut src = v;
    let mut out: Vec<Player> = Vec::new();
    proof {
        assert(out@.to_multiset().add(src@.to_multiset()) =~= v@.to_multiset());
    }
    while src.len() > 0
        invariant
            out@.len() + src@.len() == v@.len(),
            out@.to_multiset().add(src@.to_multiset()) == v@.to_multiset(),
            forall|a: int, b: int|
                0 <= a < b < out@.len() ==> out@[a].cards@.len() <= out@[b].cards@.len(),
            forall|a: int, b: int|
                0 <= a < out@.len() && 0 <= b < src@.len() ==> out@[a].cards@.len()
                    <= src@[b].cards@.len(),
        decreases src@.len(),
    {
        let mut mi: usize = 0;
        for k in 1..src.len()
            invariant
                mi < src@.len(),
                forall|j: int| 0 <= j < k ==> src@[mi as int].cards@.len() <= src@[j].cards@.len(),
        {
            if src[k].cards.len() < src[mi].cards.len() {
                mi = k;
            }
        }
        let ghost src0 = src@;
        let ghost out0 = out@;
        let m = src.remove(mi);
        out.push(m);
        proof {
            src0.to_multiset_ensures();
            out0.to_multiset_ensures();
            assert(src@ == src0.remove(mi as int));
            assert(m == src0[mi as int]);
            assert(src0.remove(mi as int).to_multiset() =~= src0.to_multiset().remove(
                src0[mi as int],
            ));
            assert(out@ == out0.push(m));
            assert(out0.push(m).to_multiset() =~= out0.to_multiset().insert(m));
            assert(src0.contains(m));
            assert(src0.to_multiset().count(m) > 0);
            assert(out@.to_multiset().add(src@.to_multiset()) =~= out0.to_multiset().add(
                src0.to_multiset(),
            ));
        }
    }
    proof {
        assert(src@.to_multiset() =~= Multiset::<Player>::empty());
        assert(out@.to_multiset().add(src@.to_multiset()) =~= out@.to_multiset());
    }
    out
}

} // verus!
