//! The closed set of inbound actions and outbound events exchanged
//! with clients. The transport layer encodes and decodes these; the
//! core only produces and consumes the typed values.

use vstd::prelude::*;

use crate::cards::{Card, Color, PlayerId};
use crate::game::GameStatistics;

verus! {

/// Every message that can cross the room boundary. Inbound actions are
/// `Register`, `Message`, `StartGame`, `DrawCard`, `PlaceCard`,
/// `EndTurn` and `ColorSwitch`; the rest are outbound events.
#[derive(Debug)]
pub enum PacketType {
    /// username
    Register(String),
    /// self id, self username, roster of (id, username)
    GameData(PlayerId, String, Vec<(PlayerId, String)>),
    /// id, username
    Connect(PlayerId, String),
    /// id, username
    Disconnect(PlayerId, String),
    /// sender, content
    Message(String, String),
    /// options
    StartGame(String),
    /// id, username, hand size, top of discard
    StatusUpdatePublic(PlayerId, String, usize, Card),
    /// own hand, top of discard
    StatusUpdatePrivate(Vec<Card>, Card),
    /// currently legal cards
    AllowedCardsUpdate(Vec<Card>),
    /// amount
    DrawCard(u8),
    /// hand index
    PlaceCard(usize),
    EndTurn,
    /// chosen color
    ColorSwitch(Color),
    /// current player, predicted next player
    TurnUpdate(PlayerId, PlayerId),
    /// error code, body
    Error(u64, String),
    /// winner id, winner username, remaining standings, statistics
    WinUpdate(PlayerId, String, Vec<String>, GameStatistics),
}

/// An element-wise copy of a card vector.
pub fn copy_cards(v: &Vec<Card>) -> (r: Vec<Card>)
    ensures
        r@ == v@,
{
    let mut out: Vec<Card> = Vec::new();
    for i in 0..v.len()
        invariant
            out@ == v@.subrange(0, i as int),
    {
        out.push(v[i]);
        assert(out@ =~= v@.subrange(0, i + 1 as int));
    }
    assert(v@.subrange(0, v@.len() as int) =~= v@);
    out
}

/// An element-wise copy of a roster of identifiers and usernames.
pub fn copy_roster(v: &Vec<(PlayerId, String)>) -> (r: Vec<(PlayerId, String)>)
    ensures
        r@ == v@,
{
    let mut out: Vec<(PlayerId, String)> = Vec::new();
    for i in 0..v.len()
        invariant
            out@ == v@.subrange(0, i as int),
    {
        let pair = (v[i].0, v[i].1.clone());
        out.push(pair);
        assert(out@ =~= v@.subrange(0, i + 1 as int));
    }
    assert(v@.subrange(0, v@.len() as int) =~= v@);
    out
}

/// An element-wise copy of a list of usernames.
pub fn copy_names(v: &Vec<String>) -> (r: Vec<String>)
    ensures
        r@ == v@,
{
    let mut out: Vec<String> = Vec::new();
    for i in 0..v.len()
        invariant
            out@ == v@.subrange(0, i as int),
    {
        out.push(v[i].clone());
        assert(out@ =~= v@.subrange(0, i + 1 as int));
    }
    assert(v@.subrange(0, v@.len() as int) =~= v@);
    out
}

/// Equality of two packets up to the identity of their heap parts:
/// scalar and string fields equal, vector fields equal element-wise.
pub open spec fn pkt_eq(a: PacketType, b: PacketType) -> bool {
    match (a, b) {
        (PacketType::Register(x), PacketType::Register(y)) => x == y,
        (
            PacketType::GameData(i1, u1, r1),
            PacketType::GameData(i2, u2, r2),
        ) => i1 == i2 && u1 == u2 && r1@ == r2@,
        (PacketType::Connect(i1, u1), PacketType::Connect(i2, u2)) => i1 == i2 && u1 == u2,
        (PacketType::Disconnect(i1, u1), PacketType::Disconnect(i2, u2)) => i1 == i2 && u1 == u2,
        (PacketType::Message(s1, c1), PacketType::Message(s2, c2)) => s1 == s2 && c1 == c2,
        (PacketType::StartGame(o1), PacketType::StartGame(o2)) => o1 == o2,
        (
            PacketType::StatusUpdatePublic(i1, u1, n1, c1),
            PacketType::StatusUpdatePublic(i2, u2, n2, c2),
        ) => i1 == i2 && u1 == u2 && n1 == n2 && c1 == c2,
        (
            PacketType::StatusUpdatePrivate(h1, c1),
            PacketType::StatusUpdatePrivate(h2, c2),
        ) => h1@ == h2@ && c1 == c2,
        (
            PacketType::AllowedCardsUpdate(h1),
            PacketType::AllowedCardsUpdate(h2),
        ) => h1@ == h2@,
        (PacketType::DrawCard(n1), PacketType::DrawCard(n2)) => n1 == n2,
        (PacketType::PlaceCard(i1), PacketType::PlaceCard(i2)) => i1 == i2,
        (PacketType::EndTurn, PacketType::EndTurn) => true,
        (PacketType::ColorSwitch(c1), PacketType::ColorSwitch(c2)) => c1 == c2,
        (PacketType::TurnUpdate(a1, b1), PacketType::TurnUpdate(a2, b2)) => a1 == a2 && b1 == b2,
        (PacketType::Error(c1, b1), PacketType::Error(c2, b2)) => c1 == c2 && b1 == b2,
        (
            PacketType::WinUpdate(i1, u1, s1, t1),
            PacketType::WinUpdate(i2, u2, s2, t2),
        ) => i1 == i2 && u1 == u2 && s1@ == s2@ && t1 == t2,
        _ => false,
    }
}

impl PacketType {
    /// A copy matching the packet, so that one event can be delivered
    /// to several recipients.
    pub fn dup(&self) -> (r: PacketType)
        ensures
            pkt_eq(r, *self),
    {
        match self {
            PacketType::Register(u) => PacketType::Register(u.clone()),
            PacketType::GameData(id, u, roster) => PacketType::GameData(
                *id,
                u.clone(),
                copy_roster(roster),
            ),
            PacketType::Connect(id, u) => PacketType::Connect(*id, u.clone()),
            PacketType::Disconnect(id, u) => PacketType::Disconnect(*id, u.clone()),
            PacketType::Message(s, c) => PacketType::Message(s.clone(), c.clone()),
            PacketType::StartGame(o) => PacketType::StartGame(o.clone()),
            PacketType::StatusUpdatePublic(id, u, n, c) => PacketType::StatusUpdatePublic(
                *id,
                u.clone(),
                *n,
                *c,
            ),
            PacketType::StatusUpdatePrivate(h, c) => PacketType::StatusUpdatePrivate(
                copy_cards(h),
                *c,
            ),
            PacketType::AllowedCardsUpdate(h) => PacketType::AllowedCardsUpdate(copy_cards(h)),
            PacketType::DrawCard(n) => PacketType::DrawCard(*n),
            PacketType::PlaceCard(i) => PacketType::PlaceCard(*i),
            PacketType::EndTurn => PacketType::EndTurn,
            PacketType::TurnUpdate(cur, next) => PacketType::TurnUpdate(*cur, *next),
            PacketType::ColorSwitch(c) => PacketType::ColorSwitch(*c),
            PacketType::Error(code, body) => PacketType::Error(*code, body.clone()),
            PacketType::WinUpdate(id, u, standings, stats) => PacketType::WinUpdate(
                *id,
                u.clone(),
                copy_names(standings),
                *stats,
            ),
        }
    }
}

} // verus!
