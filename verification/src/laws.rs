//! The game-wide laws, stated over the same specification functions
//! that the engine's contracts use.

use vstd::prelude::*;

use crate::cards::{
    draw_base, is_draw_kind, legal_subset, lemma_legal_subset_complete, lemma_legal_subset_sound,
    Card, PlayerId, Type, DECK_SIZE,
};
use crate::game::{
    end_turn_keys_mid, end_turn_reversed, end_turn_wins, forced_count, forced_draw, hand_of,
    keys_of, next_of, place_accepts, place_draw_stack, sum_hands, top_card, Game, Phase,
};
use crate::lobby::is_accepted_actor;

verus! {

/// Turn exclusivity: at any instant, at most one player is the
/// accepted actor of a room; the coordinator's dispatch contract
/// rejects every other sender of a turn-bound action with a 401
/// error.
pub proof fn lemma_turn_exclusivity(g: Game, a: PlayerId, b: PlayerId)
    requires
        a != b,
    ensures
        !(is_accepted_actor(g, a) && is_accepted_actor(g, b)),
{
}

/// Legality soundness: a hand position is accepted by `place_card`
/// exactly when the card there is in the set the legality engine
/// computes for the player.
pub proof fn lemma_legality_soundness(g: Game, id: PlayerId, index: int)
    requires
        g.wf(),
        g.phase == Phase::Active,
        g.current_turn == Some(id),
        0 <= index < hand_of(g, id).len(),
    ensures
        place_accepts(g, index, id) <==> legal_subset(top_card(g), hand_of(g, id), id).contains(
            hand_of(g, id)[index],
        ),
{
    let hand = hand_of(g, id);
    if place_accepts(g, index, id) {
        lemma_legal_subset_complete(top_card(g), hand, id, index);
    }
    if legal_subset(top_card(g), hand, id).contains(hand[index]) {
        lemma_legal_subset_sound(top_card(g), hand, id, hand[index]);
    }
}

/// Hand and pile conservation: in every reachable active state, the
/// draw pile, the discard pile and the hands together hold the full
/// deck of 108 cards. Every mutating operation of the engine ensures
/// the invariant this unfolds.
pub proof fn lemma_hand_pile_conservation(g: Game)
    requires
        g.wf(),
        g.phase == Phase::Active,
    ensures
        g.deck@.len() + g.placed_deck@.len() + sum_hands(g.players.0@) == DECK_SIZE,
{
}

/// Stacking escalation, first counter-stack: placing a DrawTwo on a
/// DrawTwo while no penalty is pending doubles the base into a stack
/// of four.
pub proof fn lemma_stacking_first_counter(g: Game, c: Card)
    requires
        top_card(g).kind == Type::DrawTwo,
        c.kind == Type::DrawTwo,
        g.draw_stack == 0,
    ensures
        place_draw_stack(g, c) == 4,
{
}

/// Stacking escalation, further counter-stacks: a third DrawTwo on a
/// stack of four adds the base again, for six.
pub proof fn lemma_stacking_third(g: Game, c: Card)
    requires
        top_card(g).kind == Type::DrawTwo,
        c.kind == Type::DrawTwo,
        g.draw_stack == 4,
    ensures
        place_draw_stack(g, c) == 6,
{
}

/// Stacking escalation, resolution floor: ending the turn against an
/// unresolved DrawFour with no accumulated stack forces exactly the
/// base of four draws, not the (empty) stack.
pub proof fn lemma_forced_draw_base(g: Game, id: PlayerId)
    requires
        g.draw_stack == 0,
        top_card(g).kind == Type::DrawFour,
        top_card(g).owner.is_some(),
        top_card(g).owner != Some(id),
    ensures
        forced_draw(g, id),
        forced_count(g) == 4,
{
    assert(is_draw_kind(top_card(g).kind));
    assert(draw_base(top_card(g).kind) == 4);
}

/// Reverse with two players: resolving a Reverse flips the direction
/// but performs no extra rotation, so the normal hand-off returns the
/// turn to the very player who resolved it — the two-player
/// "play again" behavior. Together with `end_turn`'s contract this
/// pins the whole transition.
pub proof fn lemma_reverse_two_players(g: Game, id: PlayerId)
    requires
        g.wf(),
        g.phase == Phase::Active,
        g.current_turn == Some(id),
        g.players.0@.len() == 2,
        top_card(g).kind == Type::Reverse,
    ensures
        end_turn_reversed(g) == !g.reversed,
        end_turn_keys_mid(g) == keys_of(g.players.0@),
        next_of(end_turn_keys_mid(g), end_turn_reversed(g)) == id,
{
    let ks = keys_of(g.players.0@);
    if !g.reversed {
        assert(ks.first() == id);
        assert(next_of(ks, true) == id);
    } else {
        assert(ks.last() == id);
        assert(next_of(ks, false) == id);
    }
}

/// Win detection: a player who empties their hand and faces no pending
/// draw penalty wins when their turn ends; `end_turn`'s contract then
/// moves the room to its terminal state and queues no further turn
/// update.
pub proof fn lemma_win_detection(g: Game, id: PlayerId)
    requires
        g.wf(),
        g.phase == Phase::Active,
        g.current_turn == Some(id),
        hand_of(g, id).len() == 0,
        !forced_draw(g, id),
    ensures
        end_turn_wins(g, id),
{
}

} // verus!
