//! Card values, deck generation, the draw pile, and the legality engine.

use vstd::multiset::Multiset;
use vstd::prelude::*;
use vstd::seq_lib::group_seq_properties;
use rand::seq::SliceRandom;

verus! {

broadcast use group_seq_properties;

/// Identifier of a player; the transport layer hands UUIDs over as
/// their 128-bit value.
pub type PlayerId = u128;

/// The four card colors. Wild cards carry no color until a color switch
/// resolves them, so a card stores an `Option<Color>`.
#[derive(Debug, Clone, Copy, PartialEq, Eq, Structural)]
pub enum Color {
    Red,
    Blue,
    Green,
    Yellow,
}

impl Color {
    /// All colors, in a fixed order.
    pub fn iter() -> (r: Vec<Color>)
        ensures
            r@ =~= seq![Color::Red, Color::Blue, Color::Green, Color::Yellow],
    {
        vec![Color::Red, Color::Blue, Color::Green, Color::Yellow]
    }

    /// The color's name, for chat messages.
    pub fn name(&self) -> (r: &'static str)
        ensures
            r@ == color_label(*self),
    {
        match self {
            Color::Red => "Red",
            Color::Blue => "Blue",
            Color::Green => "Green",
            Color::Yellow => "Yellow",
        }
    }
}

/// The name of a color, as it reads in chat messages.
pub open spec fn color_label(c: Color) -> Seq<char> {
    match c {
        Color::Red => "Red"@,
        Color::Blue => "Blue"@,
        Color::Green => "Green"@,
        Color::Yellow => "Yellow"@,
    }
}

/// The card ranks: ten number ranks and five action ranks.
#[derive(Debug, Clone, Copy, PartialEq, Eq, Structural)]
pub enum Type {
    Zero,
    One,
    Two,
    Three,
    Four,
    Five,
    Six,
    Seven,
    Eight,
    Nine,
    Block,
    Reverse,
    DrawTwo,
    Switch,
    DrawFour,
}

impl Type {
    /// All ranks, in a fixed order.
    pub fn iter() -> (r: Vec<Type>)
        ensures
            r@ =~= seq![
                Type::Zero,
                Type::One,
                Type::Two,
                Type::Three,
                Type::Four,
                Type::Five,
                Type::Six,
                Type::Seven,
                Type::Eight,
                Type::Nine,
                Type::Block,
                Type::Reverse,
                Type::DrawTwo,
                Type::Switch,
                Type::DrawFour,
            ],
    {
        vec![
            Type::Zero,
            Type::One,
            Type::Two,
            Type::Three,
            Type::Four,
            Type::Five,
            Type::Six,
            Type::Seven,
            Type::Eight,
            Type::Nine,
            Type::Block,
            Type::Reverse,
            Type::DrawTwo,
            Type::Switch,
            Type::DrawFour,
        ]
    }
}

/// Whether a rank is one of the two wild ranks, which are colorless
/// until a color switch resolves them.
pub open spec fn is_wild(t: Type) -> bool {
    t == Type::Switch || t == Type::DrawFour
}

/// Whether a rank carries a draw penalty.
pub open spec fn is_draw_kind(t: Type) -> bool {
    t == Type::DrawTwo || t == Type::DrawFour
}

/// The base penalty of a draw rank: two for DrawTwo, four for DrawFour.
pub open spec fn draw_base(t: Type) -> int {
    if t == Type::DrawFour {
        4
    } else {
        2
    }
}

/// Whether a rank may open the discard pile: neither an action nor a
/// wild rank.
pub open spec fn is_number(t: Type) -> bool {
    !(t == Type::Block || t == Type::Reverse || t == Type::DrawTwo || t == Type::Switch
        || t == Type::DrawFour)
}

/// A card: a rank, a color (`None` while a wild card is unresolved) and
/// the player whose special effect is still pending on it (`None` once
/// the effect is neutralized).
#[derive(Debug, Clone, Copy)]
pub struct Card {
    pub kind: Type,
    pub color: Option<Color>,
    pub owner: Option<PlayerId>,
}

impl Card {
    /// A fresh, unowned card.
    pub fn new(kind: Type, color: Option<Color>) -> (r: Card)
        ensures
            r == (Card { kind, color, owner: None::<PlayerId> }),
    {
        Card { kind, color, owner: None }
    }

    /// A card with an explicit pending owner.
    pub fn new_with_owner(kind: Type, color: Option<Color>, owner: Option<PlayerId>) -> (r: Card)
        ensures
            r == (Card { kind, color, owner }),
    {
        Card { kind, color, owner }
    }
}

/// Executable test for wildness, mirroring [`is_wild`].
pub fn kind_is_wild(t: &Type) -> (r: bool)
    ensures
        r == is_wild(*t),
{
    match t {
        Type::Switch => true,
        Type::DrawFour => true,
        _ => false,
    }
}

/// Executable test for a draw rank, mirroring [`is_draw_kind`].
pub fn kind_is_draw(t: &Type) -> (r: bool)
    ensures
        r == is_draw_kind(*t),
{
    match t {
        Type::DrawTwo => true,
        Type::DrawFour => true,
        _ => false,
    }
}

/// Executable test for a number rank, mirroring [`is_number`].
pub fn kind_is_number(t: &Type) -> (r: bool)
    ensures
        r == is_number(*t),
{
    match t {
        Type::Block => false,
        Type::Reverse => false,
        Type::DrawTwo => false,
        Type::Switch => false,
        Type::DrawFour => false,
        _ => true,
    }
}

/// Equality of two optional colors.
pub fn opt_color_eq(a: &Option<Color>, b: &Option<Color>) -> (r: bool)
    ensures
        r == (*a == *b),
{
    match (a, b) {
        (Some(x), Some(y)) => *x == *y,
        (None, None) => true,
        _ => false,
    }
}

/// Equality of two optional player identifiers.
pub fn opt_id_eq(a: &Option<PlayerId>, b: &Option<PlayerId>) -> (r: bool)
    ensures
        r == (*a == *b),
{
    match (a, b) {
        (Some(x), Some(y)) => *x == *y,
        (None, None) => true,
        _ => false,
    }
}

/// The legality decision table for one candidate card `c` against the
/// top of the discard pile, evaluated for the player `pid`:
/// 1. re-covering one's own unresolved effect allows only the same rank;
/// 2. a neutral top card allows wilds, same color, and same rank;
/// 3. an unresolved draw rank held by another player may only be
///    counter-stacked with the same rank;
/// 4. any other card held by another player behaves as a neutral one.
pub open spec fn card_allowed(top: Card, c: Card, pid: PlayerId) -> bool {
    if top.owner == Some(pid) {
        c.kind == top.kind
    } else if top.owner.is_none() {
        is_wild(c.kind) || c.color == top.color || c.kind == top.kind
    } else if is_draw_kind(top.kind) {
        c.kind == top.kind
    } else {
        is_wild(c.kind) || c.color == top.color || c.kind == top.kind
    }
}

/// Executable mirror of [`card_allowed`].
pub fn card_is_allowed(top: &Card, c: &Card, pid: PlayerId) -> (r: bool)
    ensures
        r == card_allowed(*top, *c, pid),
{
    match top.owner {
        Some(o) => {
            if o == pid {
                c.kind == top.kind
            } else if kind_is_draw(&top.kind) {
                c.kind == top.kind
            } else {
                kind_is_wild(&c.kind) || opt_color_eq(&c.color, &top.color) || c.kind == top.kind
            }
        },
        None => {
            kind_is_wild(&c.kind) || opt_color_eq(&c.color, &top.color) || c.kind == top.kind
        },
    }
}

/// The subset of `s` that is legal against `top` for player `pid`, in
/// hand order.
pub open spec fn legal_subset(top: Card, s: Seq<Card>, pid: PlayerId) -> Seq<Card> {
    s.filter(|c: Card| card_allowed(top, c, pid))
}

proof fn lemma_legal_subset_empty(top: Card, s: Seq<Card>, pid: PlayerId)
    requires
        s.len() == 0,
    ensures
        legal_subset(top, s, pid) == Seq::<Card>::empty(),
{
    reveal(Seq::filter);
}

proof fn lemma_legal_subset_step(top: Card, s: Seq<Card>, i: int, pid: PlayerId)
    requires
        0 <= i < s.len(),
    ensures
        legal_subset(top, s.subrange(0, i + 1), pid) == if card_allowed(top, s[i], pid) {
            legal_subset(top, s.subrange(0, i), pid).push(s[i])
        } else {
            legal_subset(top, s.subrange(0, i), pid)
        },
{
    let pre = s.subrange(0, i);
    let ext = s.subrange(0, i + 1);
    assert(ext =~= pre.push(s[i]));
    reveal(Seq::filter);
    assert(ext.drop_last() =~= pre);
    assert(ext.last() == s[i]);
}

impl Card {
    /// The cards of `deck` that may be played on `last_card` by player
    /// `owner`, in hand order.
    pub fn get_allowed_cards(last_card: Card, deck: Vec<Card>, owner: PlayerId) -> (r: Vec<Card>)
        ensures
            r@ == legal_subset(last_card, deck@, owner),
    {
        let mut l: Vec<Card> = Vec::new();
        proof {
            lemma_legal_subset_empty(last_card, deck@.subrange(0, 0), owner);
        }
        for i in 0..deck.len()
            invariant
                l@ == legal_subset(last_card, deck@.subrange(0, i as int), owner),
        {
            proof {
                lemma_legal_subset_step(last_card, deck@, i as int, owner);
            }
            if card_is_allowed(&last_card, &deck[i], owner) {
                l.push(deck[i]);
            }
        }
        assert(deck@.subrange(0, deck@.len() as int) =~= deck@);
        l
    }
}

/// Completeness of the legal subset: every allowed card of the hand
/// appears in it.
pub proof fn lemma_legal_subset_complete(top: Card, s: Seq<Card>, pid: PlayerId, i: int)
    requires
        0 <= i < s.len(),
        card_allowed(top, s[i], pid),
    ensures
        legal_subset(top, s, pid).contains(s[i]),
    decreases s.len(),
{
    reveal(Seq::filter);
    if i == s.len() - 1 {
        assert(s.last() == s[i]);
        let sub = legal_subset(top, s.drop_last(), pid);
        assert(legal_subset(top, s, pid) == sub.push(s[i]));
        assert(legal_subset(top, s, pid).last() == s[i]);
    } else {
        lemma_legal_subset_complete(top, s.drop_last(), pid, i);
        let sub = legal_subset(top, s.drop_last(), pid);
        let j = choose|j: int| 0 <= j < sub.len() && sub[j] == s[i];
        if card_allowed(top, s.last(), pid) {
            assert(legal_subset(top, s, pid)[j] == s[i]);
        } else {
            assert(legal_subset(top, s, pid)[j] == s[i]);
        }
    }
}

/// Soundness of the legal subset: everything in it is an allowed card
/// of the hand.
pub proof fn lemma_legal_subset_sound(top: Card, s: Seq<Card>, pid: PlayerId, c: Card)
    requires
        legal_subset(top, s, pid).contains(c),
    ensures
        card_allowed(top, c, pid),
        s.contains(c),
    decreases s.len(),
{
    reveal(Seq::filter);
    if s.len() == 0 {
    } else {
        let sub = legal_subset(top, s.drop_last(), pid);
        if card_allowed(top, s.last(), pid) && c == s.last() {
            assert(s.contains(c)) by {
                assert(s[s.len() - 1] == c);
            }
        } else {
            assert(sub.contains(c)) by {
                let j = choose|j: int|
                    0 <= j < legal_subset(top, s, pid).len() && legal_subset(top, s, pid)[j] == c;
                if card_allowed(top, s.last(), pid) {
                    assert(j < sub.len());
                    assert(sub[j] == c);
                } else {
                    assert(sub[j] == c);
                }
            }
            lemma_legal_subset_sound(top, s.drop_last(), pid, c);
            let j = choose|j: int| 0 <= j < s.drop_last().len() && s.drop_last()[j] == c;
            assert(s[j] == c);
        }
    }
}

/// Whether some card of `s` bears a number rank.
pub open spec fn has_number_card(s: Seq<Card>) -> bool {
    exists|i: int| 0 <= i < s.len() && is_number(s[i].kind)
}

/// The position of the first number-ranked card of `s`.
pub open spec fn first_number_index(s: Seq<Card>) -> int
    decreases s.len(),
{
    if s.len() == 0 {
        0
    } else if is_number(s[0].kind) {
        0
    } else {
        1 + first_number_index(s.drop_first())
    }
}

proof fn lemma_first_number_index(s: Seq<Card>, i: int)
    requires
        0 <= i < s.len(),
        is_number(s[i].kind),
        forall|j: int| 0 <= j < i ==> !is_number(s[j].kind),
    ensures
        first_number_index(s) == i,
    decreases s.len(),
{
    if i > 0 {
        lemma_first_number_index(s.drop_first(), i - 1);
    }
}

impl Card {
    /// Removes and returns the first number-ranked card of the draw
    /// pile, leaving the remaining cards in their relative order; the
    /// opening card of a game may be neither an action nor a wild card.
    pub fn get_allowed_start_card(deck: &mut Vec<Card>) -> (r: Option<Card>)
        ensures
            r.is_some() <==> has_number_card(old(deck)@),
            r.is_some() ==> {
                let i = first_number_index(old(deck)@);
                &&& 0 <= i < old(deck)@.len()
                &&& is_number(old(deck)@[i].kind)
                &&& r == Some(old(deck)@[i])
                &&& final(deck)@ == old(deck)@.remove(i)
            },
            r.is_none() ==> final(deck)@ == old(deck)@,
    {
        let n = deck.len();
        for i in 0..n
            invariant
                n == deck@.len(),
                deck@ == old(deck)@,
                forall|j: int| 0 <= j < i ==> !is_number(deck@[j].kind),
        {
            if kind_is_number(&deck[i].kind) {
                proof {
                    lemma_first_number_index(deck@, i as int);
                }
                let c = deck.remove(i);
                return Some(c);
            }
        }
        None
    }
}

/// Relies on rand's `SliceRandom::shuffle` (with the generator from
/// `rand::rng`): an in-place permutation of the slice, so the multiset
/// of elements and the length are unchanged.
#[verifier::external_body]
fn shuffle_cards(v: &mut Vec<Card>)
    ensures
        final(v)@.to_multiset() == old(v)@.to_multiset(),
        final(v)@.len() == old(v)@.len(),
{
    v.shuffle(&mut rand::rng());
}

/// If two sequences hold the same multiset of cards and every card of
/// the first satisfies `pred`, so does every card of the second.
proof fn lemma_multiset_all(a: Seq<Card>, b: Seq<Card>, pred: spec_fn(Card) -> bool)
    requires
        a.to_multiset() == b.to_multiset(),
        forall|i: int| 0 <= i < a.len() ==> pred(a[i]),
    ensures
        forall|j: int| 0 <= j < b.len() ==> pred(b[j]),
{
    broadcast use vstd::seq_lib::group_to_multiset_ensures;

    assert forall|j: int| 0 <= j < b.len() implies pred(b[j]) by {
        assert(b.contains(b[j]));
        assert(a.to_multiset().count(b[j]) > 0);
        assert(a.contains(b[j]));
    }
}

/// A multiset-preserving permutation keeps a number card present.
proof fn lemma_multiset_has_number(a: Seq<Card>, b: Seq<Card>)
    requires
        a.to_multiset() == b.to_multiset(),
        has_number_card(a),
    ensures
        has_number_card(b),
{
    broadcast use vstd::seq_lib::group_to_multiset_ensures;

    let i = choose|i: int| 0 <= i < a.len() && is_number(a[i].kind);
    assert(a.contains(a[i]));
    assert(b.to_multiset().count(a[i]) > 0);
    assert(b.contains(a[i]));
}

/// The full deck holds two copies of every pair of a color and a
/// non-wild rank, and two colorless copies of each wild rank: 108
/// cards in all.
pub const DECK_SIZE: usize = 108;

/// The position of a color in the fixed order of [`Color::iter`].
pub open spec fn color_rank(c: Color) -> int {
    match c {
        Color::Red => 0,
        Color::Blue => 1,
        Color::Green => 2,
        Color::Yellow => 3,
    }
}

/// The position of a rank in the fixed order of [`Type::iter`].
pub open spec fn type_rank(t: Type) -> int {
    match t {
        Type::Zero => 0,
        Type::One => 1,
        Type::Two => 2,
        Type::Three => 3,
        Type::Four => 4,
        Type::Five => 5,
        Type::Six => 6,
        Type::Seven => 7,
        Type::Eight => 8,
        Type::Nine => 9,
        Type::Block => 10,
        Type::Reverse => 11,
        Type::DrawTwo => 12,
        Type::Switch => 13,
        Type::DrawFour => 14,
    }
}

/// How many copies of the card value `c` the full deck holds: two of
/// every colored, non-wild card, two of each colorless wild, and none
/// of anything else (owned cards, colorless non-wilds, colored wilds).
pub open spec fn full_deck_count(c: Card) -> int {
    if c.owner.is_some() {
        0
    } else if is_wild(c.kind) {
        if c.color.is_none() {
            2
        } else {
            0
        }
    } else {
        match c.color {
            Some(_) => 2,
            None => 0,
        }
    }
}

/// How many copies of `c` the deck builder has pushed after finishing
/// the first `ci` colors and, within the current color, the first `ti`
/// plain ranks.
spec fn built_count(c: Card, ci: int, ti: int) -> int {
    if c.owner.is_some() || is_wild(c.kind) {
        0
    } else {
        match c.color {
            None => 0,
            Some(col) => if color_rank(col) < ci {
                2
            } else if color_rank(col) == ci && type_rank(c.kind) < ti {
                2
            } else {
                0
            },
        }
    }
}

impl Card {
    /// A freshly shuffled full deck: one fixed 108-card multiset
    /// ([`full_deck_count`] gives each card's multiplicity) in a chance
    /// order, every card unowned, among them number cards to open the
    /// discard pile with.
    pub fn generate_deck() -> (r: Vec<Card>)
        ensures
            r@.len() == DECK_SIZE,
            has_number_card(r@),
            forall|i: int| 0 <= i < r@.len() ==> r@[i].owner.is_none(),
            forall|c: Card| #[trigger] r@.to_multiset().count(c) == full_deck_count(c),
    {
        broadcast use vstd::seq_lib::group_to_multiset_ensures;

        let colors = Color::iter();
        let plain: Vec<Type> = vec![
            Type::Zero,
            Type::One,
            Type::Two,
            Type::Three,
            Type::Four,
            Type::Five,
            Type::Six,
            Type::Seven,
            Type::Eight,
            Type::Nine,
            Type::Block,
            Type::Reverse,
            Type::DrawTwo,
        ];
        proof {
            assert(forall|k: int| 0 <= k < 13 ==> type_rank(#[trigger] plain@[k]) == k);
            assert(forall|k: int| 0 <= k < 4 ==> color_rank(#[trigger] colors@[k]) == k);
        }
        let mut l: Vec<Card> = Vec::new();
        proof {
            assert(l@.to_multiset() =~= Multiset::<Card>::empty());
        }
        for ci in 0..colors.len()
            invariant
                colors@.len() == 4,
                plain@.len() == 13,
                plain@[0] == Type::Zero,
                forall|k: int| 0 <= k < 13 ==> type_rank(#[trigger] plain@[k]) == k,
                forall|k: int| 0 <= k < 4 ==> color_rank(#[trigger] colors@[k]) == k,
                l@.len() == ci * 26,
                ci > 0 ==> l@.len() > 0 && l@[0].kind == Type::Zero,
                forall|k: int| 0 <= k < l@.len() ==> l@[k].owner.is_none(),
                forall|c: Card| #[trigger] l@.to_multiset().count(c) == built_count(
                    c,
                    ci as int,
                    0,
                ),
        {
            for ti in 0..plain.len()
                invariant
                    colors@.len() == 4,
                    plain@.len() == 13,
                    plain@[0] == Type::Zero,
                    forall|k: int| 0 <= k < 13 ==> type_rank(#[trigger] plain@[k]) == k,
                    forall|k: int| 0 <= k < 4 ==> color_rank(#[trigger] colors@[k]) == k,
                    ci < 4,
                    l@.len() == ci * 26 + ti * 2,
                    l@.len() > 0 ==> l@[0].kind == Type::Zero,
                    ci == 0 && ti == 0 ==> l@.len() == 0,
                    forall|k: int| 0 <= k < l@.len() ==> l@[k].owner.is_none(),
                    forall|c: Card| #[trigger] l@.to_multiset().count(c) == built_count(
                        c,
                        ci as int,
                        ti as int,
                    ),
            {
                broadcast use vstd::seq_lib::group_to_multiset_ensures;

                let first = l.len() == 0;
                let t = plain[ti];
                let c = colors[ci];
                let ghost pre = l@;
                let ghost x = Card { kind: t, color: Some(c), owner: None };
                l.push(Card::new(t, Some(c)));
                l.push(Card::new(t, Some(c)));
                proof {
                    if first {
                        assert(ti == 0);
                        assert(l@[0].kind == plain@[0]);
                    }
                    assert(l@ == pre.push(x).push(x));
                    assert(l@.to_multiset() =~= pre.to_multiset().insert(x).insert(x));
                    assert forall|cc: Card|
                        built_count(cc, ci as int, ti + 1) == built_count(cc, ci as int, ti as int)
                            + (if cc == x {
                            2int
                        } else {
                            0int
                        }) by {
                        assert(type_rank(x.kind) == ti);
                        assert(color_rank(c) == ci);
                        if cc != x && !cc.owner.is_some() && !is_wild(cc.kind) {
                            match cc.color {
                                Some(col) => {
                                    if color_rank(col) == ci && type_rank(cc.kind) == ti {
                                        assert(col == c);
                                        assert(cc.kind == x.kind);
                                        assert(cc == x);
                                    }
                                },
                                None => {},
                            }
                        }
                    }
                }
            }
            proof {
                assert forall|c: Card|
                    built_count(c, ci as int, 13) == built_count(c, ci + 1, 0) by {
                    if !c.owner.is_some() && !is_wild(c.kind) {
                        assert(type_rank(c.kind) < 13);
                    }
                }
            }
        }
        let ghost sw = Card { kind: Type::Switch, color: None, owner: None };
        let ghost d4 = Card { kind: Type::DrawFour, color: None, owner: None };
        let ghost base = l@;
        l.push(Card::new(Type::Switch, None));
        l.push(Card::new(Type::Switch, None));
        l.push(Card::new(Type::DrawFour, None));
        l.push(Card::new(Type::DrawFour, None));
        assert(l@.len() == 108);
        assert(is_number(l@[0].kind));
        proof {
            assert(l@ == base.push(sw).push(sw).push(d4).push(d4));
            assert(l@.to_multiset() =~= base.to_multiset().insert(sw).insert(sw).insert(
                d4,
            ).insert(d4));
            assert forall|c: Card| #[trigger] l@.to_multiset().count(c) == full_deck_count(c) by {
                assert(base.to_multiset().count(c) == built_count(c, 4, 0));
            }
        }
        let ghost before = l@;
        shuffle_cards(&mut l);
        proof {
            lemma_multiset_has_number(before, l@);
            lemma_multiset_all(before, l@, |c: Card| c.owner.is_none());
        }
        l
    }
}

/// Draws `n` cards from the front of the draw pile. If the pile runs
/// out mid-draw, every discarded card except the current top card is
/// reshuffled and appended to the draw pile before continuing. Returns
/// `None`, changing nothing, exactly when fewer than `n` cards exist
/// across both piles outside the top card.
pub fn draw_from(deck: &mut Vec<Card>, placed: &mut Vec<Card>, n: usize) -> (r: Option<Vec<Card>>)
    requires
        old(placed)@.len() >= 1,
        old(deck)@.len() + old(placed)@.len() <= usize::MAX,
    ensures
        r.is_some() <==> n <= old(deck)@.len() + old(placed)@.len() - 1,
        r.is_none() ==> final(deck)@ == old(deck)@ && final(placed)@ == old(placed)@,
        r.is_some() ==> {
            &&& r.unwrap()@.len() == n
            &&& final(placed)@.len() >= 1
            &&& final(placed)@[0] == old(placed)@[0]
            &&& final(deck)@.len() + final(placed)@.len() + n == old(deck)@.len() + old(
                placed,
            )@.len()
            &&& old(deck)@.to_multiset().add(old(placed)@.to_multiset()) == r.unwrap(
            )@.to_multiset().add(final(deck)@.to_multiset()).add(final(placed)@.to_multiset())
        },
        r.is_some() && n <= old(deck)@.len() ==> {
            &&& r.unwrap()@ == old(deck)@.subrange(0, n as int)
            &&& final(deck)@ == old(deck)@.subrange(n as int, old(deck)@.len() as int)
            &&& final(placed)@ == old(placed)@
        },
{
    let avail = deck.len() + (placed.len() - 1);
    if avail < n {
        return None;
    }
    let mut out: Vec<Card> = Vec::new();
    let ghost d0 = deck@;
    let ghost p0 = placed@;
    proof {
        broadcast use vstd::seq_lib::group_to_multiset_ensures;

        assert(out@.to_multiset() =~= Multiset::<Card>::empty());
        assert(d0.to_multiset().add(p0.to_multiset()) =~= out@.to_multiset().add(
            deck@.to_multiset(),
        ).add(placed@.to_multiset()));
    }
    for i in 0..n
        invariant
            out@.len() == i,
            placed@.len() >= 1,
            placed@[0] == p0[0],
            deck@.len() + placed@.len() + i == d0.len() + p0.len(),
            n <= d0.len() + p0.len() - 1,
            i <= n,
            deck@.len() + placed@.len() - 1 >= n - i,
            d0.to_multiset().add(p0.to_multiset()) == out@.to_multiset().add(
                deck@.to_multiset(),
            ).add(placed@.to_multiset()),
            n <= d0.len() ==> {
                &&& out@ == d0.subrange(0, i as int)
                &&& deck@ == d0.subrange(i as int, d0.len() as int)
                &&& placed@ == p0
            },
    {
        broadcast use vstd::seq_lib::group_to_multiset_ensures;

        let ghost deck_in = deck@;
        let ghost placed_in = placed@;
        let ghost out_in = out@;
        if deck.len() == 0 {
            // the draw pile ran dry: recycle the discard history
            let mut rest = placed.split_off(1);
            let ghost rest0 = rest@;
            shuffle_cards(&mut rest);
            let ghost rest1 = rest@;
            deck.append(&mut rest);
            proof {
                assert(placed@[0] == p0[0]);
                // recycling moves the history between the piles intact
                assert(placed_in =~= placed@ + rest0);
                vstd::seq_lib::lemma_multiset_commutative(placed@, rest0);
                assert(deck_in =~= Seq::<Card>::empty());
                assert(deck_in.to_multiset() =~= Multiset::<Card>::empty());
                assert(deck@ =~= rest1);
                assert(deck@.to_multiset() == rest0.to_multiset());
                assert(out@.to_multiset().add(deck@.to_multiset()).add(placed@.to_multiset())
                    =~= out_in.to_multiset().add(deck_in.to_multiset()).add(
                    placed_in.to_multiset(),
                )) by {
                    broadcast use vstd::multiset::group_multiset_axioms;

                    vstd::seq_lib::lemma_multiset_commutative(placed@, rest0);
                    assert(placed_in == placed@ + rest0);
                    assert(placed_in.to_multiset() == placed@.to_multiset().add(
                        rest0.to_multiset(),
                    ));
                }
            }
        }
        let ghost deck_mid = deck@;
        let c = deck.remove(0);
        out.push(c);
        proof {
            if n <= d0.len() {
                assert(out@ =~= d0.subrange(0, i + 1 as int));
                assert(deck@ =~= d0.subrange(i + 1 as int, d0.len() as int));
            }
            // the drawn card changes pile, nothing else moves
            assert(deck@.to_multiset() =~= deck_mid.to_multiset().remove(c)) by {
                assert(deck@ == deck_mid.remove(0));
                assert(deck_mid.remove(0).to_multiset() =~= deck_mid.to_multiset().remove(
                    deck_mid[0],
                ));
            }
            assert(deck_mid.contains(c)) by {
                assert(deck_mid[0] == c);
            }
            assert(out@.to_multiset().add(deck@.to_multiset()).add(placed@.to_multiset())
                =~= out_in.to_multiset().add(deck_mid.to_multiset()).add(
                placed@.to_multiset(),
            )) by {
                broadcast use vstd::multiset::group_multiset_axioms;

                assert(deck_mid.to_multiset().count(c) > 0);
                assert(out@.to_multiset() =~= out_in.to_multiset().insert(c));
            }
        }
    }
    Some(out)
}

} // verus!
