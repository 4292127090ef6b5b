use uno_server::cards::{Card, Color, PlayerId, Type};

fn card(kind: Type, color: Option<Color>) -> Card {
    Card::new(kind, color)
}

fn owned(kind: Type, color: Option<Color>, owner: PlayerId) -> Card {
    Card::new_with_owner(kind, color, Some(owner))
}

#[test]
fn deck_has_one_hundred_eight_cards() {
    let deck = Card::generate_deck();
    assert_eq!(deck.len(), 108);
    for c in &deck {
        assert!(c.owner.is_none());
    }
    let mut wilds = 0;
    let mut colored = 0;
    for c in &deck {
        match c.kind {
            Type::Switch | Type::DrawFour => {
                assert!(c.color.is_none());
                wilds += 1;
            }
            _ => {
                assert!(c.color.is_some());
                colored += 1;
            }
        }
    }
    assert_eq!(wilds, 4);
    assert_eq!(colored, 104);
}

#[test]
fn deck_rank_multiplicities() {
    let deck = Card::generate_deck();
    for t in Type::iter() {
        let n = deck.iter().filter(|c| c.kind == t).count();
        match t {
            Type::Switch | Type::DrawFour => assert_eq!(n, 2),
            _ => assert_eq!(n, 8),
        }
    }
}

#[test]
fn start_card_skips_action_cards() {
    let mut deck = vec![
        card(Type::Block, Some(Color::Red)),
        card(Type::DrawTwo, Some(Color::Blue)),
        card(Type::Five, Some(Color::Green)),
        card(Type::Seven, Some(Color::Red)),
    ];
    let picked = Card::get_allowed_start_card(&mut deck).unwrap();
    assert!(matches!(picked.kind, Type::Five));
    assert_eq!(deck.len(), 3);
    assert!(matches!(deck[0].kind, Type::Block));
    assert!(matches!(deck[1].kind, Type::DrawTwo));
    assert!(matches!(deck[2].kind, Type::Seven));
}

#[test]
fn start_card_missing_when_only_action_cards() {
    let mut deck = vec![
        card(Type::Block, Some(Color::Red)),
        card(Type::Switch, None),
    ];
    assert!(Card::get_allowed_start_card(&mut deck).is_none());
    assert_eq!(deck.len(), 2);
}

#[test]
fn legality_own_unresolved_effect_only_same_rank() {
    let me: PlayerId = 7;
    let top = owned(Type::Block, Some(Color::Red), me);
    let hand = vec![
        card(Type::Block, Some(Color::Blue)),
        card(Type::Five, Some(Color::Red)),
        card(Type::Switch, None),
    ];
    let legal = Card::get_allowed_cards(top, hand, me);
    assert_eq!(legal.len(), 1);
    assert!(matches!(legal[0].kind, Type::Block));
}

#[test]
fn legality_neutral_top_allows_wild_color_and_rank() {
    let me: PlayerId = 7;
    let top = card(Type::Five, Some(Color::Red));
    let hand = vec![
        card(Type::Switch, None),
        card(Type::Nine, Some(Color::Red)),
        card(Type::Five, Some(Color::Blue)),
        card(Type::Two, Some(Color::Green)),
    ];
    let legal = Card::get_allowed_cards(top, hand, me);
    assert_eq!(legal.len(), 3);
    assert!(matches!(legal[0].kind, Type::Switch));
    assert!(matches!(legal[1].kind, Type::Nine));
    assert!(matches!(legal[2].kind, Type::Five));
}

#[test]
fn legality_foreign_draw_rank_only_counter_stack() {
    let me: PlayerId = 7;
    let other: PlayerId = 9;
    let top = owned(Type::DrawTwo, Some(Color::Red), other);
    let hand = vec![
        card(Type::Switch, None),
        card(Type::Five, Some(Color::Red)),
        card(Type::DrawTwo, Some(Color::Green)),
    ];
    let legal = Card::get_allowed_cards(top, hand, me);
    assert_eq!(legal.len(), 1);
    assert!(matches!(legal[0].kind, Type::DrawTwo));
}

#[test]
fn legality_foreign_plain_card_behaves_neutral() {
    let me: PlayerId = 7;
    let other: PlayerId = 9;
    let top = owned(Type::Five, Some(Color::Red), other);
    let hand = vec![
        card(Type::Switch, None),
        card(Type::Two, Some(Color::Red)),
        card(Type::Five, Some(Color::Green)),
        card(Type::Nine, Some(Color::Blue)),
    ];
    let legal = Card::get_allowed_cards(top, hand, me);
    assert_eq!(legal.len(), 3);
}

#[test]
fn draw_recycles_discard_history() {
    let mut deck = vec![card(Type::One, Some(Color::Red))];
    let mut placed = vec![
        card(Type::Five, Some(Color::Red)),
        card(Type::Six, Some(Color::Blue)),
        card(Type::Seven, Some(Color::Green)),
    ];
    let drawn = uno_server::cards::draw_from(&mut deck, &mut placed, 3).unwrap();
    assert_eq!(drawn.len(), 3);
    assert_eq!(placed.len(), 1);
    assert!(matches!(placed[0].kind, Type::Five));
    assert_eq!(deck.len() + placed.len() + drawn.len(), 4);
}

#[test]
fn draw_fails_when_cards_run_out() {
    let mut deck = vec![card(Type::One, Some(Color::Red))];
    let mut placed = vec![card(Type::Five, Some(Color::Red))];
    assert!(uno_server::cards::draw_from(&mut deck, &mut placed, 2).is_none());
    assert_eq!(deck.len(), 1);
    assert_eq!(placed.len(), 1);
}

#[test]
fn color_names() {
    assert_eq!(Color::Red.name(), "Red");
    assert_eq!(Color::Yellow.name(), "Yellow");
    assert_eq!(Color::iter().len(), 4);
    assert_eq!(Type::iter().len(), 15);
}
