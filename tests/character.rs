use cpd::{
    pick_linear, pick_n_unique_linear, total_average_damage, Attack, Card, CardAction, CardId, Character,
    CharacterId, CharacterRace, DefaultRandomProvider, Health, RandomProvider, Target, U64Range,
};
use std::collections::HashSet;

fn character(health: u64, max_health: u64, deck: Vec<usize>, hand_size: u8) -> Character {
    Character {
        id: CharacterId::new(0),
        name: "Ann".to_string(),
        race: CharacterRace::Human,
        hand: vec![],
        deck: deck.into_iter().map(CardId::new).collect(),
        health: Health::new(health),
        max_health: Health::new(max_health),
        remaining_actions: 0,
        hand_size,
        turn_actions: None,
    }
}

#[test]
fn heal_is_capped_at_max_health() {
    let mut c = character(5, 12, vec![], 1);
    c.heal(Health::new(10));
    assert_eq!(c.health.health, 12);
    let mut c = character(5, 12, vec![], 1);
    c.heal(Health::new(3));
    assert_eq!(c.health.health, 8);
    let mut c = character(5, 12, vec![], 1);
    c.heal(Health::new(u64::MAX));
    assert_eq!(c.health.health, 12);
}

#[test]
fn damage_saturates_at_zero() {
    assert_eq!(Health::new(5).sub(Attack::new(123)).health, 0);
    assert_eq!(Health::new(15).sub(Attack::new(4)).health, 11);
    let mut h = Health::new(3);
    h.sub_assign(Attack::new(3));
    assert_eq!(h.health, 0);
    let mut c = character(1, 1, vec![], 1);
    assert!(!c.is_dead());
    c.health.sub_assign(Attack::new(1));
    assert!(c.is_dead());
    assert_eq!(c.get_default_turn_actions(), None);
    c.turn_actions = Some(3);
    assert_eq!(c.get_default_turn_actions(), Some(3));
}

#[test]
fn reset_hand_draws_hand_size_cards_from_deck() {
    let random = DefaultRandomProvider::default();
    for _ in 0..100 {
        let mut c = character(5, 5, vec![0, 1], 1);
        c.reset_hand(&random);
        assert_eq!(c.hand.len(), 1);
        assert!(c.deck.contains(&c.hand[0]));
        assert_eq!(c.deck.len(), 2);
    }
    let mut c = character(5, 5, vec![3, 4], 9);
    c.reset_hand(&random);
    let mut drawn: Vec<usize> = c.hand.iter().map(|c| c.id).collect();
    drawn.sort();
    assert_eq!(drawn, vec![3, 4]);
}

#[test]
fn test_pick_linear() {
    let random = DefaultRandomProvider::default();
    for _ in 0..1000 {
        let choice_u64 = random.pick_linear_u64(10, 20);
        assert!((10..=20).contains(&choice_u64));
        let choice_usize = random.pick_linear_usize(10, 20);
        assert!((10..=20).contains(&choice_usize));
        assert_eq!(random.pick_linear_u64(7, 7), 7);
    }
    let values: Vec<u8> = (1..=10).collect();
    assert!(values.contains(pick_linear(&values, &random).unwrap()));
    let empty: Vec<u8> = vec![];
    assert_eq!(pick_linear(&empty, &random), None);
}

#[test]
fn test_pick_n_unique_linear() {
    let random = DefaultRandomProvider::default();
    let values: Vec<u8> = (1..=10).collect();
    for _ in 0..1000 {
        assert_eq!(pick_n_unique_linear(&values, 0, &random).len(), 0);

        let result = pick_n_unique_linear(&values, 1, &random);
        assert_eq!(result.len(), 1);
        assert!(*result[0] >= 1 && *result[0] <= 10);

        let result = pick_n_unique_linear(&values, 100, &random);
        assert_eq!(result.len(), 10);
        let result_set: HashSet<u8> = result.iter().map(|v| **v).collect();
        assert_eq!(result_set.len(), 10);

        let result = pick_n_unique_linear(&values, 4, &random);
        let result_set: HashSet<u8> = result.iter().map(|v| **v).collect();
        assert_eq!(result_set.len(), 4);
    }
}

#[test]
fn card_target_is_derived_from_actions() {
    let me = CardAction::Heal { target: Target::Me, amount: U64Range(1, 1) };
    let any = CardAction::GainAction { target: Target::Any, amount: 1 };
    let others = CardAction::Damage { target: Target::Others, amount: U64Range(1, 3) };
    let make = |actions: Vec<CardAction>| Card {
        id: CardId::new(0),
        name: "c".to_string(),
        description: String::new(),
        flavor: None,
        actions,
        range: 1,
    };
    assert_eq!(make(vec![]).target(), Target::Me);
    assert_eq!(make(vec![me]).target(), Target::Me);
    assert_eq!(make(vec![me, any]).target(), Target::Any);
    assert_eq!(make(vec![any, others, me]).target(), Target::Others);
    assert_eq!(*others.target(), Target::Others);
    assert!(Target::Any.is_super_set(&Target::Me));
    assert!(Target::Me.is_super_set(&Target::Me));
    assert!(!Target::Others.is_super_set(&Target::Me));
    assert!(!Target::Me.is_super_set(&Target::Any));
    assert_eq!(total_average_damage(&make(vec![others, me, others])), 4);
    assert_eq!(
        total_average_damage(&make(vec![CardAction::Damage { target: Target::Others, amount: U64Range(u64::MAX, u64::MAX) }; 2])),
        u64::MAX
    );
    let fixed = DefaultRandomProvider::default();
    assert_eq!(U64Range(4, 4).resolve(&fixed), 4);
}
