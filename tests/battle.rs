use cpd::battle_file;
use cpd::battle_file::BattleFileError;
use cpd::{
    Action, ActionsMenu, Battle, BattleMenu, BattleMenuItem, BattleMenuOutput, CardId, CharacterId, DumbActor,
    GridLocation, PassMenuItem, RandomProvider, RoundStep, TeamId,
};

/// Always draws the lower bound.
struct Lowest;

impl RandomProvider for Lowest {
    fn pick_linear_u64(&self, lower_bound: u64, _upper_bound: u64) -> u64 {
        lower_bound
    }

    fn pick_linear_usize(&self, lower_bound: usize, _upper_bound: usize) -> usize {
        lower_bound
    }
}

fn member(name: &str, health: u64, cards: Vec<usize>, location: (usize, usize)) -> battle_file::TeamMember {
    battle_file::TeamMember {
        name: name.to_string(),
        race: battle_file::Race::Human,
        base_health: health,
        max_health: None,
        cards,
        hand_size: None,
        is_player: false,
        image: None,
        location,
    }
}

fn card(id: usize, actions: Vec<battle_file::CardAction>, range: Option<u64>) -> battle_file::Card {
    battle_file::Card {
        id,
        name: format!("Card {}", id),
        description: String::new(),
        flavor: None,
        actions,
        range,
    }
}

fn kick() -> battle_file::Card {
    card(
        0,
        vec![battle_file::CardAction::Damage {
            target: battle_file::Target::Others,
            amount: battle_file::MaybeU64Range::Absolute(123),
        }],
        Some(999),
    )
}

fn two_team_file(cards: Vec<battle_file::Card>, a_cards: Vec<usize>) -> battle_file::Battle {
    battle_file::Battle {
        title: "Example Game".to_string(),
        description: "Example Description".to_string(),
        board: battle_file::Board { width: 2, height: 2 },
        introduction: None,
        default_hand_size: 2,
        cards,
        teams: vec![
            battle_file::Team { name: "Team A".to_string(), members: vec![member("A", 5, a_cards, (0, 0))] },
            battle_file::Team { name: "Team B".to_string(), members: vec![member("B", 15, vec![0], (1, 1))] },
        ],
    }
}

#[test]
fn one_blow_ends_the_battle() {
    let mut battle = Battle::from_file(two_team_file(vec![kick()], vec![0]), Lowest).unwrap();
    let a = CharacterId::new(0);
    let b = CharacterId::new(1);
    assert_eq!(battle.check_only_one_team_alive(), None);
    battle.characters[0].hand = vec![CardId::new(0)];
    assert!(battle.handle_action(a, Action::Act(CardId::new(0), b)));
    assert_eq!(battle.characters[1].health.health, 0);
    assert!(battle.characters[1].is_dead());
    assert_eq!(battle.check_only_one_team_alive(), Some(TeamId::new(0)));
}

#[test]
fn played_card_leaves_hand_but_not_deck() {
    let mut battle = Battle::from_file(two_team_file(vec![kick()], vec![0]), Lowest).unwrap();
    battle.characters[0].hand = vec![CardId::new(0)];
    let before = battle.history.len();
    assert!(battle.handle_action(CharacterId::new(0), Action::Act(CardId::new(0), CharacterId::new(1))));
    assert!(!battle.characters[0].hand.contains(&CardId::new(0)));
    assert!(battle.characters[0].deck.contains(&CardId::new(0)));
    assert_eq!(battle.history.len(), before + 1);
}

#[test]
fn illegal_actions_change_nothing() {
    let mut battle = Battle::from_file(two_team_file(vec![kick()], vec![0]), Lowest).unwrap();
    let a = CharacterId::new(0);
    // card not in hand
    assert!(!battle.handle_action(a, Action::Act(CardId::new(0), CharacterId::new(1))));
    battle.characters[0].hand = vec![CardId::new(0)];
    // a card for others aimed at oneself
    assert!(!battle.handle_action(a, Action::Act(CardId::new(0), a)));
    // unknown card and unknown target
    assert!(!battle.handle_action(a, Action::Act(CardId::new(5), CharacterId::new(1))));
    assert!(!battle.handle_action(a, Action::Act(CardId::new(0), CharacterId::new(9))));
    assert_eq!(battle.characters[1].health.health, 15);
    assert_eq!(battle.history.len(), 0);
    assert_eq!(battle.characters[0].hand.len(), 1);
}

#[test]
fn out_of_range_target_is_refused() {
    let mut short = kick();
    short.range = Some(1);
    let mut battle = Battle::from_file(two_team_file(vec![short], vec![0]), Lowest).unwrap();
    battle.characters[0].hand = vec![CardId::new(0)];
    assert!(!battle.handle_action(CharacterId::new(0), Action::Act(CardId::new(0), CharacterId::new(1))));
    assert_eq!(battle.characters[1].health.health, 15);
}

#[test]
fn dead_target_is_refused() {
    let mut battle = Battle::from_file(two_team_file(vec![kick()], vec![0, 0]), Lowest).unwrap();
    battle.characters[0].hand = vec![CardId::new(0), CardId::new(0)];
    assert!(battle.handle_action(CharacterId::new(0), Action::Act(CardId::new(0), CharacterId::new(1))));
    assert!(!battle.handle_action(CharacterId::new(0), Action::Act(CardId::new(0), CharacterId::new(1))));
}

#[test]
fn pass_is_legal_and_logged() {
    let mut battle = Battle::from_file(two_team_file(vec![kick()], vec![0]), Lowest).unwrap();
    battle.characters[0].remaining_actions = 2;
    assert!(battle.apply_action(CharacterId::new(0), Action::Pass));
    assert_eq!(battle.history.len(), 1);
    assert_eq!(battle.characters[0].remaining_actions, 1);
}

#[test]
fn self_heal_is_capped_and_gain_action_adds() {
    let cards = vec![
        kick(),
        card(
            1,
            vec![
                battle_file::CardAction::Heal {
                    target: battle_file::Target::Me,
                    amount: battle_file::MaybeU64Range::Range(10, 20),
                },
                battle_file::CardAction::GainAction {
                    target: battle_file::Target::Me,
                    amount: battle_file::MaybeU64Range::Absolute(2),
                },
            ],
            None,
        ),
    ];
    let mut file = two_team_file(cards, vec![1]);
    file.teams[0].members[0].max_health = Some(12);
    let mut battle = Battle::from_file(file, Lowest).unwrap();
    let a = CharacterId::new(0);
    battle.characters[0].hand = vec![CardId::new(1)];
    assert!(battle.handle_action(a, Action::Act(CardId::new(1), a)));
    assert_eq!(battle.characters[0].health.health, 12);
    assert_eq!(battle.characters[0].remaining_actions, 2);
}

#[test]
fn move_steps_onto_a_free_neighbour() {
    let mut battle = Battle::from_file(two_team_file(vec![kick()], vec![0]), Lowest).unwrap();
    let a = CharacterId::new(0);
    assert!(!battle.handle_action(a, Action::Move(a, GridLocation { x: 1, y: 1 })));
    assert!(!battle.handle_action(a, Action::Move(CharacterId::new(1), GridLocation { x: 1, y: 0 })));
    assert!(battle.handle_action(a, Action::Move(a, GridLocation { x: 1, y: 0 })));
    assert_eq!(battle.board.find(&cpd::BoardItem::Character(a)), Some((1, 0)));
    assert_eq!(battle.board.distance(cpd::BoardItem::Character(a), cpd::BoardItem::Character(CharacterId::new(1))), Some(1));
}

#[test]
fn no_team_or_two_teams_alive_gives_none() {
    let mut battle = Battle::from_file(two_team_file(vec![kick()], vec![0]), Lowest).unwrap();
    assert_eq!(battle.check_only_one_team_alive(), None);
    battle.characters[0].health.health = 0;
    assert_eq!(battle.check_only_one_team_alive(), Some(TeamId::new(1)));
    battle.characters[1].health.health = 0;
    assert_eq!(battle.check_only_one_team_alive(), None);
}

#[test]
fn round_asks_living_characters_in_order() {
    let mut battle = Battle::from_file(two_team_file(vec![kick()], vec![0]), Lowest).unwrap();
    let mut round = battle.begin_round();
    assert_eq!(battle.round, 1);
    assert_eq!(battle.history.len(), 1);
    assert_eq!(round.turns, vec![CharacterId::new(0), CharacterId::new(1)]);
    assert_eq!(battle.next_step(&mut round), RoundStep::Ask(CharacterId::new(0)));
    assert_eq!(battle.characters[0].hand, vec![CardId::new(0)]);
    assert_eq!(battle.characters[0].remaining_actions, 1);
    assert!(battle.apply_action(CharacterId::new(0), Action::Pass));
    assert_eq!(battle.next_step(&mut round), RoundStep::Ask(CharacterId::new(1)));
    assert!(battle.apply_action(CharacterId::new(1), Action::Pass));
    assert_eq!(battle.next_step(&mut round), RoundStep::Over);
}

#[test]
fn round_stops_once_one_team_is_left() {
    let mut battle = Battle::from_file(two_team_file(vec![kick()], vec![0]), Lowest).unwrap();
    let mut round = battle.begin_round();
    assert_eq!(battle.next_step(&mut round), RoundStep::Ask(CharacterId::new(0)));
    assert!(battle.apply_action(CharacterId::new(0), Action::Act(CardId::new(0), CharacterId::new(1))));
    assert_eq!(battle.next_step(&mut round), RoundStep::Over);
    let winner = battle.check_only_one_team_alive().unwrap();
    battle.record_victory(winner);
    assert_eq!(battle.history.len(), 3);
    assert_eq!(battle.get_team_from_id(winner).unwrap().name, "Team A");
}

#[test]
fn dumb_actor_attacks_in_range() {
    let mut battle = Battle::from_file(two_team_file(vec![kick()], vec![0]), Lowest).unwrap();
    battle.characters[0].hand = vec![CardId::new(0)];
    let actor = DumbActor { character_id: CharacterId::new(0) };
    assert_eq!(actor.act(&battle), Action::Act(CardId::new(0), CharacterId::new(1)));
    battle.characters[0].hand = vec![];
    assert_eq!(actor.act(&battle), Action::Pass);
}

#[test]
fn dumb_actor_steps_towards_distant_opponent() {
    let mut short = kick();
    short.range = Some(1);
    let mut file = two_team_file(vec![short], vec![0]);
    file.board = battle_file::Board { width: 4, height: 1 };
    file.teams[1].members[0].location = (3, 0);
    let mut battle = Battle::from_file(file, Lowest).unwrap();
    battle.characters[0].hand = vec![CardId::new(0)];
    let actor = DumbActor { character_id: CharacterId::new(0) };
    let choice = actor.act(&battle);
    assert_eq!(choice, Action::Move(CharacterId::new(0), GridLocation { x: 1, y: 0 }));
    assert!(battle.handle_action(CharacterId::new(0), choice));
}

#[test]
fn team_lookups() {
    let battle = Battle::from_file(two_team_file(vec![kick()], vec![0]), Lowest).unwrap();
    assert_eq!(battle.get_team_for_actor(CharacterId::new(1)), Some(TeamId::new(1)));
    assert_eq!(battle.get_team_for_actor(CharacterId::new(7)), None);
    assert!(battle.get_team_from_id(TeamId::new(3)).is_none());
    assert_eq!(battle.get_character(CharacterId::new(1)).name, "B");
    assert_eq!(battle.members.len(), 2);
    assert_eq!(battle.teams[1].name, "Team B");
}

#[test]
fn definition_errors() {
    let mut f = two_team_file(vec![kick()], vec![0]);
    f.cards[0].id = 3;
    assert_eq!(f.validate(), Err(BattleFileError::CardIdMismatch { id: 3, index: 0 }));

    let mut f = two_team_file(vec![kick()], vec![0]);
    f.cards[0].range = None;
    assert_eq!(f.validate(), Err(BattleFileError::MissingRange { id: 0 }));

    let mut f = two_team_file(vec![kick()], vec![0]);
    f.cards[0].actions[0] = battle_file::CardAction::Damage {
        target: battle_file::Target::Others,
        amount: battle_file::MaybeU64Range::Range(9, 3),
    };
    assert_eq!(f.validate(), Err(BattleFileError::InvalidAmount { id: 0 }));

    let mut f = two_team_file(vec![kick()], vec![0]);
    f.teams[0].members[0].is_player = true;
    f.teams[1].members[0].is_player = true;
    assert_eq!(f.validate(), Err(BattleFileError::MultiplePlayers));

    let mut f = two_team_file(vec![kick()], vec![0]);
    f.teams[1].members[0].location = (5, 0);
    assert_eq!(f.validate(), Err(BattleFileError::InvalidPosition { x: 5, y: 0 }));

    let mut f = two_team_file(vec![kick()], vec![0]);
    f.teams[1].members[0].location = (0, 0);
    assert_eq!(f.validate(), Err(BattleFileError::DuplicatePosition { x: 0, y: 0 }));

    let f = two_team_file(vec![kick()], vec![4]);
    assert_eq!(f.validate(), Err(BattleFileError::UnknownCard { id: 4 }));

    let mut f = two_team_file(vec![kick()], vec![0]);
    f.teams[0].members[0].max_health = Some(2);
    assert_eq!(f.validate(), Err(BattleFileError::HealthAboveMax));

    let mut f = two_team_file(vec![kick()], vec![0]);
    f.board = battle_file::Board { width: usize::MAX, height: 2 };
    assert_eq!(f.validate(), Err(BattleFileError::BoardTooLarge));

    let mut f = two_team_file(vec![kick()], vec![0]);
    f.teams[0].members[0].is_player = true;
    assert_eq!(f.validate(), Ok(()));
    assert!(Battle::from_file(f, Lowest).is_ok());
}

#[test]
fn amounts_normalize_to_ranges() {
    assert_eq!(
        cpd::normalize_maybe_life_number_range(&battle_file::MaybeU64Range::Absolute(7)),
        cpd::U64Range(7, 7)
    );
    assert_eq!(
        cpd::normalize_maybe_life_number_range(&battle_file::MaybeU64Range::Range(2, 9)),
        cpd::U64Range(2, 9)
    );
}

#[test]
fn battle_menu_offers_cards_then_targets() {
    let battle = Battle::from_file(two_team_file(vec![kick()], vec![0]), Lowest).unwrap();
    let mut menu = BattleMenu::new(vec![
        BattleMenuItem::Actions(ActionsMenu {
            me: CharacterId::new(0),
            cards: vec![CardId::new(0)],
            targets: vec![CharacterId::new(1)],
        }),
        BattleMenuItem::Pass(PassMenuItem {}),
    ]);
    assert_eq!(menu.select_by_name("cards", &battle), None);
    assert_eq!(menu.select_by_name("card 0", &battle), None);
    assert_eq!(
        menu.select_by_name("b", &battle),
        Some(BattleMenuOutput::Card { target: CharacterId::new(1), card: CardId::new(0) })
    );
    let mut pass = BattleMenu::new(vec![BattleMenuItem::Pass(PassMenuItem {})]);
    assert_eq!(pass.select_by_name("pass", &battle), Some(BattleMenuOutput::Pass));
}

fn punch_and_kick_file() -> battle_file::Battle {
    let damage = |amount: u64| battle_file::CardAction::Damage {
        target: battle_file::Target::Others,
        amount: battle_file::MaybeU64Range::Absolute(amount),
    };
    let mut a1 = member("Member A1", 5, vec![0], (0, 0));
    a1.hand_size = Some(1);
    battle_file::Battle {
        title: "Example Game".to_string(),
        description: "Example Description".to_string(),
        board: battle_file::Board { width: 2, height: 2 },
        introduction: None,
        default_hand_size: 2,
        cards: vec![card(0, vec![damage(123)], Some(999)), card(1, vec![damage(456)], Some(999))],
        teams: vec![
            battle_file::Team {
                name: "Team A".to_string(),
                members: vec![a1, member("Member A2", 5, vec![1], (0, 1))],
            },
            battle_file::Team { name: "Team B".to_string(), members: vec![member("Member B1", 15, vec![0], (1, 0))] },
        ],
    }
}

#[test]
fn battle_test_deserialize() {
    let mut battle = Battle::from_file(punch_and_kick_file(), cpd::DefaultRandomProvider::default()).unwrap();
    assert_eq!(battle.history.len(), 0);
    assert_eq!(battle.teams.len(), 2);
    assert_eq!(battle.teams[0].name, "Team A".to_string());
    assert_eq!(battle.teams[0].id.id, 0);
    assert_eq!(battle.teams[1].name, "Team B".to_string());
    assert_eq!(battle.teams[1].id.id, 1);
    assert_eq!(battle.members.len(), 3);
    assert_eq!(battle.members[0].0.id, 0);
    assert_eq!(battle.characters[battle.members[0].1.id].name, "Member A1");
    assert_eq!(battle.characters[battle.members[0].1.id].hand_size, 1);
    assert_eq!(battle.members[1].0.id, 0);
    assert_eq!(battle.characters[battle.members[1].1.id].name, "Member A2");
    assert_eq!(battle.characters[battle.members[1].1.id].hand_size, 2);
    assert_eq!(battle.members[2].0.id, 1);
    assert_eq!(battle.characters[battle.members[2].1.id].name, "Member B1");

    let mut rounds = 0;
    while battle.check_only_one_team_alive().is_none() {
        rounds += 1;
        assert!(rounds < 100);
        let mut round = battle.begin_round();
        while let RoundStep::Ask(c) = battle.next_step(&mut round) {
            let action = DumbActor { character_id: c }.act(&battle);
            assert!(battle.apply_action(c, action));
        }
    }
    assert_eq!(battle.check_only_one_team_alive(), Some(TeamId::new(0)));
}

#[test]
fn test_deserialize() {
    let mut member_1 = member("Member 1", 10, vec![0], (0, 0));
    member_1.is_player = false;
    let file = battle_file::Battle {
        title: "Example Game".to_string(),
        description: "Example Description".to_string(),
        board: battle_file::Board { width: 1, height: 1 },
        introduction: Some(vec![
            battle_file::StoryCardEntry::H1("Heading".to_string()),
            battle_file::StoryCardEntry::P("Paragraph".to_string()),
        ]),
        default_hand_size: 5,
        cards: vec![card(
            0,
            vec![battle_file::CardAction::Damage {
                target: battle_file::Target::Others,
                amount: battle_file::MaybeU64Range::Absolute(123),
            }],
            Some(1),
        )],
        teams: vec![battle_file::Team { name: "Team A".to_string(), members: vec![member_1] }],
    };
    assert_eq!(file.validate(), Ok(()));
    assert_eq!(
        file.cards[file.teams[0].members[0].cards[0]].actions[0],
        battle_file::CardAction::Damage {
            target: battle_file::Target::Others,
            amount: battle_file::MaybeU64Range::Absolute(123),
        }
    );
}

#[test]
fn test_multi_player_error() {
    let mut member_1 = member("Member 1", 10, vec![], (0, 0));
    member_1.is_player = true;
    let mut member_2 = member("Member 2", 10, vec![], (0, 0));
    member_2.is_player = true;
    let file = battle_file::Battle {
        title: "Example Game".to_string(),
        description: "Example Description".to_string(),
        board: battle_file::Board { width: 1, height: 1 },
        introduction: None,
        default_hand_size: 5,
        cards: vec![],
        teams: vec![battle_file::Team { name: "Team A".to_string(), members: vec![member_1, member_2] }],
    };
    let maybe_battle = Battle::from_file(file, Lowest);
    assert!(maybe_battle.is_err());
    assert_eq!(maybe_battle.err(), Some(BattleFileError::MultiplePlayers));
}

fn texts(entry: &cpd::BattleText) -> Vec<String> {
    entry
        .iter()
        .map(|e| match e {
            cpd::TemplateEntry::Text(t) => t.clone(),
            cpd::TemplateEntry::Typed(_, t) => t.clone(),
        })
        .collect()
}

#[test]
fn log_entries_name_round_pass_and_winner() {
    let mut battle = Battle::from_file(two_team_file(vec![kick()], vec![0]), Lowest).unwrap();
    let mut round = battle.begin_round();
    assert_eq!(texts(&battle.history[0]), vec!["--- Round ".to_string(), "1".to_string()]);
    assert_eq!(battle.next_step(&mut round), RoundStep::Ask(CharacterId::new(0)));
    assert!(battle.apply_action(CharacterId::new(0), Action::Pass));
    assert_eq!(texts(&battle.history[1]), vec!["A".to_string(), " took no action".to_string()]);
    battle.characters[1].health.health = 0;
    battle.record_victory(TeamId::new(0));
    assert_eq!(texts(&battle.history[2]), vec!["Team A".to_string(), " won.".to_string()]);
}

#[test]
fn turn_budget_override_is_used() {
    let mut battle = Battle::from_file(two_team_file(vec![kick()], vec![0]), Lowest).unwrap();
    battle.characters[0].turn_actions = Some(2);
    let mut round = battle.begin_round();
    assert_eq!(battle.next_step(&mut round), RoundStep::Ask(CharacterId::new(0)));
    assert_eq!(battle.characters[0].remaining_actions, 2);
    assert!(battle.apply_action(CharacterId::new(0), Action::Pass));
    assert_eq!(battle.next_step(&mut round), RoundStep::Ask(CharacterId::new(0)));
    assert!(battle.apply_action(CharacterId::new(0), Action::Pass));
    assert_eq!(battle.next_step(&mut round), RoundStep::Ask(CharacterId::new(1)));
    assert_eq!(battle.characters[1].remaining_actions, 1);
}

#[test]
fn played_card_log_names_actor_card_target_and_amounts() {
    let mut battle = Battle::from_file(two_team_file(vec![kick()], vec![0]), Lowest).unwrap();
    battle.characters[0].hand = vec![CardId::new(0)];
    assert!(battle.handle_action(CharacterId::new(0), Action::Act(CardId::new(0), CharacterId::new(1))));
    let expected: Vec<String> =
        ["A", " used ", "Card 0", " on ", "B", ". ", "123", " damage. "].iter().map(|s| s.to_string()).collect();
    assert_eq!(texts(&battle.history[0]), expected);
}

#[test]
fn move_effect_steps_one_cell_towards_the_target() {
    let step = card(
        1,
        vec![battle_file::CardAction::Move {
            target: battle_file::Target::Me,
            amount: battle_file::MaybeU64Range::Absolute(1),
        }, battle_file::CardAction::Damage {
            target: battle_file::Target::Others,
            amount: battle_file::MaybeU64Range::Absolute(1),
        }],
        Some(999),
    );
    let mut file = two_team_file(vec![kick(), step], vec![1]);
    file.board = battle_file::Board { width: 4, height: 1 };
    file.teams[1].members[0].location = (3, 0);
    let mut battle = Battle::from_file(file, Lowest).unwrap();
    battle.characters[0].hand = vec![CardId::new(1)];
    assert!(battle.handle_action(CharacterId::new(0), Action::Act(CardId::new(1), CharacterId::new(1))));
    assert_eq!(battle.board.find(&cpd::BoardItem::Character(CharacterId::new(0))), Some((1, 0)));
    assert_eq!(battle.characters[1].health.health, 14);
    let expected: Vec<String> = ["A", " used ", "Card 1", " on ", "B", ". ", "A", " moved. ", "1", " damage. "]
        .iter()
        .map(|s| s.to_string())
        .collect();
    assert_eq!(texts(&battle.history[0]), expected);
}
