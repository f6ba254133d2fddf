use std::collections::HashMap;
use tableturfbattle::get_cursor;
use tableturfbattle::text_protocol::{format_initial_input, format_turn_input, read_hands, read_initial_input};
use tableturfbattle::{
    Action, Card, CardShape, CardSquareType, ConfigurationError, DecodeError, Direction,
    Environment, Field, FieldShape, FieldSquareType, InvalidActionError, MulliganAction, State,
};

#[test]
fn test_squares_from_str() {
    let expected = vec![
        vec![
            FieldSquareType::Colored { player_id: 0 },
            FieldSquareType::Colored { player_id: 0 },
            FieldSquareType::Colored { player_id: 0 },
            FieldSquareType::Colored { player_id: 0 },
            FieldSquareType::Colored { player_id: 0 },
        ],
        vec![
            FieldSquareType::Colored { player_id: 0 },
            FieldSquareType::Colored { player_id: 0 },
            FieldSquareType::Colored { player_id: 0 },
            FieldSquareType::Special {
                player_id: 0,
                activeted: false,
            },
            FieldSquareType::Colored { player_id: 0 },
        ],
        vec![
            FieldSquareType::Empty,
            FieldSquareType::Colored { player_id: 0 },
            FieldSquareType::Empty,
            FieldSquareType::Empty,
            FieldSquareType::Empty,
        ],
        vec![
            FieldSquareType::Colored { player_id: 0 },
            FieldSquareType::Empty,
            FieldSquareType::Empty,
            FieldSquareType::Empty,
            FieldSquareType::Empty,
        ],
    ];
    let actual = FieldShape::new("yyyyy\nyyyYy\n.y...\ny....").unwrap().squares;
    assert_eq!(actual, expected);
}

#[test]
fn test_activates() {
    let env = Environment::new(2, 1, 1, 1, false).unwrap();
    let card_catalog = vec![Card::new(1, "hoge", 1, CardShape::new("y").unwrap())];
    let mut cards = HashMap::new();
    cards.insert(1usize, &card_catalog[0]);
    let field = Field {
        id: 1,
        name: "hoge".to_string(),
        shape: FieldShape::new("YB\nbY").unwrap(),
    };
    let mut state = State::new(&env, &cards, &field, &vec![vec![1], vec![1]]).unwrap();
    let putted_this_turn_squares = vec![(1, 0)];
    let actual = state.activates(&putted_this_turn_squares);
    let expected = vec![2, 1];
    println!("{}", state.field.to_text());
    assert_eq!(actual, expected);
}

#[test]
fn test_find_reference_point() {
    let expected = (0, 0);
    let actual = CardShape::new("yyyyy\nyyyYy\n.y...\ny....")
        .unwrap()
        .find_reference_point(0);
    assert_eq!(actual, expected);

    let expected = (1, 0);
    let actual = CardShape::new("..\ny.").unwrap().find_reference_point(0);
    assert_eq!(actual, expected);

    let expected = (0, 2);
    let actual = CardShape::new("..Y.\ny.yy").unwrap().find_reference_point(0);
    assert_eq!(actual, expected);
}

#[test]
fn test_rotate() {
    let expected = CardShape::new("Yy\n.y\n.y\n..\n..").unwrap();
    let shape = CardShape::new("yyy..\nY....").unwrap();
    let actual = shape.rotate();
    assert_eq!(actual, expected);
}

#[test]
fn test_trim() {
    let big = CardShape::new(
        "........\n........\n.yyyyy..\n.yyyYy..\n..y.....\n.y......\n........\n........",
    )
    .unwrap();
    let trimmed = CardShape::trim(&big).unwrap();
    let expected = CardShape::new("yyyyy\nyyyYy\n.y...\ny....").unwrap();
    assert_eq!(trimmed, expected);
}

#[test]
fn test_get_cursor() {
    assert_eq!(get_cursor(0, 0, 1, 2, 3, 7), Some((4, 9)));
    assert_eq!(get_cursor(4, 0, 1, 2, 3, 7), Some((0, 9)));
    assert_eq!(get_cursor(4, 10, 1, 2, 3, 7), None);
}

#[test]
fn rotate_four_times_is_identity() {
    let shape = CardShape::new("yyy..\nY....\n..y..").unwrap();
    let back = shape.rotate().rotate().rotate().rotate();
    assert_eq!(back, shape);
    assert_eq!(shape.rotate().height, 5);
    assert_eq!(shape.rotate().width, 3);
}

#[test]
fn trim_has_no_empty_border_and_is_idempotent() {
    let big = CardShape::new("....\n.y..\n..Y.\n....").unwrap();
    let once = CardShape::trim(&big).unwrap();
    assert_eq!(once, CardShape::new("y.\n.Y").unwrap());
    let twice = CardShape::trim(&once).unwrap();
    assert_eq!(twice, once);
}

#[test]
fn trim_of_empty_shape_is_none() {
    let empty = CardShape::new("...\n...").unwrap();
    assert_eq!(CardShape::trim(&empty), None);
}

#[test]
fn colored_count_is_rotation_invariant() {
    let shape = CardShape::new("yyyyy\nyyyYy\n.y...\ny....").unwrap();
    assert_eq!(shape.count_colored_squares(), 12);
    assert_eq!(shape.rotate().count_colored_squares(), 12);
    assert_eq!(shape.rotate().rotate().count_colored_squares(), 12);
}

#[test]
fn card_power_is_colored_count() {
    let card = Card::new(7, "seven", 3, CardShape::new("yY\n.y").unwrap());
    assert_eq!(card.power, 3);
    assert_eq!(card.cost, 3);
    assert_eq!(card.id, 7);
    assert_eq!(card.name, "seven");
}

#[test]
fn shape_decode_errors() {
    assert_eq!(FieldShape::new("y.\n..."), Err(DecodeError::NotAGrid));
    assert_eq!(FieldShape::new(""), Err(DecodeError::NotAGrid));
    assert_eq!(FieldShape::new("y.\n.x"), Err(DecodeError::InvalidCharacter));
    assert_eq!(CardShape::new("yb"), Err(DecodeError::InvalidCharacter));
    assert_eq!(CardShape::new("y\n"), Err(DecodeError::NotAGrid));
}

#[test]
fn shape_text_round_trip() {
    let text = "y.#\nbYB";
    assert_eq!(FieldShape::new(text).unwrap().to_text(), text);
    let card = "yY.\n..y";
    assert_eq!(CardShape::new(card).unwrap().to_text(), card);
}

#[test]
fn count_player_counts_colored_and_special() {
    let field = FieldShape::new("yYb\nB#.\nyy.").unwrap();
    assert_eq!(field.count_player(0), 4);
    assert_eq!(field.count_player(1), 2);
}

#[test]
fn square_chars() {
    assert_eq!(FieldSquareType::Colored { player_id: 1 }.to_char(), 'b');
    assert_eq!(
        FieldSquareType::Special { player_id: 0, activeted: true }.to_char(),
        'Y'
    );
    assert_eq!(FieldSquareType::Block.to_char(), '#');
    assert_eq!(CardSquareType::Special.to_char(), 'Y');
    assert_eq!(CardSquareType::from_char('.'), Some(CardSquareType::Empty));
    assert_eq!(FieldSquareType::from_char('B'), Some(FieldSquareType::Special { player_id: 1, activeted: false }));
    assert_eq!(FieldSquareType::from_char('z'), None);
}

#[test]
fn action_text_round_trip() {
    let dirs = [Direction::Up, Direction::Down, Direction::Right, Direction::Left];
    let mut actions = vec![Action::Pass { card_id: 0 }, Action::Pass { card_id: 1234 }];
    for dir in dirs.iter() {
        actions.push(Action::Put { card_id: 12, dir: *dir, y: 0, x: 25 });
        actions.push(Action::SpecialPut { card_id: 3, dir: *dir, y: 107, x: 9 });
    }
    for a in actions.iter() {
        let text = a.to_text();
        assert_eq!(Action::from_text(&text), Some(*a));
    }
    assert_eq!(Action::Put { card_id: 12, dir: Direction::Right, y: 3, x: 4 }.to_text(), "PUT 12 R 3 4");
    assert_eq!(Action::SpecialPut { card_id: 5, dir: Direction::Left, y: 0, x: 10 }.to_text(), "SPECIAL_PUT 5 L 0 10");
    assert_eq!(Action::Pass { card_id: 40 }.to_text(), "PASS 40");
}

#[test]
fn action_text_decoding() {
    assert_eq!(Action::from_text("  PASS   7 \n"), Some(Action::Pass { card_id: 7 }));
    assert_eq!(Action::from_text("PUT 1 X 0 0"), None);
    assert_eq!(Action::from_text("PUT 1 U 0"), None);
    assert_eq!(Action::from_text("JUMP 1"), None);
    assert_eq!(Action::from_text("PASS -1"), None);
    assert_eq!(Action::from_text("PASS 99999999999999999999999"), None);
    assert_eq!(MulliganAction::from_text("MULLIGAN\n"), Some(MulliganAction::Mulligan));
    assert_eq!(MulliganAction::from_text("PASS"), Some(MulliganAction::Pass));
    assert_eq!(MulliganAction::from_text("NO"), None);
    assert_eq!(MulliganAction::Mulligan.to_text(), "MULLIGAN");
    assert_eq!(Direction::from_text("D"), Some(Direction::Down));
    assert_eq!(Direction::Up.to_text(), "U");
    assert_eq!(Action::Put { card_id: 4, dir: Direction::Up, y: 1, x: 2 }.get_card_id(), 4);
}

#[test]
fn environment_checks_turn_limit() {
    assert!(Environment::new(2, 15, 4, 12, false).is_ok());
    assert_eq!(
        Environment::new(2, 15, 4, 13, false).err(),
        Some(ConfigurationError::TurnLimitTooLarge)
    );
}

fn catalog() -> Vec<Card> {
    vec![
        Card::new(1, "dot", 0, CardShape::new("y").unwrap()),
        Card::new(2, "bar", 0, CardShape::new("yy").unwrap()),
        Card::new(3, "special", 1, CardShape::new("Y").unwrap()),
    ]
}

fn lookup(cards: &[Card]) -> HashMap<usize, &Card> {
    let mut m = HashMap::new();
    for c in cards.iter() {
        m.insert(c.id, c);
    }
    m
}

#[test]
fn state_new_deals_hands() {
    let env = Environment::new(2, 3, 2, 2, false).unwrap();
    let cards = catalog();
    let map = lookup(&cards);
    let field = Field { id: 1, name: "f".to_string(), shape: FieldShape::new("y.b\n...").unwrap() };
    let state = State::new(&env, &map, &field, &vec![vec![1, 2, 3], vec![2, 1, 3]]).unwrap();
    assert_eq!(state.turn, 1);
    assert_eq!(state.players[0].hands, vec![1, 2]);
    assert_eq!(state.players[1].hands, vec![2, 1]);
    assert_eq!(state.players[0].deck.iter().cloned().collect::<Vec<usize>>(), vec![3]);
    assert_eq!(state.players[0].special_point, 0);
}

#[test]
fn state_new_errors() {
    let env = Environment::new(2, 3, 2, 2, false).unwrap();
    let cards = catalog();
    let map = lookup(&cards);
    let field = Field { id: 1, name: "f".to_string(), shape: FieldShape::new("y.b").unwrap() };
    assert_eq!(
        State::new(&env, &map, &field, &vec![vec![1, 2, 3]]).err(),
        Some(ConfigurationError::DeckCountMismatch)
    );
    assert_eq!(
        State::new(&env, &map, &field, &vec![vec![1, 2, 3], vec![1, 2]]).err(),
        Some(ConfigurationError::DeckSizeMismatch)
    );
    assert_eq!(
        State::new(&env, &map, &field, &vec![vec![1, 2, 3], vec![1, 2, 9]]).err(),
        Some(ConfigurationError::UnknownCard)
    );
}

fn two_player_state<'a>(map: &HashMap<usize, &'a Card>, field_text: &str, max_turn: usize) -> (Environment, State) {
    let env = Environment::new(2, 3, 2, max_turn, false).unwrap();
    let field = Field { id: 1, name: "f".to_string(), shape: FieldShape::new(field_text).unwrap() };
    let state = State::new(&env, map, &field, &vec![vec![1, 2, 3], vec![1, 2, 3]]).unwrap();
    (env, state)
}

#[test]
fn equal_power_collision_makes_block() {
    let cards = catalog();
    let map = lookup(&cards);
    let (env, mut state) = two_player_state(&map, "y.b\n...", 2);
    let actions = vec![
        Action::Put { card_id: 1, dir: Direction::Up, y: 0, x: 1 },
        Action::Put { card_id: 1, dir: Direction::Up, y: 0, x: 1 },
    ];
    assert_eq!(state.apply(&env, &map, &actions), Ok(()));
    assert_eq!(state.field.squares[0][1], FieldSquareType::Block);
    assert_eq!(state.turn, 2);
    assert_eq!(state.players[0].hands, vec![2, 3]);
    assert_eq!(state.players[1].hands, vec![2, 3]);
}

#[test]
fn higher_power_wins_collision() {
    let cards = catalog();
    let map = lookup(&cards);
    let (env, mut state) = two_player_state(&map, "y.b\n...", 2);
    let actions = vec![
        Action::Put { card_id: 1, dir: Direction::Up, y: 1, x: 1 },
        Action::Put { card_id: 2, dir: Direction::Up, y: 1, x: 1 },
    ];
    assert_eq!(state.apply(&env, &map, &actions), Ok(()));
    assert_eq!(state.field.squares[1][1], FieldSquareType::Colored { player_id: 1 });
    assert_eq!(state.field.squares[1][2], FieldSquareType::Colored { player_id: 1 });
    assert_eq!(state.field.count_player(0), 1);
    assert_eq!(state.field.count_player(1), 3);
    assert_eq!(state.players[0].hands, vec![2, 3]);
    assert_eq!(state.players[1].hands, vec![1, 3]);
}

#[test]
fn pass_earns_point_and_game_ends() {
    let cards = catalog();
    let map = lookup(&cards);
    let (env, mut state) = two_player_state(&map, "y.b\n...", 1);
    assert!(!state.is_done(&env));
    let actions = vec![Action::Pass { card_id: 2 }, Action::Put { card_id: 1, dir: Direction::Up, y: 1, x: 2 }];
    assert_eq!(state.apply(&env, &map, &actions), Ok(()));
    assert_eq!(state.players[0].special_point, 1);
    assert_eq!(state.players[1].special_point, 0);
    assert_eq!(state.turn, 2);
    assert!(state.is_done(&env));
    assert_eq!(state.players[0].hands, vec![1]);
    assert!(state.is_lose(&env, 0));
    assert!(state.is_win(&env, 1));
    assert!(!state.is_draw(&env));
}

#[test]
fn draw_when_counts_equal() {
    let cards = catalog();
    let map = lookup(&cards);
    let (env, mut state) = two_player_state(&map, "y.b\n...", 1);
    assert!(!state.is_draw(&env));
    let actions = vec![Action::Pass { card_id: 1 }, Action::Pass { card_id: 1 }];
    assert_eq!(state.apply(&env, &map, &actions), Ok(()));
    assert!(state.is_draw(&env));
    assert!(!state.is_win(&env, 0));
    assert!(!state.is_lose(&env, 0));
}

#[test]
fn invalid_batches_are_refused() {
    let cards = catalog();
    let map = lookup(&cards);
    let (env, mut state) = two_player_state(&map, "y.b\n...", 2);
    let one = vec![Action::Pass { card_id: 1 }];
    assert_eq!(state.apply(&env, &map, &one), Err(InvalidActionError::ActionCount));
    let far = vec![
        Action::Pass { card_id: 1 },
        Action::Put { card_id: 1, dir: Direction::Up, y: 1, x: 0 },
    ];
    assert_eq!(state.apply(&env, &map, &far), Err(InvalidActionError::Illegal { player_id: 1 }));
    let not_in_hand = vec![Action::Pass { card_id: 3 }, Action::Pass { card_id: 1 }];
    assert_eq!(state.apply(&env, &map, &not_in_hand), Err(InvalidActionError::Illegal { player_id: 0 }));
    assert_eq!(state.turn, 1);
    assert_eq!(state.field.to_text(), "y.b\n...");
}

#[test]
fn validity_rules() {
    let cards = catalog();
    let map = lookup(&cards);
    let (_env, state) = two_player_state(&map, "yB.\n...", 2);
    // next to an own square, on an Empty square
    assert!(state.is_valid_action(&map, &Action::Put { card_id: 1, dir: Direction::Up, y: 1, x: 0 }, 0));
    // not Empty
    assert!(!state.is_valid_action(&map, &Action::Put { card_id: 1, dir: Direction::Up, y: 0, x: 1 }, 0));
    // off the field
    assert!(!state.is_valid_action(&map, &Action::Put { card_id: 2, dir: Direction::Up, y: 0, x: 2 }, 1));
    // turned: the bar stands upright and fits
    assert!(state.is_valid_action(&map, &Action::Put { card_id: 2, dir: Direction::Right, y: 0, x: 2 }, 1));
    // no own square nearby
    assert!(!state.is_valid_action(&map, &Action::Put { card_id: 1, dir: Direction::Up, y: 1, x: 2 }, 0));
    // a SpecialPut needs points
    assert!(!state.is_valid_action(&map, &Action::SpecialPut { card_id: 3, dir: Direction::Up, y: 0, x: 2 }, 1));
    // a SpecialPut of cost 0 next to an own Special square may cover an opponent square
    assert!(state.is_valid_action(&map, &Action::SpecialPut { card_id: 1, dir: Direction::Up, y: 0, x: 0 }, 1));
    assert!(state.is_valid_action(&map, &Action::Pass { card_id: 2 }, 0));
    assert!(!state.is_valid_action(&map, &Action::Pass { card_id: 3 }, 0));
}

#[test]
fn generated_actions_are_valid_with_one_pass_per_card() {
    let cards = catalog();
    let map = lookup(&cards);
    let (_env, state) = two_player_state(&map, "y..\n...\n..b", 2);
    let actions = state.generate_valid_actions(&map, 0);
    for a in actions.iter() {
        assert!(state.is_valid_action(&map, a, 0));
    }
    let passes: Vec<&Action> = actions.iter().filter(|a| matches!(a, Action::Pass { .. })).collect();
    assert_eq!(passes.len(), 2);
    assert!(actions.contains(&Action::Pass { card_id: 1 }));
    assert!(actions.contains(&Action::Pass { card_id: 2 }));
    assert!(actions.contains(&Action::Put { card_id: 1, dir: Direction::Up, y: 1, x: 1 }));
    assert!(actions.contains(&Action::Put { card_id: 2, dir: Direction::Right, y: 1, x: 0 }));
    // three cells next to (0, 0), in four directions, for the dot; then the bar
    let dots = actions.iter().filter(|a| matches!(a, Action::Put { card_id: 1, .. })).count();
    assert_eq!(dots, 12);
}

#[test]
fn special_put_overwrites_and_pays() {
    let cards = vec![
        Card::new(1, "dot", 1, CardShape::new("y").unwrap()),
        Card::new(2, "bar", 0, CardShape::new("yy").unwrap()),
    ];
    let map = lookup(&cards);
    let env = Environment::new(2, 4, 2, 3, false).unwrap();
    let field = Field { id: 1, name: "f".to_string(), shape: FieldShape::new("Yb.\n...").unwrap() };
    let mut state = State::new(&env, &map, &field, &vec![vec![1, 2, 1, 2], vec![1, 2, 1, 2]]).unwrap();
    let pass = vec![Action::Pass { card_id: 2 }, Action::Pass { card_id: 2 }];
    assert_eq!(state.apply(&env, &map, &pass), Ok(()));
    assert_eq!(state.players[0].special_point, 1);
    assert_eq!(state.players[0].hands, vec![1, 1]);
    let special = vec![
        Action::SpecialPut { card_id: 1, dir: Direction::Up, y: 0, x: 1 },
        Action::Pass { card_id: 1 },
    ];
    assert!(state.is_valid_action(&map, &special[0], 0));
    assert_eq!(state.apply(&env, &map, &special), Ok(()));
    assert_eq!(state.field.squares[0][1], FieldSquareType::Colored { player_id: 0 });
    assert_eq!(state.players[0].special_point, 0);
    assert_eq!(state.players[1].special_point, 2);
}

#[test]
fn enclosed_special_activates_once() {
    let cards = catalog();
    let map = lookup(&cards);
    let (env, mut state) = two_player_state(&map, "Y.\nyy", 2);
    let actions = vec![
        Action::Put { card_id: 1, dir: Direction::Up, y: 0, x: 1 },
        Action::Pass { card_id: 1 },
    ];
    assert_eq!(state.apply(&env, &map, &actions), Ok(()));
    assert_eq!(state.field.squares[0][0], FieldSquareType::Special { player_id: 0, activeted: true });
    assert_eq!(state.players[0].special_point, 1);
    assert_eq!(state.players[1].special_point, 1);
}

#[test]
fn read_hands_parses_numbers() {

    assert_eq!(read_hands("6 13 22\n"), Some(vec![6, 13, 22]));
    assert_eq!(read_hands(""), Some(vec![]));
    assert_eq!(read_hands("6 x"), None);
}

#[test]
fn initial_input_round_trip() {
    let env = Environment::new(2, 3, 2, 2, true).unwrap();
    let cards = catalog();
    let field = Field { id: 1, name: "f".to_string(), shape: FieldShape::new("y.b\n...").unwrap() };
    let text = format_initial_input(&env, &cards, &field);
    assert_eq!(text, "2 3 2 2 1\n2 3\ny.b\n...\n3\n1 0 1 1\ny\n2 0 1 2\nyy\n3 1 1 1\nY\n");
    let ii = read_initial_input(&text).unwrap();
    assert_eq!(ii.player_size, 2);
    assert_eq!(ii.deck_size, 3);
    assert_eq!(ii.hand_size, 2);
    assert_eq!(ii.max_turn, 2);
    assert!(ii.is_deplicated_pick_enabled);
    assert_eq!(ii.field_size_y, 2);
    assert_eq!(ii.field_size_x, 3);
    assert_eq!(ii.field, field.shape);
    assert_eq!(ii.cards.len(), 3);
    assert_eq!(ii.cards[1].id, 2);
    assert_eq!(ii.cards[1].power, 2);
    assert_eq!(ii.cards[2].cost, 1);
    assert_eq!(ii.cards[2].shape, CardShape::new("Y").unwrap());
}

#[test]
fn initial_input_rejects_bad_text() {
    assert!(read_initial_input("2 3 2 2 1\n2 3\ny.b\n").is_none());
    assert!(read_initial_input("2 3 2 2 1\n1 3\ny.b\n1\n1 0 1 1\nq").is_none());
    assert!(read_initial_input("2 3 2 2 1\n1 4\ny.b\n0").is_none());
    assert!(read_initial_input("2 3 2 2 1\n1 3\ny . b\n0").is_some());
}

#[test]
fn turn_input_text() {
    let cards = catalog();
    let map = lookup(&cards);
    let (_env, state) = two_player_state(&map, "y.b\n...", 2);
    let actions = vec![Action::Put { card_id: 1, dir: Direction::Up, y: 0, x: 1 }, Action::Pass { card_id: 1 }];
    let text = format_turn_input(&state, &actions, 0);
    assert_eq!(text, "1\n0 0\ny.b\n...\n1 2\n2\nPUT 1 U 0 1\nPASS 1\n");
}

#[test]
fn default_field_layout() {
    let field = Field::default();
    assert_eq!(field.shape.height, 26);
    assert_eq!(field.shape.width, 9);
    assert_eq!(field.shape.squares[3][4], FieldSquareType::Special { player_id: 1, activeted: false });
    assert_eq!(field.shape.squares[22][4], FieldSquareType::Special { player_id: 0, activeted: false });
    assert_eq!(field.shape.count_player(0), 1);
    assert_eq!(field.shape.count_player(1), 1);
}

#[test]
fn sample_card() {
    let card = Card::default();
    assert_eq!(card.id, 1);
    assert_eq!(card.cost, 5);
    assert_eq!(card.power, 12);
    assert_eq!(card.shape, CardShape::new("yyyyy\nyyyYy\n.y...\ny....").unwrap());
}

#[test]
fn card_from_catalog_text() {
    let card = Card::from_text(9, "nine", 2, "....\n.yY.\n..y.\n....").unwrap();
    assert_eq!(card.shape, CardShape::new("yY\n.y").unwrap());
    assert_eq!(card.power, 3);
    assert_eq!(card.cost, 2);
    assert_eq!(card.name, "nine");
    assert_eq!(Card::from_text(1, "a", 0, "...\n...").err(), Some(DecodeError::Blank));
    assert_eq!(Card::from_text(1, "a", 0, "..\n...").err(), Some(DecodeError::NotAGrid));
    assert_eq!(Card::from_text(1, "a", 0, ".b").err(), Some(DecodeError::InvalidCharacter));
}

#[test]
fn generated_actions_exact_order() {
    let cards = catalog();
    let map = lookup(&cards);
    let (_env, state) = two_player_state(&map, "y.\n..", 2);
    let texts: Vec<String> = state.generate_valid_actions(&map, 0).iter().map(|a| a.to_text()).collect();
    let mut expected = vec![];
    for d in ["U", "R", "D", "L"].iter() {
        for (y, x) in [(0, 1), (1, 0), (1, 1)].iter() {
            expected.push(format!("PUT 1 {} {} {}", d, y, x));
        }
    }
    expected.push("PASS 1".to_string());
    for (d, y, x) in [("U", 1, 0), ("R", 0, 1), ("D", 1, 0), ("L", 0, 1)].iter() {
        expected.push(format!("PUT 2 {} {} {}", d, y, x));
    }
    expected.push("PASS 2".to_string());
    assert_eq!(texts, expected);
}

#[test]
fn action_text_splits_at_spaces_only() {
    assert_eq!(Action::from_text("PASS\t1"), None);
    assert_eq!(Action::from_text("PUT 1 U\n0 0"), None);
    assert_eq!(Action::from_text("\tPASS 1\r\n"), Some(Action::Pass { card_id: 1 }));
    assert_eq!(
        Action::from_text("PUT  1 U  0 0"),
        Some(Action::Put { card_id: 1, dir: Direction::Up, y: 0, x: 0 })
    );
}

#[test]
fn repeated_hand_card_gives_one_pass() {
    let cards = catalog();
    let map = lookup(&cards);
    let env = Environment::new(2, 3, 2, 2, true).unwrap();
    let field = Field { id: 1, name: "f".to_string(), shape: FieldShape::new("y.\n..").unwrap() };
    let state = State::new(&env, &map, &field, &vec![vec![1, 1, 3], vec![1, 2, 3]]).unwrap();
    assert_eq!(state.players[0].hands, vec![1, 1]);
    let actions = state.generate_valid_actions(&map, 0);
    let passes = actions.iter().filter(|a| **a == Action::Pass { card_id: 1 }).count();
    assert_eq!(passes, 1);
    // the four directions of the dot, each on three squares, then one Pass
    assert_eq!(actions.len(), 13);
}

#[test]
fn card_new_trims_its_shape() {
    let card = Card::new(4, "four", 1, CardShape::new("...\n.yY\n...").unwrap());
    assert_eq!(card.shape, CardShape::new("yY").unwrap());
    assert_eq!(card.power, 2);
}
