use pexeso::board::{build, Card, GameError, Level, Visibility};
use pexeso::game::{GameState, SelectOutcome, MISMATCH_DELAY_MS};
use pexeso::shuffle::{shuffle, Shuffler};

fn pairs_level() -> Level {
    Level {
        name: String::from("Level 1"),
        group_size: 2,
        total_cards: 4,
    }
}

fn two_faces() -> Vec<String> {
    vec![String::from("cherry"), String::from("cheese")]
}

fn new_game(seed: [u8; 32]) -> GameState {
    GameState::new(pairs_level(), &two_faces(), true, &mut Shuffler::new(seed)).unwrap()
}

/// The index of a hidden card whose identity equals (or differs from) the
/// one at `anchor`.
fn find_partner(game: &GameState, anchor: usize, same: bool) -> usize {
    let board = game.snapshot();
    let want = board[anchor].identity;
    for i in 0..board.len() {
        if i != anchor
            && board[i].visibility == Visibility::Hidden
            && (board[i].identity == want) == same
        {
            return i;
        }
    }
    panic!("no such card");
}

#[test]
fn scenario_matching_pair() {
    let mut game = new_game([0u8; 32]);
    assert!(game.snapshot().iter().all(|c| c.visibility == Visibility::Hidden));
    assert_eq!(game.select_card(0), Ok(SelectOutcome::Flipped));
    assert_eq!(game.snapshot()[0].visibility, Visibility::Selected);
    let partner = find_partner(&game, 0, true);
    assert_eq!(
        game.select_card(partner),
        Ok(SelectOutcome::Matched(vec![0, partner]))
    );
    assert_eq!(game.snapshot()[0].visibility, Visibility::Solved);
    assert_eq!(game.snapshot()[partner].visibility, Visibility::Solved);
}

#[test]
fn scenario_mismatch_and_delayed_hide() {
    let mut game = new_game([0u8; 32]);
    let other = find_partner(&game, 0, false);
    assert_eq!(game.select_card(0), Ok(SelectOutcome::Flipped));
    let outcome = game.select_card(other).unwrap();
    match &outcome {
        SelectOutcome::Mismatched(action) => {
            assert_eq!(action.indices, vec![0, other]);
            assert_eq!(action.delay_ms, 800);
            assert_eq!(action.delay_ms, MISMATCH_DELAY_MS);
        }
        _ => panic!("expected a mismatch, got {:?}", outcome),
    }
    // The mismatched pair stays face up while the timer is pending, and new
    // selections are not blocked by it.
    assert_eq!(game.snapshot()[0].visibility, Visibility::Selected);
    assert_eq!(game.snapshot()[other].visibility, Visibility::Selected);
    let third = game
        .snapshot()
        .iter()
        .position(|c| c.visibility == Visibility::Hidden)
        .unwrap();
    assert_eq!(game.select_card(third), Ok(SelectOutcome::Flipped));
    assert_eq!(game.snapshot()[0].visibility, Visibility::Selected);
    assert_eq!(game.snapshot()[other].visibility, Visibility::Selected);
    // The timer fires: the mismatched pair goes back down, the new selection
    // is untouched.
    game.resolve_timeout(&vec![0, other]);
    assert_eq!(game.snapshot()[0].visibility, Visibility::Hidden);
    assert_eq!(game.snapshot()[other].visibility, Visibility::Hidden);
    assert_eq!(game.snapshot()[third].visibility, Visibility::Selected);
}

#[test]
fn scenario_reclick_is_ignored() {
    let mut game = new_game([0u8; 32]);
    assert_eq!(game.select_card(0), Ok(SelectOutcome::Flipped));
    let before = game.snapshot().clone();
    let selection_before = game.selected_indices.clone();
    assert_eq!(game.select_card(0), Ok(SelectOutcome::Ignored));
    assert_eq!(game.snapshot(), &before);
    assert_eq!(game.selected_indices, selection_before);
}

#[test]
fn scenario_config_error() {
    let level = Level {
        name: String::from("broken"),
        group_size: 2,
        total_cards: 5,
    };
    let mut sh = Shuffler::new([0u8; 32]);
    assert_eq!(build(&level, &two_faces(), true, &mut sh), Err(GameError::ConfigError));
    assert!(GameState::new(level, &two_faces(), true, &mut sh).is_err());
}

#[test]
fn too_few_faces_is_config_error() {
    let mut sh = Shuffler::new([0u8; 32]);
    let catalog = vec![String::from("cherry")];
    assert_eq!(build(&pairs_level(), &catalog, true, &mut sh), Err(GameError::ConfigError));
}

#[test]
fn tiny_groups_are_config_errors() {
    let mut sh = Shuffler::new([0u8; 32]);
    for group_size in [0, 1] {
        let level = Level {
            name: String::from("broken"),
            group_size,
            total_cards: 4,
        };
        assert_eq!(build(&level, &two_faces(), true, &mut sh), Err(GameError::ConfigError));
    }
}

#[test]
fn out_of_range_select_is_index_error() {
    let mut game = new_game([0u8; 32]);
    assert_eq!(game.select_card(99), Err(GameError::IndexError));
    assert!(game.snapshot().iter().all(|c| c.visibility == Visibility::Hidden));
}

#[test]
fn board_is_deterministic_per_seed() {
    for seed_byte in [0u8, 7, 42] {
        let a = new_game([seed_byte; 32]);
        let b = new_game([seed_byte; 32]);
        assert_eq!(a.snapshot(), b.snapshot());
    }
}

fn identity_count(board: &[Card], id: usize) -> usize {
    board.iter().filter(|c| c.identity == id).count()
}

#[test]
fn board_is_permutation_of_grouped_cards() {
    let level = Level {
        name: String::from("Level 2"),
        group_size: 3,
        total_cards: 9,
    };
    let catalog: Vec<String> = ["cherry", "cheese", "carrot", "rose", "barrel"]
        .iter()
        .map(|f| String::from(*f))
        .collect();
    let mut sh = Shuffler::new([5u8; 32]);
    let board = build(&level, &catalog, true, &mut sh).unwrap();
    assert_eq!(board.len(), 9);
    // Group integrity: each of the three dealt identities fills exactly
    // `group_size` positions, and no other identity appears.
    for id in 0..3 {
        assert_eq!(identity_count(&board, id), 3);
    }
    assert!(board.iter().all(|c| c.identity < 3));
    assert!(board.iter().all(|c| c.visibility == Visibility::Hidden));
    // Cards of one group agree on their face, and every face comes from the
    // catalog.
    for card in &board {
        assert!(catalog.contains(&card.face));
        for other in &board {
            if card.identity == other.identity {
                assert_eq!(card.face, other.face);
            } else {
                assert_ne!(card.face, other.face);
            }
        }
    }
}

#[test]
fn unshuffled_catalog_deals_faces_in_order() {
    let mut sh = Shuffler::new([0u8; 32]);
    let board = build(&pairs_level(), &two_faces(), false, &mut sh).unwrap();
    for card in &board {
        let want = if card.identity == 0 { "cherry" } else { "cheese" };
        assert_eq!(card.face, want);
    }
}

#[test]
fn resolve_timeout_is_idempotent() {
    let mut game = new_game([0u8; 32]);
    let other = find_partner(&game, 0, false);
    game.select_card(0).unwrap();
    game.select_card(other).unwrap();
    game.resolve_timeout(&vec![0, other]);
    let after_first = game.snapshot().clone();
    game.resolve_timeout(&vec![0, other]);
    assert_eq!(game.snapshot(), &after_first);
}

#[test]
fn resolve_timeout_never_touches_solved_cards() {
    let mut game = new_game([0u8; 32]);
    let partner = find_partner(&game, 0, true);
    game.select_card(0).unwrap();
    game.select_card(partner).unwrap();
    assert_eq!(game.snapshot()[0].visibility, Visibility::Solved);
    // A stale delayed hide naming the now-solved cards must not downgrade
    // them, and must not error.
    game.resolve_timeout(&vec![0, partner]);
    assert_eq!(game.snapshot()[0].visibility, Visibility::Solved);
    assert_eq!(game.snapshot()[partner].visibility, Visibility::Solved);
}

#[test]
fn resolve_timeout_spares_a_selection_in_progress() {
    let mut game = new_game([0u8; 32]);
    assert_eq!(game.select_card(0), Ok(SelectOutcome::Flipped));
    // A stale delayed hide naming a card of the selection in progress leaves
    // it face up.
    game.resolve_timeout(&vec![0]);
    assert_eq!(game.snapshot()[0].visibility, Visibility::Selected);
}

#[test]
fn resolve_timeout_ignores_out_of_range_indices() {
    let mut game = new_game([0u8; 32]);
    let before = game.snapshot().clone();
    game.resolve_timeout(&vec![17, 99]);
    assert_eq!(game.snapshot(), &before);
}

#[test]
fn shuffle_permutes_deterministically() {
    let original: Vec<u32> = (0..10).collect();
    let mut a = original.clone();
    shuffle(&mut a, &mut Shuffler::new([7u8; 32]));
    let mut b = original.clone();
    shuffle(&mut b, &mut Shuffler::new([7u8; 32]));
    assert_eq!(a, b);
    // A permutation of the input...
    let mut sorted = a.clone();
    sorted.sort();
    assert_eq!(sorted, original);
    // ...and the generator really drives it: ten elements do not come back
    // in their original order.
    assert_ne!(a, original);
}
