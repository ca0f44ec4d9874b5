//! The engine driven through its public surface: scenarios for the initial
//! position, the win conditions, the slide distances, and the conservation
//! of dice and pips.

use cubeo::{Action, Color, Die, Game, Pos};

fn die(color: Color, value: usize) -> Die {
    Die { color, value }
}

#[test]
fn initial_state() {
    let g = Game::new();
    let b = g.board();
    assert_eq!(b.len(), 2);
    let d00 = b.get(Pos(0, 0)).unwrap();
    assert_eq!(d00.color(), Color::Red);
    assert_eq!(d00.value(), 1);
    let d01 = b.get(Pos(0, 1)).unwrap();
    assert_eq!(d01.color(), Color::Black);
    assert_eq!(d01.value(), 1);
    assert_eq!(g.turn(), Color::Red);
    assert_eq!(g.winner(), None);

    let acts = g.actions();
    assert!(acts.contains(&Action::Add(Pos(-1, 0))));
    assert!(acts.contains(&Action::Add(Pos(1, 0))));
    assert!(acts.contains(&Action::Add(Pos(0, -1))));
    // occupied cell, and cells touching the black die, are not placements
    assert!(!acts.contains(&Action::Add(Pos(0, 1))));
    assert!(!acts.contains(&Action::Add(Pos(0, 2))));
    assert!(!acts.contains(&Action::Add(Pos(-1, 1))));
    assert!(!acts.contains(&Action::Add(Pos(1, 1))));
    // the lone red die can squeeze diagonally around the black one
    assert!(acts.contains(&Action::Move(Pos(0, 0), Pos(-1, 1))));
    assert!(acts.contains(&Action::Move(Pos(0, 0), Pos(1, 1))));
    assert_eq!(acts.len(), 5);
}

#[test]
fn overflow_win() {
    let g0 = Game::from_board(
        vec![
            (Pos(0, 0), die(Color::Red, 6)),
            (Pos(0, 1), die(Color::Red, 6)),
            (Pos(0, 2), die(Color::Black, 1)),
        ],
        Color::Red,
    );
    let mut g = g0.unwrap();
    assert!(g.actions().contains(&Action::Merge(Pos(0, 0), Pos(0, 1))));
    let w = g.perform_action(Action::Merge(Pos(0, 0), Pos(0, 1)));
    assert_eq!(w, Some(Color::Red));
    assert_eq!(g.winner(), Some(Color::Red));
    // the turn does not flip on an overflow win
    assert_eq!(g.turn(), Color::Red);
    assert_eq!(g.board().get(Pos(0, 1)).unwrap().value(), 12);
    assert!(g.board().get(Pos(0, 0)).is_none());
    assert_eq!(g.board().len(), 2);
}

#[test]
fn blockade_win() {
    // Red cages the single black die: after red's move, black can neither
    // place (every candidate touches red), nor merge (no black pair), nor
    // move (the black die is an articulation point).
    let g0 = Game::from_board(
        vec![
            (Pos(0, 0), die(Color::Red, 1)),
            (Pos(0, 2), die(Color::Red, 1)),
            (Pos(-1, 0), die(Color::Red, 1)),
            (Pos(-1, 2), die(Color::Red, 1)),
            (Pos(1, 2), die(Color::Red, 1)),
            (Pos(1, 1), die(Color::Red, 1)),
            (Pos(0, 1), die(Color::Black, 1)),
        ],
        Color::Red,
    );
    let mut g = g0.unwrap();
    assert!(g.actions().contains(&Action::Move(Pos(1, 1), Pos(1, 0))));
    let w = g.perform_action(Action::Move(Pos(1, 1), Pos(1, 0)));
    assert_eq!(w, Some(Color::Red));
    assert_eq!(g.winner(), Some(Color::Red));
    // the turn flipped to black, who has no action at all
    assert_eq!(g.turn(), Color::Black);
    assert!(g.actions().is_empty());
}

#[test]
fn slide_distance() {
    // A die with three pips and an open lane braced by a wall below moves
    // exactly three cells, never four.
    let g0 = Game::from_board(
        vec![
            (Pos(0, 0), die(Color::Red, 3)),
            (Pos(0, -1), die(Color::Black, 1)),
            (Pos(1, -1), die(Color::Black, 1)),
            (Pos(2, -1), die(Color::Black, 1)),
            (Pos(3, -1), die(Color::Black, 1)),
        ],
        Color::Red,
    );
    let g = g0.unwrap();
    assert!(g.actions().contains(&Action::Move(Pos(0, 0), Pos(3, 0))));
    assert!(!g.actions().contains(&Action::Move(Pos(0, 0), Pos(4, 0))));
}

#[test]
fn merge_keeps_pips_and_drops_one_die() {
    let g0 = Game::from_board(
        vec![
            (Pos(0, 0), die(Color::Red, 2)),
            (Pos(0, 1), die(Color::Red, 3)),
            (Pos(0, 2), die(Color::Black, 1)),
        ],
        Color::Red,
    );
    let mut g = g0.unwrap();
    assert!(g.actions().contains(&Action::Merge(Pos(0, 0), Pos(0, 1))));
    let w = g.perform_action(Action::Merge(Pos(0, 0), Pos(0, 1)));
    assert_eq!(w, None);
    assert_eq!(g.winner(), None);
    assert_eq!(g.turn(), Color::Black);
    assert_eq!(g.board().len(), 2);
    assert!(g.board().get(Pos(0, 0)).is_none());
    let merged = g.board().get(Pos(0, 1)).unwrap();
    assert_eq!(merged.color(), Color::Red);
    assert_eq!(merged.value(), 5);
    assert_eq!(g.board().get(Pos(0, 2)).unwrap().value(), 1);
}

#[test]
fn move_keeps_dice_and_pips() {
    let mut g = Game::new();
    let w = g.perform_action(Action::Move(Pos(0, 0), Pos(1, 1)));
    assert_eq!(w, None);
    assert_eq!(g.board().len(), 2);
    assert!(g.board().get(Pos(0, 0)).is_none());
    let moved = g.board().get(Pos(1, 1)).unwrap();
    assert_eq!(moved.color(), Color::Red);
    assert_eq!(moved.value(), 1);
    assert_eq!(g.board().get(Pos(0, 1)).unwrap().value(), 1);
    assert_eq!(g.turn(), Color::Black);
}

#[test]
fn add_brings_one_fresh_die() {
    let mut g = Game::new();
    let w = g.perform_action(Action::Add(Pos(0, -1)));
    assert_eq!(w, None);
    assert_eq!(g.board().len(), 3);
    let added = g.board().get(Pos(0, -1)).unwrap();
    assert_eq!(added.color(), Color::Red);
    assert_eq!(added.value(), 1);
    assert_eq!(g.turn(), Color::Black);
}

#[test]
fn actions_never_start_from_a_cut_cell() {
    // The middle red die holds the chain together, so nothing starts there.
    let g0 = Game::from_board(
        vec![
            (Pos(0, 0), die(Color::Red, 1)),
            (Pos(0, 1), die(Color::Red, 1)),
            (Pos(0, 2), die(Color::Black, 1)),
        ],
        Color::Red,
    );
    let g = g0.unwrap();
    assert!(g.actions().contains(&Action::Merge(Pos(0, 0), Pos(0, 1))));
    for a in g.actions().iter() {
        assert_ne!(a.from(), Some(Pos(0, 1)));
    }
}

#[test]
fn stock_limit_stops_placements() {
    // Six red dice in play: red may still merge or move, but not place.
    let g0 = Game::from_board(
        vec![
            (Pos(0, 0), die(Color::Red, 1)),
            (Pos(1, 0), die(Color::Red, 1)),
            (Pos(2, 0), die(Color::Red, 1)),
            (Pos(3, 0), die(Color::Red, 1)),
            (Pos(4, 0), die(Color::Red, 1)),
            (Pos(5, 0), die(Color::Red, 1)),
            (Pos(0, 1), die(Color::Black, 1)),
        ],
        Color::Red,
    );
    let g = g0.unwrap();
    for a in g.actions().iter() {
        assert!(!matches!(a, Action::Add(_)));
    }
    assert!(g.actions().contains(&Action::Merge(Pos(5, 0), Pos(4, 0))));
}

#[test]
fn setup_rejects_duplicate_cell() {
    let r = Game::from_board(
        vec![
            (Pos(0, 0), die(Color::Red, 1)),
            (Pos(0, 0), die(Color::Black, 1)),
        ],
        Color::Red,
    );
    assert!(r.is_none());
}

#[test]
fn setup_rejects_bad_values() {
    let r = Game::from_board(
        vec![
            (Pos(0, 0), die(Color::Red, 0)),
            (Pos(0, 1), die(Color::Black, 1)),
        ],
        Color::Red,
    );
    assert!(r.is_none());
    let r = Game::from_board(
        vec![
            (Pos(0, 0), die(Color::Red, 7)),
            (Pos(0, 1), die(Color::Black, 1)),
        ],
        Color::Red,
    );
    assert!(r.is_none());
}

#[test]
fn setup_rejects_lonely_die() {
    let r = Game::from_board(
        vec![
            (Pos(0, 0), die(Color::Red, 1)),
            (Pos(5, 5), die(Color::Black, 1)),
        ],
        Color::Red,
    );
    assert!(r.is_none());
}

#[test]
fn setup_rejects_split_hive() {
    // two pairs, each die with company, but not one group
    let r = Game::from_board(
        vec![
            (Pos(0, 0), die(Color::Red, 1)),
            (Pos(0, 1), die(Color::Red, 1)),
            (Pos(5, 5), die(Color::Black, 1)),
            (Pos(5, 6), die(Color::Black, 1)),
        ],
        Color::Red,
    );
    assert!(r.is_none());
}

#[test]
fn setup_rejects_wrong_stock() {
    // seven red dice
    let r = Game::from_board(
        vec![
            (Pos(0, 0), die(Color::Red, 1)),
            (Pos(1, 0), die(Color::Red, 1)),
            (Pos(2, 0), die(Color::Red, 1)),
            (Pos(3, 0), die(Color::Red, 1)),
            (Pos(4, 0), die(Color::Red, 1)),
            (Pos(5, 0), die(Color::Red, 1)),
            (Pos(6, 0), die(Color::Red, 1)),
            (Pos(0, 1), die(Color::Black, 1)),
        ],
        Color::Red,
    );
    assert!(r.is_none());
    // no black die at all
    let r = Game::from_board(
        vec![
            (Pos(0, 0), die(Color::Red, 1)),
            (Pos(0, 1), die(Color::Red, 1)),
        ],
        Color::Red,
    );
    assert!(r.is_none());
}

#[test]
fn setup_rejects_rim_coordinates() {
    let r = Game::from_board(
        vec![
            (Pos(i32::MAX, 0), die(Color::Red, 1)),
            (Pos(i32::MAX, 1), die(Color::Black, 1)),
        ],
        Color::Red,
    );
    assert!(r.is_none());
}

#[test]
fn free_cell_oracle() {
    let g = Game::from_board(
        vec![
            (Pos(0, 0), die(Color::Red, 1)),
            (Pos(0, 1), die(Color::Red, 1)),
            (Pos(0, 2), die(Color::Black, 1)),
        ],
        Color::Red,
    )
    .unwrap();
    assert!(g.is_free(Pos(0, 0)));
    assert!(!g.is_free(Pos(0, 1)));
    assert!(g.is_free(Pos(0, 2)));
}

#[test]
fn helpers_read_the_board() {
    let g = Game::new();
    assert!(g.is_empty(Pos(3, 3)));
    assert!(!g.is_empty(Pos(0, 0)));
    assert!(g.has_color(Pos(0, 0), Color::Red));
    assert!(!g.has_color(Pos(0, 0), Color::Black));
    assert!(g.has_color(Pos(0, 1), Color::Black));
    assert!(!g.has_color(Pos(2, 2), Color::Red));
    assert_eq!(Action::Add(Pos(4, 4)).from(), None);
    assert_eq!(Action::Merge(Pos(1, 2), Pos(1, 3)).from(), Some(Pos(1, 2)));
    assert_eq!(Action::Move(Pos(1, 2), Pos(1, 3)).from(), Some(Pos(1, 2)));
    assert_eq!(Color::Red.other(), Color::Black);
    assert_eq!(Color::Black.other(), Color::Red);
    let d = Die::with_color(Color::Black);
    assert_eq!(d.color(), Color::Black);
    assert_eq!(d.value(), 1);
}

#[test]
fn a_short_game_stays_lawful() {
    // Drive a few turns picking the first listed action each time, checking
    // the running invariants the engine promises: values stay in range and
    // every action's origin cell is occupied by the mover's color.
    let mut g = Game::default();
    for _ in 0..12 {
        if g.winner().is_some() {
            break;
        }
        let acts = g.actions().clone();
        assert!(!acts.is_empty());
        let turn = g.turn();
        for a in acts.iter() {
            if let Some(f) = a.from() {
                let d = g.board().get(f).expect("origin must be occupied");
                assert_eq!(d.color(), turn);
            }
        }
        let a = acts[0];
        g.perform_action(a);
        let b = g.board();
        for i in 0..b.len() {
            let (_, d) = b.entry(i);
            if g.winner().is_none() {
                assert!(1 <= d.value() && d.value() <= 6);
            }
        }
    }
}
