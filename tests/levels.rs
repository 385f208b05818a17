use samegame::board::Game;
use samegame::level::{generate_level, generate_levels, random_board, random_colors, Rules};

fn board(rows: &[&[usize]], min_connected: usize) -> Game {
    let rows: Vec<Vec<usize>> = rows.iter().map(|r| r.to_vec()).collect();
    Game::from_rows(&rows, min_connected)
}

#[test]
fn stuck_board_search_gives_up_unchanged() {
    let rng = fastrand::Rng::with_seed(11);
    let mut g = board(&[&[0, 1, 0, 1], &[1, 0, 1, 0], &[0, 1, 0, 1], &[1, 0, 1, 0]], 2);
    let before = g.to_string();
    for x in 0..4 {
        for y in 0..4 {
            assert!(!g.try_move(x, y));
        }
    }
    assert!(g.search(&rng).is_none());
    assert_eq!(g.to_string(), before);
}

#[test]
fn search_on_single_color_board_clears_in_one_click() {
    let rng = fastrand::Rng::with_seed(3);
    let mut g = Game::new(5, 2);
    let clicks = g.search(&rng).expect("one click clears a single-color board");
    assert_eq!(clicks.len(), 1);
    assert!(g.is_cleared());
}

#[test]
fn try_move_collapses_after_success() {
    let mut g = board(&[&[0, 1, 1], &[0, 2, 2], &[0, 1, 2]], 2);
    assert!(g.try_move(0, 0));
    assert_eq!(g.to_string(), "  1 1\n  2 2\n  1 2");
    assert!(!g.try_move(0, 0));
}

#[test]
fn random_board_stays_in_palette() {
    let rng = fastrand::Rng::with_seed(5);
    let rules = Rules::small();
    let g = random_board(&rng, rules);
    assert_eq!(g.size, 6);
    for x in 0..6 {
        for y in 0..6 {
            let t = g.tile(x, y);
            assert!(t.enabled);
            assert!(t.color < 6);
        }
    }
}

#[test]
fn covers_colors_detects_missing_color() {
    let g = board(&[&[0, 1], &[1, 0]], 2);
    assert!(g.covers_colors(2));
    assert!(!g.covers_colors(3));
    assert!(g.has_color(1));
    assert!(!g.has_color(2));
}

#[test]
fn generated_levels_replay_to_clear() {
    let rng = fastrand::Rng::with_seed(2024);
    let rules = Rules { size: 4, color_count: 2, min_connected: 2 };
    let levels = generate_levels(&rng, rules, 2, 5000);
    assert_eq!(levels.len(), 2);
    for level in &levels {
        assert_eq!(level.board.size, 4);
        assert!(level.board.covers_colors(2));
        assert!(!level.board.is_cleared());
        assert!(!level.clicks.is_empty());
        assert!(level.clicks.len() <= 16 / 2);
        assert!(level.replay().is_cleared());
    }
}

#[test]
fn generate_level_three_colors() {
    let rng = fastrand::Rng::with_seed(99);
    let rules = Rules { size: 5, color_count: 3, min_connected: 2 };
    let mut found = None;
    for _ in 0..20000 {
        if let Some(level) = generate_level(&rng, rules) {
            found = Some(level);
            break;
        }
    }
    let level = found.expect("a level within the candidate budget");
    assert!(level.board.covers_colors(3));
    assert_eq!(level.board.min_connected, 2);
    assert!(level.replay().is_cleared());
}

#[test]
fn rule_presets() {
    assert_eq!(Rules::classic(), Rules { size: 8, color_count: 8, min_connected: 2 });
    assert_eq!(Rules::small(), Rules { size: 6, color_count: 6, min_connected: 2 });
}

#[test]
fn no_levels_without_candidates() {
    let rng = fastrand::Rng::with_seed(1);
    assert!(generate_levels(&rng, Rules::small(), 3, 0).is_empty());
}

#[test]
fn one_color_rules_always_give_a_level() {
    let rng = fastrand::Rng::with_seed(8);
    let rules = Rules { size: 4, color_count: 1, min_connected: 3 };
    let level = generate_level(&rng, rules).expect("a single-color board is cleared by one click");
    assert_eq!(level.clicks.len(), 1);
    assert!(level.replay().is_cleared());
}

#[test]
fn one_color_rules_fill_the_quota() {
    let rng = fastrand::Rng::with_seed(8);
    let rules = Rules { size: 3, color_count: 1, min_connected: 9 };
    assert_eq!(generate_levels(&rng, rules, 4, 10).len(), 4);
    assert_eq!(generate_levels(&rng, rules, 10, 3).len(), 3);
}

#[test]
fn random_colors_are_square_and_in_palette() {
    let rng = fastrand::Rng::with_seed(17);
    let rules = Rules { size: 5, color_count: 4, min_connected: 2 };
    let rows = random_colors(&rng, rules);
    assert_eq!(rows.len(), 5);
    for row in &rows {
        assert_eq!(row.len(), 5);
        assert!(row.iter().all(|&c| c < 4));
    }
    let g = Game::from_rows(&rows, 2);
    assert_eq!(g.tile(3, 1).color, rows[1][3]);
}
