use samegame::board::{Game, Tile};

fn board(rows: &[&[usize]], min_connected: usize) -> Game {
    let rows: Vec<Vec<usize>> = rows.iter().map(|r| r.to_vec()).collect();
    Game::from_rows(&rows, min_connected)
}

fn present_count(g: &Game) -> usize {
    let mut n = 0;
    for x in 0..g.size {
        for y in 0..g.size {
            if g.tile(x, y).enabled {
                n += 1;
            }
        }
    }
    n
}

fn color_counts(g: &Game) -> Vec<usize> {
    let mut counts = vec![0; 10];
    for x in 0..g.size {
        for y in 0..g.size {
            let t = g.tile(x, y);
            if t.enabled {
                counts[t.color] += 1;
            }
        }
    }
    counts
}

#[test]
fn new_board_is_full_of_color_zero() {
    let g = Game::new(4, 2);
    for x in 0..4 {
        for y in 0..4 {
            assert_eq!(g.tile(x, y), Tile { color: 0, enabled: true });
        }
    }
    assert!(!g.is_cleared());
    assert_eq!(Tile::default(), Tile::new(0));
}

#[test]
fn from_rows_reads_row_major() {
    let g = board(&[&[0, 1], &[2, 3]], 2);
    assert_eq!(g.tile(1, 0).color, 1);
    assert_eq!(g.tile(0, 1).color, 2);
    assert_eq!(g.tile(1, 1).color, 3);
}

#[test]
fn scenario_three_by_three() {
    let mut g = board(&[&[0, 0, 1], &[1, 0, 0], &[1, 1, 0]], 2);
    assert!(g.click(0, 0));
    for (x, y) in [(0, 0), (1, 0), (1, 1), (2, 1), (2, 2)] {
        assert!(!g.tile(x, y).enabled);
    }
    for (x, y) in [(2, 0), (0, 1), (0, 2), (1, 2)] {
        assert!(g.tile(x, y).enabled);
    }
    g.collapse();
    assert_eq!(present_count(&g), 9 - 5);
    assert_eq!(g.to_string(), "     \n1    \n1 1 1");
}

#[test]
fn failed_click_leaves_board_unchanged() {
    let mut g = board(&[&[0, 1], &[1, 0]], 2);
    let before = g.to_string();
    let tiles: Vec<Tile> = (0..4).map(|i| g.tile(i % 2, i / 2)).collect();
    assert!(!g.click(0, 0));
    assert!(!g.click(1, 0));
    assert_eq!(g.to_string(), before);
    let after: Vec<Tile> = (0..4).map(|i| g.tile(i % 2, i / 2)).collect();
    assert_eq!(tiles, after);
}

#[test]
fn single_tile_group_removed_when_threshold_is_one() {
    let mut g = board(&[&[0, 1], &[1, 0]], 1);
    assert!(g.click(0, 0));
    assert!(!g.tile(0, 0).enabled);
    assert!(g.tile(1, 0).enabled);
}

#[test]
fn click_on_empty_cell_fails() {
    let mut g = board(&[&[0, 1], &[1, 0]], 1);
    assert!(g.click(0, 0));
    assert!(!g.click(0, 0));
}

#[test]
fn gravity_moves_tiles_down() {
    let mut g = board(&[&[0, 1], &[2, 3]], 1);
    assert!(g.click(0, 1));
    g.move_down();
    assert_eq!(g.tile(0, 1), Tile { color: 0, enabled: true });
    assert!(!g.tile(0, 0).enabled);
    assert_eq!(g.to_string(), "  1\n0 3");
}

#[test]
fn gravity_twice_equals_once() {
    let mut g = board(&[&[0, 1, 2], &[1, 1, 2], &[0, 2, 2]], 2);
    assert!(g.click(1, 1));
    g.move_down();
    let once = g.to_string();
    g.move_down();
    assert_eq!(g.to_string(), once);
    assert_eq!(once, "    2\n0   2\n0 2 2");
}

#[test]
fn compaction_pulls_columns_right() {
    let mut g = board(&[&[0, 1, 2], &[0, 1, 2], &[0, 1, 2]], 3);
    assert!(g.click(1, 0));
    g.move_down();
    g.move_right();
    assert_eq!(g.to_string(), "  0 2\n  0 2\n  0 2");
    assert_eq!(g.tile(1, 2), Tile { color: 0, enabled: true });
}

#[test]
fn compaction_twice_equals_once() {
    let mut g = board(&[&[0, 1, 2, 3], &[0, 1, 2, 3], &[0, 1, 2, 3], &[0, 1, 2, 3]], 4);
    assert!(g.click(0, 0));
    assert!(g.click(2, 0));
    g.move_right();
    let once = g.to_string();
    g.move_right();
    assert_eq!(g.to_string(), once);
    assert_eq!(once, "    1 3\n    1 3\n    1 3\n    1 3");
}

#[test]
fn collapse_keeps_colors() {
    let mut g = board(&[&[0, 1, 2, 1], &[1, 1, 0, 2], &[2, 0, 0, 1], &[1, 2, 2, 0]], 2);
    assert!(g.click(1, 0));
    let before = color_counts(&g);
    g.collapse();
    assert_eq!(color_counts(&g), before);
    assert_eq!(before, vec![5, 3, 5, 0, 0, 0, 0, 0, 0, 0]);
}

#[test]
fn cleared_board_is_detected() {
    let mut g = board(&[&[4, 4], &[4, 4]], 2);
    assert!(!g.is_cleared());
    assert!(g.click(1, 1));
    assert!(g.is_cleared());
    g.collapse();
    assert!(g.is_cleared());
    assert_eq!(g.to_string(), "   \n   ");
}

#[test]
fn rendering_uses_decimal_colors() {
    let g = board(&[&[10, 3], &[0, 25]], 2);
    assert_eq!(g.to_string(), "10 3\n0 25");
}
