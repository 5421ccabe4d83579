use resume::minigame::{new_tile_exponent, tile_properties, Direction, Minigame};

fn board(cells: [[u8; 4]; 4]) -> Minigame {
    let mut game = Minigame { state: 0 };
    for y in 0..4u8 {
        for x in 0..4u8 {
            game.set((x, y), cells[y as usize][x as usize]);
        }
    }
    game
}

fn cells(game: &Minigame) -> [[u8; 4]; 4] {
    let mut out = [[0u8; 4]; 4];
    for y in 0..4u8 {
        for x in 0..4u8 {
            out[y as usize][x as usize] = game.get((x, y));
        }
    }
    out
}

fn tile_count(game: &Minigame) -> usize {
    cells(game).iter().flatten().filter(|&&v| v != 0).count()
}

fn total(game: &Minigame) -> u64 {
    cells(game).iter().flatten().map(|&v| if v == 0 { 0 } else { 1u64 << v }).sum()
}

#[test]
fn test_get() {
    let game = Minigame {
        state: 0b1111_0000_0000_0000_0000_0000,
    };

    assert_eq!(game.get((1, 1)), 15);
}

#[test]
fn test_set() {
    let mut game = Minigame { state: 0 };
    game.set((1, 1), 15);
    assert_eq!(game.state, 0b1111_0000_0000_0000_0000_0000);
}

#[test]
fn set_then_get_keeps_other_cells() {
    let mut game = Minigame { state: u64::MAX };
    game.set((2, 3), 5);
    assert_eq!(game.get((2, 3)), 5);
    for y in 0..4u8 {
        for x in 0..4u8 {
            if (x, y) != (2, 3) {
                assert_eq!(game.get((x, y)), 15);
            }
        }
    }
    assert_eq!(game.state, 0xf5ff_ffff_ffff_ffff);
}

#[test]
fn first_cell_is_lowest_nibble() {
    let game = Minigame { state: 0x0000_0000_0000_0007 };
    assert_eq!(game.get((0, 0)), 7);
    assert_eq!(game.get((1, 0)), 0);
    let game = Minigame { state: 0x9000_0000_0000_0000 };
    assert_eq!(game.get((3, 3)), 9);
}

#[test]
fn with_tiles_places_two_tiles() {
    let game = Minigame::with_tiles(5, 1, 9, 2);
    assert_eq!(game.get((1, 1)), 1);
    assert_eq!(game.get((1, 2)), 2);
    assert_eq!(tile_count(&game), 2);
}

#[test]
fn with_tiles_moves_a_clash_to_the_last_cell() {
    let game = Minigame::with_tiles(4, 2, 4, 1);
    assert_eq!(game.get((0, 1)), 2);
    assert_eq!(game.get((3, 3)), 1);
    assert_eq!(tile_count(&game), 2);
}

#[test]
fn new_game_has_two_small_tiles() {
    for _ in 0..50 {
        let game = Minigame::new();
        assert_eq!(tile_count(&game), 2);
        assert!(cells(&game).iter().flatten().all(|&v| v <= 2));
    }
}

#[test]
fn won_reports_2048_and_cheating() {
    assert!(matches!(board([[0; 4]; 4]).won(), Ok(false)));
    assert!(matches!(board([[0, 0, 0, 0], [0, 11, 0, 0], [0; 4], [0; 4]]).won(), Ok(true)));
    assert!(board([[0, 0, 0, 0], [0, 11, 0, 0], [0; 4], [0, 0, 0, 12]]).won().is_err());
}

#[test]
fn move_left_merges_once_and_adds_a_tile() {
    let mut game = board([[1, 1, 1, 1], [2, 0, 2, 0], [3, 2, 2, 0], [0, 0, 0, 4]]);
    let before = total(&game);
    assert!(game.move_(Direction::Left));
    let after = cells(&game);
    assert_eq!(after[0][..2], [2, 2]);
    assert_eq!(after[1][..1], [3]);
    assert_eq!(after[2][..2], [3, 3]);
    assert_eq!(after[3][..1], [4]);
    let added = total(&game) - before;
    assert!(added == 2 || added == 4);
    assert_eq!(tile_count(&game), 7);
}

#[test]
fn move_right_and_down() {
    let mut game = board([[1, 1, 0, 0], [0; 4], [0; 4], [0; 4]]);
    assert!(game.move_(Direction::Right));
    assert_eq!(game.get((3, 0)), 2);
    let mut game = board([[5, 0, 0, 0], [5, 0, 0, 0], [5, 0, 0, 0], [0; 4]]);
    assert!(game.move_(Direction::Down));
    assert_eq!(game.get((0, 3)), 6);
    assert_eq!(game.get((0, 2)), 5);
}

#[test]
fn move_that_changes_nothing_keeps_the_board() {
    let mut game = board([[1, 2, 0, 0], [3, 0, 0, 0], [0; 4], [0; 4]]);
    let state = game.state;
    assert!(!game.move_(Direction::Left));
    assert_eq!(game.state, state);
    assert!(!game.move_(Direction::Up));
    assert_eq!(game.state, state);
}

#[test]
fn move_on_a_full_board_fills_the_freed_cell() {
    let mut game = board([[1, 1, 2, 3], [4, 5, 6, 7], [8, 9, 10, 1], [2, 3, 4, 5]]);
    assert!(game.move_(Direction::Left));
    let row = cells(&game)[0];
    assert_eq!(row[..3], [2, 2, 3]);
    assert!(row[3] == 1 || row[3] == 2);
    assert_eq!(tile_count(&game), 16);
}

#[test]
fn place_tile_counts_empty_cells_column_by_column() {
    let mut game = board([[1, 0, 0, 0], [0, 0, 0, 0], [1, 0, 0, 0], [0, 0, 0, 0]]);
    game.place_tile(0, 2);
    assert_eq!(game.get((0, 1)), 2);
    let mut game = board([[1, 0, 0, 0], [0, 0, 0, 0], [1, 0, 0, 0], [0, 0, 0, 0]]);
    game.place_tile(2, 1);
    assert_eq!(game.get((1, 0)), 1);
}

#[test]
fn choices_on_a_stuck_board() {
    let game = board([[1, 2, 1, 2], [2, 1, 2, 1], [1, 2, 1, 2], [2, 1, 2, 1]]);
    let choices = game.choices().ok().unwrap();
    assert!(choices.lost);
    assert!(!choices.won);
    assert!(choices.left.is_none() && choices.right.is_none());
    assert!(choices.up.is_none() && choices.down.is_none());
}

#[test]
fn choices_on_an_open_board() {
    let game = board([[11, 0, 0, 0], [0; 4], [0; 4], [0; 4]]);
    let choices = game.choices().ok().unwrap();
    assert!(choices.won);
    assert!(!choices.lost);
    assert!(choices.left.is_none());
    assert!(choices.up.is_none());
    assert_eq!(choices.right.unwrap().get((3, 0)), 11);
    assert_eq!(choices.down.unwrap().get((0, 3)), 11);
}

#[test]
fn choices_refuse_a_cheated_board() {
    let game = board([[13, 0, 0, 0], [0; 4], [0; 4], [0; 4]]);
    assert!(game.choices().is_err());
}

#[test]
fn tile_properties_table() {
    assert!(tile_properties(0).is_none());
    assert_eq!(tile_properties(1), Some(("2", 0xee_ee_dd_ff, 0x00_00_00_ff)));
    assert_eq!(tile_properties(3), Some(("8", 0xff_66_00_ff, 0xff_ff_ff_ff)));
    assert_eq!(tile_properties(11), Some(("2048", 0xff_aa_00_ff, 0xff_ff_ff_ff)));
}

#[test]
fn slide_frees_the_cells_it_merges() {
    let mut game = board([[1, 1, 1, 1], [0; 4], [0; 4], [0; 4]]);
    assert!(game.move_(Direction::Left));
    let row = cells(&game)[0];
    assert_eq!(row[..2], [2, 2]);
    assert_eq!(tile_count(&game), 3);
    assert!(total(&game) == 10 || total(&game) == 12);
}

#[test]
fn new_tile_exponent_from_draw() {
    assert_eq!(new_tile_exponent(0), 2);
    assert_eq!(new_tile_exponent(1), 1);
    assert_eq!(new_tile_exponent(9), 1);
}

#[test]
fn with_draws_builds_the_starting_board() {
    let game = Minigame::with_draws(0, 3, 5, 5);
    assert_eq!(game.state, 0x1000_0000_0020_0000);
    let game = Minigame::with_draws(7, 0, 0, 14);
    assert_eq!(game.get((0, 0)), 1);
    assert_eq!(game.get((2, 3)), 2);
    assert_eq!(tile_count(&game), 2);
}

#[test]
fn slide_then_spawn_with_given_draws() {
    let mut game = Minigame { state: 0x111 };
    assert_eq!(game.slide(Direction::Right), (true, 14));
    assert_eq!(game.state, 0x2100);
    game.spawn(0, 5);
    assert_eq!(game.state, 0x2101);
    let mut game = Minigame { state: 0x2100 };
    game.spawn(2, 0);
    assert_eq!(game.get((0, 2)), 2);
}

#[test]
fn slide_that_changes_nothing_reports_it() {
    let mut game = Minigame { state: 0x21 };
    assert_eq!(game.slide(Direction::Left), (false, 14));
    assert_eq!(game.state, 0x21);
}

fn mirror(c: [[u8; 4]; 4]) -> [[u8; 4]; 4] {
    let mut out = [[0u8; 4]; 4];
    for y in 0..4 {
        for x in 0..4 {
            out[y][x] = c[y][3 - x];
        }
    }
    out
}

fn transpose(c: [[u8; 4]; 4]) -> [[u8; 4]; 4] {
    let mut out = [[0u8; 4]; 4];
    for y in 0..4 {
        for x in 0..4 {
            out[y][x] = c[x][y];
        }
    }
    out
}

#[test]
fn slides_in_all_directions_are_one_slide_turned() {
    let b = [[1, 1, 0, 2], [3, 0, 3, 3], [0, 2, 2, 2], [4, 4, 4, 4]];
    let slid = |c: [[u8; 4]; 4], d: Direction| {
        let mut g = board(c);
        let moved = g.slide(d).0;
        (moved, cells(&g))
    };
    let (m_right, right) = slid(b, Direction::Right);
    let (m_left, left) = slid(mirror(b), Direction::Left);
    assert_eq!(m_right, m_left);
    assert_eq!(right, mirror(left));
    let (m_up, up) = slid(b, Direction::Up);
    let (m_left, left) = slid(transpose(b), Direction::Left);
    assert_eq!(m_up, m_left);
    assert_eq!(up, transpose(left));
    let (m_down, down) = slid(b, Direction::Down);
    let (m_left, left) = slid(mirror(transpose(b)), Direction::Left);
    assert_eq!(m_down, m_left);
    assert_eq!(down, transpose(mirror(left)));
}

#[test]
fn a_move_without_meeting_2048s_stays_within_2048() {
    let mut game = board([[11, 2, 11, 0], [10, 10, 0, 0], [0; 4], [0; 4]]);
    assert!(game.move_(Direction::Left));
    assert!(matches!(game.won(), Ok(true)));
    assert_eq!(cells(&game)[1][0], 11);
}
