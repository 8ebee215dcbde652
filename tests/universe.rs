use game_of_life::Universe;

fn dead(width: u32, height: u32) -> Universe {
    Universe::from_cells(width, height, &vec![false; (width * height) as usize])
}

fn counts(universe: &Universe) -> Vec<u8> {
    let mut out = Vec::new();
    for row in 0..universe.height() {
        for column in 0..universe.width() {
            out.push(universe.get_cell_live_neighbors(row, column));
        }
    }
    out
}

#[test]
fn test_get_index() {
    let universe = dead(3, 3);
    assert_eq!(universe.get_index(0, 0), 0);
    assert_eq!(universe.get_index(0, 1), 1);
    assert_eq!(universe.get_index(1, 0), 3);
    assert_eq!(universe.get_index(1, 1), 4);
}

#[test]
fn test_all_cells_alive() {
    let mut universe = dead(3, 3);
    for index in 0..9 {
        universe.set_cell(index, true);
    }
    assert_eq!(universe.get_cell_live_neighbors(0, 0), 8);
    assert_eq!(universe.get_cell_live_neighbors(0, 1), 8);
    assert_eq!(universe.get_cell_live_neighbors(0, 2), 8);
    assert_eq!(universe.get_cell_live_neighbors(1, 0), 8);
    assert_eq!(universe.get_cell_live_neighbors(1, 1), 8);
    assert_eq!(universe.get_cell_live_neighbors(1, 2), 8);
    assert_eq!(universe.get_cell_live_neighbors(2, 0), 8);
    assert_eq!(universe.get_cell_live_neighbors(2, 1), 8);
    assert_eq!(universe.get_cell_live_neighbors(2, 2), 8);
}

#[test]
fn test_all_cells_dead() {
    let universe = dead(3, 3);
    assert_eq!(universe.get_cell_live_neighbors(0, 0), 0);
    assert_eq!(universe.get_cell_live_neighbors(0, 1), 0);
    assert_eq!(universe.get_cell_live_neighbors(0, 2), 0);
    assert_eq!(universe.get_cell_live_neighbors(1, 0), 0);
    assert_eq!(universe.get_cell_live_neighbors(1, 1), 0);
    assert_eq!(universe.get_cell_live_neighbors(1, 2), 0);
    assert_eq!(universe.get_cell_live_neighbors(2, 0), 0);
    assert_eq!(universe.get_cell_live_neighbors(2, 1), 0);
    assert_eq!(universe.get_cell_live_neighbors(2, 2), 0);
}

#[test]
fn test_single_alive_middle() {
    let mut universe = dead(3, 3);
    let index = universe.get_index(1, 1);
    universe.set_cell(index, true);
    assert_eq!(universe.get_cell_live_neighbors(0, 0), 1);
    assert_eq!(universe.get_cell_live_neighbors(0, 1), 1);
    assert_eq!(universe.get_cell_live_neighbors(0, 2), 1);
    assert_eq!(universe.get_cell_live_neighbors(1, 0), 1);
    assert_eq!(universe.get_cell_live_neighbors(1, 1), 0);
    assert_eq!(universe.get_cell_live_neighbors(1, 2), 1);
    assert_eq!(universe.get_cell_live_neighbors(2, 0), 1);
    assert_eq!(universe.get_cell_live_neighbors(2, 1), 1);
    assert_eq!(universe.get_cell_live_neighbors(2, 2), 1);
}

#[test]
fn test_diagnal_alive() {
    let mut universe = dead(3, 3);
    let mut index = universe.get_index(0, 0);
    universe.set_cell(index, true);
    index = universe.get_index(1, 1);
    universe.set_cell(index, true);
    index = universe.get_index(2, 2);
    universe.set_cell(index, true);
    assert_eq!(universe.get_cell_live_neighbors(0, 0), 2);
    assert_eq!(universe.get_cell_live_neighbors(0, 1), 3);
    assert_eq!(universe.get_cell_live_neighbors(0, 2), 3);
    assert_eq!(universe.get_cell_live_neighbors(1, 0), 3);
    assert_eq!(universe.get_cell_live_neighbors(1, 1), 2);
    assert_eq!(universe.get_cell_live_neighbors(1, 2), 3);
    assert_eq!(universe.get_cell_live_neighbors(2, 0), 3);
    assert_eq!(universe.get_cell_live_neighbors(2, 1), 3);
    assert_eq!(universe.get_cell_live_neighbors(2, 2), 2);
}

#[test]
fn index_is_row_times_width_plus_column() {
    let universe = dead(5, 4);
    assert_eq!(universe.get_index(3, 2), 17);
    assert_eq!(universe.get_index(0, 4), 4);
}

#[test]
fn all_dead_grid_stays_dead_after_tick() {
    let mut universe = dead(4, 3);
    assert!(counts(&universe).iter().all(|&n| n == 0));
    universe.tick();
    assert_eq!(universe.render(), "◻◻◻◻\n◻◻◻◻\n◻◻◻◻\n");
}

#[test]
fn block_still_life_is_unchanged_by_tick() {
    let mut cells = vec![false; 16];
    for &i in &[5usize, 6, 9, 10] {
        cells[i] = true;
    }
    let mut universe = Universe::from_cells(4, 4, &cells);
    let before = universe.render();
    universe.tick();
    assert_eq!(universe.render(), before);
    assert_eq!(before, "◻◻◻◻\n◻◼◼◻\n◻◼◼◻\n◻◻◻◻\n");
}

#[test]
fn blinker_oscillates_from_pre_tick_snapshot() {
    let mut cells = vec![false; 25];
    for &i in &[11usize, 12, 13] {
        cells[i] = true;
    }
    let mut universe = Universe::from_cells(5, 5, &cells);
    universe.tick();
    assert_eq!(universe.render(), "◻◻◻◻◻\n◻◻◼◻◻\n◻◻◼◻◻\n◻◻◼◻◻\n◻◻◻◻◻\n");
    universe.tick();
    assert_eq!(universe.render(), "◻◻◻◻◻\n◻◻◻◻◻\n◻◼◼◼◻\n◻◻◻◻◻\n◻◻◻◻◻\n");
}

#[test]
fn rule_table_survival_birth_and_death() {
    // A horizontal bar of three: its centre survives with two neighbours, its
    // ends die with one, and the cells above and below are born with three.
    let mut cells = vec![false; 49];
    for &i in &[8usize, 9, 10] {
        cells[i] = true;
    }
    let mut universe = Universe::from_cells(7, 7, &cells);
    assert_eq!(universe.get_cell_live_neighbors(0, 2), 3);
    assert_eq!(universe.get_cell_live_neighbors(1, 1), 1);
    assert_eq!(universe.get_cell_live_neighbors(1, 2), 2);
    universe.tick();
    let after = universe.render();
    let rows: Vec<&str> = after.lines().collect();
    assert_eq!(rows[0], "◻◻◼◻◻◻◻");
    assert_eq!(rows[1], "◻◻◼◻◻◻◻");
    assert_eq!(rows[2], "◻◻◼◻◻◻◻");
}

#[test]
fn overcrowded_cell_dies() {
    let mut cells = vec![false; 25];
    for &i in &[7usize, 11, 12, 13, 17] {
        cells[i] = true;
    }
    let mut universe = Universe::from_cells(5, 5, &cells);
    assert_eq!(universe.get_cell_live_neighbors(2, 2), 4);
    universe.tick();
    let index = universe.get_index(2, 2);
    let rows: Vec<char> = universe.render().chars().filter(|&c| c != '\n').collect();
    assert_eq!(rows[index], '◻');
}

#[test]
fn one_by_one_grid_counts_itself() {
    let universe = Universe::from_cells(1, 1, &vec![true]);
    assert_eq!(universe.get_cell_live_neighbors(0, 0), 8);
}

#[test]
fn from_draws_uses_threshold() {
    let universe = Universe::from_draws(3, 1, &vec![0, 53, 54]);
    assert_eq!(universe.render(), "◼◼◻\n");
}

#[test]
fn new_has_requested_dimensions() {
    let universe = Universe::new(8, 5);
    assert_eq!(universe.width(), 8);
    assert_eq!(universe.height(), 5);
    assert_eq!(universe.render().lines().count(), 5);
}

#[test]
fn cells_export_packs_bits() {
    let mut cells = vec![false; 40];
    cells[0] = true;
    cells[33] = true;
    let universe = Universe::from_cells(8, 5, &cells);
    let blocks = universe.cells();
    assert_eq!(blocks.len(), 2);
    assert_eq!(blocks[0], 1);
    assert_eq!(blocks[1], 2);
}
