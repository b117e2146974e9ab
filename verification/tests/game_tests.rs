use t2048::palace::{Game, Model, MoveDirection};
use t2048::store::Store;

fn fresh_store() -> Store {
    let db = sled::Config::new().temporary(true).open().unwrap();
    Store::new(db)
}

fn game_with_grid(grid: Vec<Vec<u128>>, store: &Store) -> Game {
    let size = grid.len();
    let mut game = Game::new(size, store);
    game.palaces = grid;
    game
}

fn grid_sum(grid: &Vec<Vec<u128>>) -> u128 {
    grid.iter().map(|r| r.iter().sum::<u128>()).sum()
}

fn nonzero_cells(grid: &Vec<Vec<u128>>) -> usize {
    grid.iter()
        .map(|r| r.iter().filter(|&&v| v != 0).count())
        .sum()
}

#[test]
fn test_new_game_has_two_seeded_tiles() {
    let store = fresh_store();
    for size in [3usize, 4, 5, 6] {
        let game = Game::new(size, &store);
        assert_eq!(game.palaces.len(), size);
        for row in &game.palaces {
            assert_eq!(row.len(), size);
        }
        assert_eq!(nonzero_cells(&game.palaces), 2);
        for row in &game.palaces {
            for &v in row {
                assert!(v == 0 || v == 2 || v == 4);
            }
        }
        assert_eq!(game.total_score, 0);
        assert_eq!(game.move_steps, 0);
        assert!(!game.game_over);
        assert_eq!(game.size, size);
    }
}

#[test]
fn test_full_grid_without_pairs_is_terminal() {
    let store = fresh_store();
    let game = game_with_grid(
        vec![
            vec![2, 4, 2, 4],
            vec![4, 2, 4, 2],
            vec![2, 4, 2, 4],
            vec![4, 2, 4, 2],
        ],
        &store,
    );
    assert!(game.game_over());
}

#[test]
fn test_full_grid_with_adjacent_pair_is_not_terminal() {
    let store = fresh_store();
    let game = game_with_grid(
        vec![
            vec![2, 2, 4, 8],
            vec![4, 8, 2, 4],
            vec![2, 4, 8, 2],
            vec![4, 2, 4, 8],
        ],
        &store,
    );
    assert!(!game.game_over());

    // a vertical pair counts too
    let game = game_with_grid(
        vec![
            vec![2, 4, 2, 4],
            vec![2, 8, 4, 2],
            vec![4, 2, 8, 4],
            vec![8, 4, 2, 8],
        ],
        &store,
    );
    assert!(!game.game_over());
}

#[test]
fn test_grid_with_empty_cell_is_never_terminal() {
    let store = fresh_store();
    let game = game_with_grid(
        vec![
            vec![2, 4, 2, 4],
            vec![4, 2, 4, 2],
            vec![2, 4, 2, 4],
            vec![4, 2, 4, 0],
        ],
        &store,
    );
    assert!(!game.game_over());
}

#[test]
fn test_adjacent_empty_cells_do_not_count_as_mergeable() {
    let store = fresh_store();
    let game = game_with_grid(
        vec![
            vec![2, 4, 0, 0],
            vec![4, 2, 0, 0],
            vec![0, 0, 0, 0],
            vec![0, 0, 0, 0],
        ],
        &store,
    );
    assert!(!game.adjacent_position_can_merge());
}

#[test]
fn test_empty_position_lists_each_empty_cell_once() {
    let store = fresh_store();
    let game = game_with_grid(
        vec![vec![2, 0, 4], vec![0, 8, 0], vec![2, 2, 2]],
        &store,
    );
    let mut empties = game.empty_position();
    empties.sort();
    assert_eq!(empties, vec![(0usize, 1usize), (1, 0), (1, 2)]);
}

#[test]
fn test_spawn_places_one_tile_on_an_empty_cell() {
    let store = fresh_store();
    let mut game = game_with_grid(
        vec![
            vec![2, 4, 2, 4],
            vec![4, 2, 4, 2],
            vec![2, 4, 2, 4],
            vec![4, 2, 4, 0],
        ],
        &store,
    );
    game.empty_position_gen();
    let spawned = game.palaces[3][3];
    assert!(spawned == 2 || spawned == 4);
    assert_eq!(nonzero_cells(&game.palaces), 16);

    // on a full grid the spawn silently does nothing
    let before = game.palaces.clone();
    game.empty_position_gen();
    assert_eq!(game.palaces, before);
}

#[test]
fn test_move_conserves_sum_but_for_the_spawn() {
    let store = fresh_store();
    for md in [
        MoveDirection::Up,
        MoveDirection::Down,
        MoveDirection::Left,
        MoveDirection::Right,
    ] {
        let mut game = game_with_grid(
            vec![
                vec![0, 0, 0, 2],
                vec![4, 2, 0, 2],
                vec![0, 2, 2, 0],
                vec![0, 0, 0, 0],
            ],
            &store,
        );
        game.total_score = 0;
        let sum_before = grid_sum(&game.palaces);
        game.move_palaces(md);
        let sum_after = grid_sum(&game.palaces);
        let added = sum_after - sum_before;
        assert!(added == 2 || added == 4);
        assert_eq!(game.total_score, 8);
    }
}

#[test]
fn test_move_recomputes_terminal_flag() {
    let store = fresh_store();
    let mut game = game_with_grid(
        vec![
            vec![0, 0, 0, 2],
            vec![4, 2, 0, 2],
            vec![0, 2, 2, 0],
            vec![0, 0, 0, 0],
        ],
        &store,
    );
    game.move_palaces(MoveDirection::Up);
    assert_eq!(game.game_over, game.game_over());
}

#[test]
fn test_change_model_resets_the_game() {
    let store = fresh_store();
    let mut game = Game::new(4, &store);
    game.total_score = 50;
    game.move_steps = 7;
    game.game_over = true;
    game.change_model(5, &store);
    assert_eq!(game.size, 5);
    assert_eq!(game.total_score, 0);
    assert_eq!(game.move_steps, 0);
    assert!(!game.game_over);
    assert_eq!(nonzero_cells(&game.palaces), 2);
}

#[test]
fn test_model_cycles_through_sizes() {
    let mut model = Model::new();
    assert_eq!(model.items, vec![3, 4, 5, 6]);
    assert_eq!(model.selected, 1);
    assert_eq!(model.size(), 4);
    model.next();
    assert_eq!(model.size(), 5);
    model.next();
    assert_eq!(model.size(), 6);
    model.next();
    assert_eq!(model.size(), 3);
    model.previous();
    assert_eq!(model.size(), 6);
    model.previous();
    model.previous();
    model.previous();
    assert_eq!(model.size(), 3);
    model.previous();
    assert_eq!(model.size(), 6);
}
