use t2048::palace::{Game, MoveDirection};
use t2048::snapshot::{snapshot_decode, snapshot_encode};
use t2048::store::Store;

fn fresh_store() -> Store {
    let db = sled::Config::new().temporary(true).open().unwrap();
    Store::new(db)
}

fn game_with_grid(grid: Vec<Vec<u128>>, store: &Store) -> Game {
    let size = grid.len();
    let mut game = Game::new(size, store);
    game.palaces = grid;
    game
}

#[test]
fn test() {
    let db = sled::Config::new().temporary(true).open().unwrap();
    let mut store = Store::new(db);
    let game = Game::new(4, &store);

    store.insert_history(&game).unwrap();

    let history = store.history().unwrap().unwrap();
    println!("game = {:?}", history);
    assert_eq!(history.palaces, game.palaces);

    store.insert_top_score(4, 2048).unwrap();

    let top_score = store.top_score(4).unwrap();
    println!("top_score = {}", top_score);
    assert_eq!(top_score, 2048);
}

#[test]
fn test_snapshot_round_trip() {
    let store = fresh_store();
    let mut game = game_with_grid(
        vec![
            vec![2, 0, 0, 4],
            vec![0, 8, 0, 0],
            vec![0, 0, 16, 0],
            vec![2, 0, 0, 32],
        ],
        &store,
    );
    game.total_score = 123456789;
    game.top_score = 987654321;
    game.move_steps = 42;
    game.game_over = false;

    let bytes = snapshot_encode(&game);
    let back = snapshot_decode(&bytes).unwrap();
    assert_eq!(back.palaces, game.palaces);
    assert_eq!(back.total_score, game.total_score);
    assert_eq!(back.top_score, game.top_score);
    assert_eq!(back.move_steps, game.move_steps);
    assert_eq!(back.game_over, game.game_over);
    assert_eq!(back.size, game.size);
}

#[test]
fn test_snapshot_rejects_corrupt_bytes() {
    assert!(snapshot_decode(&vec![]).is_none());
    assert!(snapshot_decode(&vec![104, 105]).is_none());

    let store = fresh_store();
    let game = Game::new(4, &store);
    let mut bytes = snapshot_encode(&game);
    let last = bytes.len() - 1;
    bytes[last] = 255;
    assert!(snapshot_decode(&bytes).is_none());

    // a cell that is not a power of two is rejected
    let mut odd_game = Game::new(4, &store);
    odd_game.palaces[0][0] = 3;
    let bytes = snapshot_encode(&odd_game);
    assert!(snapshot_decode(&bytes).is_none());
}

#[test]
fn test_corrupt_history_reads_as_no_snapshot() {
    let db = sled::Config::new().temporary(true).open().unwrap();
    let raw = db.clone();
    let store = Store::new(db);
    raw.insert("history", b"not a snapshot".as_ref()).unwrap();
    assert!(store.history().unwrap().is_none());
}

#[test]
fn test_undo_round_trip() {
    let mut store = fresh_store();
    let mut game = game_with_grid(
        vec![
            vec![2, 2, 0, 0],
            vec![0, 4, 4, 0],
            vec![0, 0, 0, 0],
            vec![8, 0, 0, 8],
        ],
        &store,
    );
    game.total_score = 100;

    let palaces_before = game.palaces.clone();
    let score_before = game.total_score;
    let steps_before = game.move_steps;
    let over_before = game.game_over;

    game.insert_history(&mut store).unwrap();
    game.move_palaces(MoveDirection::Left);
    game.insert_top_score(&mut store).unwrap();
    assert_ne!(game.palaces, palaces_before);

    game.back(&mut store).unwrap();
    assert_eq!(game.palaces, palaces_before);
    assert_eq!(game.total_score, score_before);
    assert_eq!(game.move_steps, steps_before);
    assert_eq!(game.game_over, over_before);

    // the snapshot is single-use: a second undo is a no-op
    game.move_palaces(MoveDirection::Right);
    let palaces_after_move = game.palaces.clone();
    let score_after_move = game.total_score;
    game.back(&mut store).unwrap();
    assert_eq!(game.palaces, palaces_after_move);
    assert_eq!(game.total_score, score_after_move);
}

#[test]
fn test_best_score_record_reads_back() {
    let mut store = fresh_store();
    assert_eq!(store.top_score(4).unwrap(), 0);
    store.insert_top_score(4, 77).unwrap();
    assert_eq!(store.top_score(4).unwrap(), 77);
    store.insert_top_score(5, 99).unwrap();
    assert_eq!(store.top_score(4).unwrap(), 77);
    assert_eq!(store.top_score(5).unwrap(), 99);
}

#[test]
fn test_best_score_monotonic_across_restarts() {
    let mut store = fresh_store();
    let mut game = game_with_grid(
        vec![
            vec![2, 2, 0, 0],
            vec![0, 0, 0, 0],
            vec![0, 0, 0, 0],
            vec![0, 0, 0, 0],
        ],
        &store,
    );
    game.total_score = 0;
    let mut best: u128 = game.top_score;

    game.move_palaces(MoveDirection::Left);
    game.insert_top_score(&mut store).unwrap();
    assert!(game.top_score >= best);
    best = game.top_score;
    assert_eq!(game.total_score, 4);
    assert_eq!(game.top_score, 4);

    game.change_model(4, &store);
    assert!(game.top_score >= best);
    assert_eq!(game.top_score, 4);
    best = game.top_score;

    game.change_model(5, &store);
    assert_eq!(game.top_score, 0);
    game.change_model(4, &store);
    assert!(game.top_score >= best);
}
