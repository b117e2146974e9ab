use t2048::merge::merge_row;
use t2048::palace::Game;
use t2048::store::Store;

fn fresh_store() -> Store {
    let db = sled::Config::new().temporary(true).open().unwrap();
    Store::new(db)
}

#[test]
fn test_merge() {
    let mut game = Game::new(4, &fresh_store());

    // toward the start of each row
    let mut palaces = vec![
        vec![0, 0, 0, 2],
        vec![4, 2, 0, 2],
        vec![0, 2, 2, 0],
        vec![0, 0, 0, 0],
    ];

    (0..4).for_each(|i| {
        palaces[i] = game.merge(&palaces[i]);
    });

    assert_eq!(
        vec![
            vec![2, 0, 0, 0],
            vec![4, 4, 0, 0],
            vec![4, 0, 0, 0],
            vec![0, 0, 0, 0],
        ],
        palaces
    );

    // toward the end of each row
    let mut palaces = vec![
        vec![0, 0, 0, 2],
        vec![4, 2, 0, 2],
        vec![0, 2, 2, 0],
        vec![0, 0, 0, 0],
    ];

    (0..4).for_each(|i| {
        palaces[i] = game
            .merge(&palaces[i].iter().rev().cloned().collect::<Vec<_>>())
            .iter()
            .rev()
            .cloned()
            .collect::<Vec<_>>();
    });

    assert_eq!(
        vec![
            vec![0, 0, 0, 2],
            vec![0, 0, 4, 4],
            vec![0, 0, 0, 4],
            vec![0, 0, 0, 0],
        ],
        palaces
    );

    // toward the top of each column
    let mut palaces = vec![
        vec![0, 0, 0, 2],
        vec![4, 2, 0, 2],
        vec![0, 2, 2, 0],
        vec![0, 0, 0, 0],
    ];

    for x in 0..4 {
        let mut o = Vec::new();
        for y in 0..4 {
            o.push(palaces[y][x]);
        }
        game.merge(&o).iter().enumerate().for_each(|(y, yv)| {
            palaces[y][x] = *yv;
        });
    }

    assert_eq!(
        vec![
            vec![4, 4, 2, 4],
            vec![0, 0, 0, 0],
            vec![0, 0, 0, 0],
            vec![0, 0, 0, 0],
        ],
        palaces
    );

    // toward the bottom of each column
    let mut palaces = vec![
        vec![0, 0, 0, 2],
        vec![4, 2, 0, 2],
        vec![0, 2, 2, 0],
        vec![0, 0, 0, 0],
    ];

    for x in 0..4 {
        let mut o = Vec::new();
        for y in 0..4 {
            o.push(palaces[4 - y - 1][x]);
        }
        game.merge(&o.into_iter().collect::<Vec<_>>())
            .iter()
            .enumerate()
            .for_each(|(y, yv)| {
                palaces[4 - y - 1][x] = *yv;
            });
    }

    assert_eq!(
        vec![
            vec![0, 0, 0, 0],
            vec![0, 0, 0, 0],
            vec![0, 0, 0, 0],
            vec![4, 4, 2, 4],
        ],
        palaces
    );
}

#[test]
fn test_merge_no_cascade_single_pair() {
    let (row, delta) = merge_row(&vec![2, 2, 2, 0]);
    assert_eq!(row, vec![4, 2, 0, 0]);
    assert_eq!(delta, 4);
}

#[test]
fn test_merge_no_cascade_two_pairs() {
    let (row, delta) = merge_row(&vec![2, 2, 2, 2]);
    assert_eq!(row, vec![4, 4, 0, 0]);
    assert_eq!(delta, 8);
}

#[test]
fn test_merge_settled_row_unchanged() {
    let (row, delta) = merge_row(&vec![4, 2, 8, 0]);
    assert_eq!(row, vec![4, 2, 8, 0]);
    assert_eq!(delta, 0);

    let (row, delta) = merge_row(&vec![2, 4, 2, 4]);
    assert_eq!(row, vec![2, 4, 2, 4]);
    assert_eq!(delta, 0);
}

#[test]
fn test_merge_compacts_across_gaps() {
    let (row, delta) = merge_row(&vec![2, 0, 0, 2]);
    assert_eq!(row, vec![4, 0, 0, 0]);
    assert_eq!(delta, 4);
}

#[test]
fn test_merge_right_by_reversal() {
    let mut game = Game::new(4, &fresh_store());
    let reversed: Vec<u128> = vec![0u128, 0, 2, 2].iter().rev().cloned().collect();
    let merged: Vec<u128> = game.merge(&reversed).iter().rev().cloned().collect();
    assert_eq!(merged, vec![0, 0, 0, 4]);
    assert_eq!(game.total_score, 4);
}

#[test]
fn test_merge_scenario_score() {
    let mut game = Game::new(4, &fresh_store());
    game.total_score = 0;
    let mut palaces = vec![
        vec![0, 0, 0, 2],
        vec![4, 2, 0, 2],
        vec![0, 2, 2, 0],
        vec![0, 0, 0, 0],
    ];
    for i in 0..4 {
        palaces[i] = game.merge(&palaces[i]);
    }
    assert_eq!(
        palaces,
        vec![
            vec![2, 0, 0, 0],
            vec![4, 4, 0, 0],
            vec![4, 0, 0, 0],
            vec![0, 0, 0, 0],
        ]
    );
    assert_eq!(game.total_score, 8);
}

#[test]
fn test_merge_conserves_sum() {
    let rows: Vec<Vec<u128>> = vec![
        vec![2, 2, 4, 8],
        vec![0, 2, 0, 2],
        vec![16, 16, 16, 16],
        vec![2, 4, 4, 2],
    ];
    for r in rows {
        let before: u128 = r.iter().sum();
        let (merged, _) = merge_row(&r);
        let after: u128 = merged.iter().sum();
        assert_eq!(before, after);
    }
}
