use minesweeper::rules::{default_randomizer, Cell, Game, GameState, OpenErr, OpenInfo, Randomizer};

// With an empty draw list every placement draw reads as zero, so mines fill
// the first free cells in row-major order, skipping the first-probed cell.
fn row_major() -> Randomizer {
    Randomizer::Draws(vec![])
}

#[test]
fn run() {
    let mut game = Game::new_with(5, 4, 10, row_major());
    assert_eq!(game.height(), 4);
    assert_eq!(game.width(), 5);
    assert_eq!(game.num_mines(), 10);
    assert_eq!(game.get_state(), GameState::New);
    assert_eq!(
        game.open(0, 2),
        Ok(OpenInfo {
            state: GameState::Playing,
            cell: Cell::Clear(2)
        })
    );
    assert_eq!(game.get_state(), GameState::Playing);
    assert_eq!(game.get_cell(0, 2), Cell::Clear(2));
    assert_eq!(game.get_cell(0, 3), Cell::Hidden);
    assert_eq!(game.open(0, 2), Err(OpenErr::AlreadyOpen));
    assert_eq!(game.open(4, 4), Err(OpenErr::OutOfBounds));
    assert_eq!(game.open(5, 3), Err(OpenErr::OutOfBounds));
    assert_eq!(
        game.open(1, 1),
        Ok(OpenInfo {
            state: GameState::Lost,
            cell: Cell::Mine
        })
    );
    assert_eq!(game.get_state(), GameState::Lost);
    assert_eq!(game.open(1, 2), Err(OpenErr::GameOver));
    assert_eq!(game.get_cell(0, 0), Cell::Mine);
    assert_eq!(game.get_cell(3, 3), Cell::Clear(0));

    // Game 2
    game.reset(3, 1, 1);
    assert_eq!(game.get_state(), GameState::New);
    assert_eq!(
        game.open(2, 0),
        Ok(OpenInfo {
            state: GameState::Playing,
            cell: Cell::Clear(0)
        })
    );
    assert_eq!(game.open(0, 1), Err(OpenErr::OutOfBounds));
    assert_eq!(
        game.open(1, 0),
        Ok(OpenInfo {
            state: GameState::Won,
            cell: Cell::Clear(1)
        })
    );

    assert_eq!(game.get_state(), GameState::Won);
    assert_eq!(game.open(1, 0), Err(OpenErr::GameOver));

    assert_eq!(
        game.get_board(),
        vec![vec![Cell::Mine, Cell::Clear(1), Cell::Clear(0)]]
    );

    game.clear();
    assert_eq!(game.get_state(), GameState::New);
}

#[test]
fn game_new() {
    Game::new(5, 4, 10);
}

#[test]
fn default_randomizer_basic() {
    let mines = default_randomizer(5, 4, 10, 0, 0);
    assert_eq!(
        mines
            .into_iter()
            .map(|v| v.into_iter().filter(|&x| x).count())
            .sum::<usize>(),
        10
    );
}

#[test]
fn randomizer_does_not_get_first() {
    for i in 0..5 {
        let mines = default_randomizer(5, 5, 24, i, i);
        assert_eq!(mines[i as usize][i as usize], false);
    }
}

// Every board the generator produces holds exactly the asked number of
// mines and leaves the first-probed cell clear, wherever that cell is.
#[test]
fn generator_exact_count_any_safe_cell() {
    for y in 0..4 {
        for x in 0..5 {
            let mines = default_randomizer(5, 4, 7, x, y);
            let count: usize = mines
                .iter()
                .map(|row| row.iter().filter(|&&c| c).count())
                .sum();
            assert_eq!(count, 7);
            assert!(!mines[y as usize][x as usize]);
        }
    }
}

// Over many boards every non-safe cell turns up as a mine with roughly
// uniform frequency: 2 mines on 8 candidate cells over 2000 rounds puts
// each cell near 500 hits.
#[test]
fn generator_roughly_uniform() {
    let trials = 2000;
    let mut hits = [[0u32; 3]; 3];
    for _ in 0..trials {
        let mines = default_randomizer(3, 3, 2, 1, 1);
        for y in 0..3 {
            for x in 0..3 {
                if mines[y][x] {
                    hits[y][x] += 1;
                }
            }
        }
    }
    assert_eq!(hits[1][1], 0);
    for y in 0..3 {
        for x in 0..3 {
            if x == 1 && y == 1 {
                continue;
            }
            assert!(hits[y][x] > 350, "cell ({x},{y}) hit only {} times", hits[y][x]);
            assert!(hits[y][x] < 650, "cell ({x},{y}) hit {} times", hits[y][x]);
        }
    }
}

// A fixed draw list reproduces the same layout every time.
#[test]
fn draws_are_reproducible() {
    let a = minesweeper::rules::generate_mines(4, 4, 3, 0, 0, &Randomizer::Draws(vec![2, 5, 0]));
    let b = minesweeper::rules::generate_mines(4, 4, 3, 0, 0, &Randomizer::Draws(vec![2, 5, 0]));
    assert_eq!(a, b);
    let count: usize = a.iter().map(|row| row.iter().filter(|&&c| c).count()).sum();
    assert_eq!(count, 3);
    assert!(!a[0][0]);
}

// The neighbour counts reported for clear cells are exact: mines fill rows
// 0 and 1 of a 5x4 board, so row 2 counts its row-1 neighbours.
#[test]
fn neighbour_counts_exact() {
    let mut game = Game::new_with(5, 4, 10, row_major());
    game.open(0, 3).unwrap();
    assert_eq!(game.open(0, 2).unwrap().cell, Cell::Clear(2));
    assert_eq!(game.open(1, 2).unwrap().cell, Cell::Clear(3));
    assert_eq!(game.open(2, 2).unwrap().cell, Cell::Clear(3));
    assert_eq!(game.open(3, 2).unwrap().cell, Cell::Clear(3));
    assert_eq!(game.open(4, 2).unwrap().cell, Cell::Clear(2));
    assert_eq!(game.get_cell(2, 3), Cell::Hidden);
}

// The first probe of a fresh game never hits a mine, wherever it lands.
#[test]
fn first_probe_is_safe() {
    for y in 0..4 {
        for x in 0..4 {
            let mut game = Game::new(4, 4, 10);
            let info = game.open(x, y).unwrap();
            assert_ne!(info.cell, Cell::Mine);
            assert_ne!(info.state, GameState::Lost);
            assert_eq!(info.state, GameState::Playing);
        }
    }
}

// With every cell but one mined, the single safe first probe wins at once.
#[test]
fn first_probe_wins_minimal_board() {
    let mut game = Game::new(2, 1, 1);
    let info = game.open(0, 0).unwrap();
    assert_eq!(info.state, GameState::Won);
    assert_eq!(info.cell, Cell::Clear(1));
    assert_eq!(game.get_cell(1, 0), Cell::Mine);
}

// Probing out of bounds is rejected in every state and changes nothing.
#[test]
fn out_of_bounds_in_every_state() {
    let mut game = Game::new_with(3, 1, 1, row_major());
    assert_eq!(game.open(3, 0), Err(OpenErr::OutOfBounds));
    assert_eq!(game.get_state(), GameState::New);
    game.open(2, 0).unwrap();
    assert_eq!(game.open(0, 1), Err(OpenErr::OutOfBounds));
    assert_eq!(game.get_state(), GameState::Playing);
    game.open(1, 0).unwrap();
    assert_eq!(game.get_state(), GameState::Won);
    assert_eq!(game.open(9, 9), Err(OpenErr::OutOfBounds));
    let mut lost = Game::new_with(3, 1, 1, row_major());
    lost.open(2, 0).unwrap();
    lost.open(0, 0).unwrap();
    assert_eq!(lost.get_state(), GameState::Lost);
    assert_eq!(lost.open(3, 0), Err(OpenErr::OutOfBounds));
}

// Swapping the randomizer keeps the rest of the game untouched.
#[test]
fn reset_randomizer_keeps_state() {
    let mut game = Game::new(5, 4, 10);
    game.open(2, 2).unwrap();
    let board = game.get_board();
    game.reset_randomizer(Randomizer::Draws(vec![1, 2, 3]));
    assert_eq!(game.get_state(), GameState::Playing);
    assert_eq!(game.get_board(), board);
}
