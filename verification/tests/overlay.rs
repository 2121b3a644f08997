use minesweeper::rules::Randomizer;
use minesweeper::rules::GameState;
use minesweeper::{Action, Cell, CustomBoard, Difficulty, Game, Settings};

fn custom(width: usize, height: usize, mines: usize) -> Settings {
    Settings {
        difficulty: Difficulty::Custom(CustomBoard::new(width, height, mines)),
    }
}

// A 3x3 board whose only mine sits in the centre: with the draw list `[3]`
// the fourth free cell (skipping the scratch-marked safe corner) is (1, 1).
fn centre_mine_3x3() -> Game {
    Game::new_with(custom(3, 3, 1), Randomizer::Draws(vec![3]))
}

#[test]
fn fresh_game_is_hidden() {
    let game = Game::new(Settings::default());
    assert_eq!(game.width(), 9);
    assert_eq!(game.height(), 9);
    assert_eq!(game.mines(), 10);
    assert_eq!(game.mines_remaining(), 10);
    assert_eq!(game.state(), GameState::New);
    for y in 0..9 {
        for x in 0..9 {
            assert_eq!(game.cell(x, y), Cell::Hidden);
        }
    }
    assert_eq!(game.board().len(), 9);
}

#[test]
fn probe_reveals_number() {
    let mut game = centre_mine_3x3();
    assert_eq!(game.open(0, 0), Ok(()));
    assert_eq!(game.state(), GameState::Playing);
    assert_eq!(game.cell(0, 0), Cell::Open(1));
    assert_eq!(game.cell(1, 0), Cell::Hidden);
    assert_eq!(game.open(0, 0), Err("cell is already open"));
    assert_eq!(game.open(3, 0), Err("invalid coordinate"));
}

// Probing a zero cell reveals the whole connected zero region plus its
// numbered border: one mine in the corner of 5x4 leaves everything else a
// single region, so the first probe wins the game outright.
#[test]
fn cascade_reveals_region() {
    // draw list [0]: the mine lands on the first free cell, (0, 0)
    let mut game = Game::new_with(custom(5, 4, 1), Randomizer::Draws(vec![0]));
    assert_eq!(game.open(4, 3), Ok(()));
    assert_eq!(game.state(), GameState::Won);
    assert_eq!(game.cell(0, 0), Cell::Mine);
    assert_eq!(game.cell(1, 0), Cell::Open(1));
    assert_eq!(game.cell(0, 1), Cell::Open(1));
    assert_eq!(game.cell(1, 1), Cell::Open(1));
    assert_eq!(game.cell(2, 0), Cell::Open(0));
    assert_eq!(game.cell(4, 3), Cell::Open(0));
}

// A cascade stops at numbered cells: two separated mine rows keep the far
// region hidden.
#[test]
fn cascade_stops_at_numbers() {
    // 5 mines fill row 0 of 5x4 (the safe cell sits in row 3)
    let mut game = Game::new_with(custom(5, 4, 5), Randomizer::Draws(vec![]));
    assert_eq!(game.open(0, 3), Ok(()));
    assert_eq!(game.state(), GameState::Won);
    for x in 0..5 {
        assert_eq!(game.cell(x, 0), Cell::Mine);
    }
    assert_eq!(game.cell(0, 1), Cell::Open(2));
    assert_eq!(game.cell(1, 1), Cell::Open(3));
    assert_eq!(game.cell(2, 2), Cell::Open(0));
}

#[test]
fn flag_toggles_and_counts() {
    let mut game = centre_mine_3x3();
    assert_eq!(game.mines_remaining(), 1);
    assert_eq!(game.flag(0, 0), Ok(()));
    assert_eq!(game.cell(0, 0), Cell::Flag);
    assert_eq!(game.mines_remaining(), 0);
    assert_eq!(game.flag(1, 0), Ok(()));
    assert_eq!(game.mines_remaining(), -1);
    assert_eq!(game.flag(0, 0), Ok(()));
    assert_eq!(game.cell(0, 0), Cell::Hidden);
    assert_eq!(game.mines_remaining(), 0);
    assert_eq!(game.flag(3, 3), Err("invalid coordinate"));
    assert_eq!(game.open(1, 0), Err("cell is flagged"));
    assert_eq!(game.open(0, 0), Ok(()));
    assert_eq!(game.flag(0, 0), Err("cell not hidden"));
}

// Chording with the right flag count opens exactly the hidden, unflagged
// neighbours; with a wrong count it rejects and changes nothing.
#[test]
fn chord_opens_hidden_neighbours() {
    let mut game = centre_mine_3x3();
    game.open(0, 0).unwrap();
    assert_eq!(game.cell(0, 0), Cell::Open(1));
    assert_eq!(game.chord(0, 0), Err("incorrect number of flags"));
    assert_eq!(game.cell(1, 0), Cell::Hidden);
    game.flag(1, 1).unwrap();
    assert_eq!(game.chord(0, 0), Ok(()));
    assert_eq!(game.cell(1, 0), Cell::Open(1));
    assert_eq!(game.cell(0, 1), Cell::Open(1));
    assert_eq!(game.cell(1, 1), Cell::Flag);
    assert_eq!(game.cell(2, 0), Cell::Hidden);
    assert_eq!(game.cell(2, 2), Cell::Hidden);
    assert_eq!(game.state(), GameState::Playing);
    assert_eq!(game.chord(2, 2), Err("cell is hidden"));
    assert_eq!(game.chord(1, 1), Err("cell is flagged"));
    assert_eq!(game.chord(9, 0), Err("invalid coordinate"));
}

// Chording trusts the flag count, not its placement: a wrong flag makes the
// chord detonate the real mine, lose the game and mark the wrong flag.
#[test]
fn chord_detonates_under_wrong_flag() {
    let mut game = centre_mine_3x3();
    game.open(0, 0).unwrap();
    game.flag(1, 0).unwrap();
    assert_eq!(game.chord(0, 0), Err("Auto-tripped on mine."));
    assert_eq!(game.state(), GameState::Lost);
    assert_eq!(game.cell(1, 1), Cell::TrippedMine);
    assert_eq!(game.cell(1, 0), Cell::FalseFlag);
    assert_eq!(game.cell(2, 2), Cell::Open(1));
}

// A flag over a real mine is shown as a confirmed mine once the game is
// won.
#[test]
fn correct_flag_confirmed_at_win() {
    let mut game = centre_mine_3x3();
    game.open(0, 0).unwrap();
    game.flag(1, 1).unwrap();
    for (x, y) in [(1, 0), (2, 0), (0, 1), (2, 1), (0, 2), (1, 2), (2, 2)] {
        game.open(x, y).unwrap();
    }
    assert_eq!(game.state(), GameState::Won);
    assert_eq!(game.cell(1, 1), Cell::Mine);
    assert_eq!(game.mines_remaining(), 0);
}

// Probing the mine directly loses, trips the cell and discloses the board.
#[test]
fn probing_mine_loses() {
    let mut game = centre_mine_3x3();
    game.open(0, 0).unwrap();
    assert_eq!(game.open(1, 1), Ok(()));
    assert_eq!(game.state(), GameState::Lost);
    assert_eq!(game.cell(1, 1), Cell::TrippedMine);
    for (x, y) in [(1, 0), (2, 0), (0, 1), (2, 1), (0, 2), (1, 2), (2, 2)] {
        assert_eq!(game.cell(x, y), Cell::Open(1));
    }
}

// Once the game is over, probing, flagging and chording are all rejected
// and the board stays as it is.
#[test]
fn game_over_rejects_everything() {
    let mut game = centre_mine_3x3();
    game.open(0, 0).unwrap();
    game.open(1, 1).unwrap();
    assert_eq!(game.state(), GameState::Lost);
    let before: Vec<Vec<Cell>> = game.board().clone();
    assert_eq!(game.open(2, 2), Err("game is over"));
    assert_eq!(game.flag(2, 2), Err("game is over"));
    assert_eq!(game.chord(0, 0), Err("game is over"));
    assert_eq!(game.action(Action::OpenOrChord(2, 2)), Err("game is over"));
    assert_eq!(game.board(), &before);
    assert_eq!(game.state(), GameState::Lost);
}

// A mine in the middle of a strip splits it into two pockets: the cascade
// opens one pocket and stops, leaving an open zero cell in a running game.
#[test]
fn zero_cells_cannot_be_chorded() {
    let mut game = Game::new_with(custom(5, 1, 1), Randomizer::Draws(vec![1]));
    game.open(0, 0).unwrap();
    assert_eq!(game.cell(0, 0), Cell::Open(0));
    assert_eq!(game.cell(1, 0), Cell::Open(1));
    assert_eq!(game.cell(3, 0), Cell::Hidden);
    assert_eq!(game.state(), GameState::Playing);
    assert_eq!(game.chord(0, 0), Err("zero cells auto-chord already"));
}

#[test]
fn reset_starts_over() {
    let mut game = centre_mine_3x3();
    game.open(0, 0).unwrap();
    game.flag(1, 1).unwrap();
    assert_eq!(game.action(Action::Reset), Ok(()));
    assert_eq!(game.state(), GameState::New);
    assert_eq!(game.mines_remaining(), 1);
    for y in 0..3 {
        for x in 0..3 {
            assert_eq!(game.cell(x, y), Cell::Hidden);
        }
    }
    assert_eq!(game.time_as_secs(), 0);
}

#[test]
fn change_settings_switches_board() {
    let mut game = Game::new(Settings::default());
    game.open(0, 0).unwrap();
    let medium = Settings {
        difficulty: Difficulty::Medium,
    };
    assert_eq!(game.action(Action::ChangeSettings(medium.clone())), Ok(()));
    assert_eq!(game.settings(), &medium);
    assert_eq!(game.width(), 16);
    assert_eq!(game.height(), 16);
    assert_eq!(game.mines(), 40);
    assert_eq!(game.mines_remaining(), 40);
    assert_eq!(game.state(), GameState::New);
    // the same settings again leave the game alone
    let mut easy = Game::new(Settings::default());
    easy.open(4, 4).unwrap();
    assert_eq!(
        easy.action(Action::ChangeSettings(Settings::default())),
        Ok(())
    );
    assert_eq!(easy.state(), GameState::Playing);
}

#[test]
fn quit_is_not_handled_here() {
    let mut game = Game::new(Settings::default());
    assert_eq!(
        game.action(Action::Quit),
        Err("Quit should be processed by the engine.")
    );
}

#[test]
fn open_or_chord_dispatches() {
    let mut game = centre_mine_3x3();
    assert_eq!(game.action(Action::OpenOrChord(0, 0)), Ok(()));
    assert_eq!(game.cell(0, 0), Cell::Open(1));
    game.flag(1, 1).unwrap();
    assert_eq!(game.action(Action::OpenOrChord(0, 0)), Ok(()));
    assert_eq!(game.cell(1, 0), Cell::Open(1));
    assert_eq!(game.action(Action::OpenOrChord(9, 9)), Err("invalid coordinate"));
}

#[test]
fn difficulty_presets() {
    assert_eq!(Difficulty::Easy.width(), 9);
    assert_eq!(Difficulty::Easy.height(), 9);
    assert_eq!(Difficulty::Easy.mines(), 10);
    assert_eq!(Difficulty::Medium.width(), 16);
    assert_eq!(Difficulty::Medium.height(), 16);
    assert_eq!(Difficulty::Medium.mines(), 40);
    assert_eq!(Difficulty::Hard.width(), 30);
    assert_eq!(Difficulty::Hard.height(), 16);
    assert_eq!(Difficulty::Hard.mines(), 99);
    let board = Difficulty::Custom(CustomBoard::new(7, 5, 6));
    assert_eq!(board.width(), 7);
    assert_eq!(board.height(), 5);
    assert_eq!(board.mines(), 6);
}

// The largest preset behaves like any other: the first probe is safe and
// shows a count of at most eight.
#[test]
fn hard_preset_first_probe() {
    let mut game = Game::new(Settings {
        difficulty: Difficulty::Hard,
    });
    game.open(15, 8).unwrap();
    assert_eq!(game.state(), GameState::Playing);
    match game.cell(15, 8) {
        Cell::Open(n) => assert!(n <= 8),
        c => panic!("unexpected cell {:?}", c),
    }
    assert_eq!(game.mines_remaining(), 99);
}

#[test]
fn default_game_uses_easy() {
    let game = Game::default();
    assert_eq!(game.settings().difficulty, Difficulty::Easy);
    assert_eq!(game.state(), GameState::New);
}
