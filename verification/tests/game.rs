use snake::field::{N2, N_POINTS};
use snake::{Direction, Game, Outcome, START};

fn interior(p: usize) -> bool {
    let row = p / N2;
    let col = p % N2;
    (1..=10).contains(&row) && (1..=10).contains(&col)
}

fn fruit_of(game: &Game) -> Vec<usize> {
    (0..N_POINTS).filter(|p| game.field().is_fruit(*p)).collect()
}

fn body_of(game: &Game) -> Vec<usize> {
    (0..N_POINTS).filter(|p| interior(*p) && game.field().get_point(*p) > 0).collect()
}

fn cells_of(game: &Game) -> Vec<i32> {
    (0..N_POINTS).map(|p| game.field().get_point(p)).collect()
}

/// A fresh game whose item lies on none of `avoid`.
fn game_without_fruit_at(avoid: &[usize]) -> Game {
    loop {
        let game = Game::new();
        if avoid.iter().all(|p| !game.field().is_fruit(*p)) {
            return game;
        }
    }
}

/// Follows the tour until the snake is at least `length` long and its head
/// has moved right along an even row, with free cells above it.
fn tour_to_open_row(game: &mut Game, length: i32) {
    loop {
        let position = game.get_position();
        if game.get_length() >= length && (position / N2) % 2 == 0 && (3..=9).contains(&(position % N2)) {
            return;
        }
        game.change_direction(tour(position));
        assert!(game.can_tick());
        assert!(matches!(game.tick(), Outcome::Ongoing(_)));
    }
}

/// The direction along a closed tour of the playable area: down the first
/// column, then back up through the other columns row by row.
fn tour(position: usize) -> Direction {
    let row = position / N2;
    let col = position % N2;
    if col == 1 {
        if row < 10 {
            Direction::Down
        } else {
            Direction::Right
        }
    } else if row % 2 == 0 {
        if col < 10 {
            Direction::Right
        } else {
            Direction::Up
        }
    } else if col > 2 || row == 1 {
        Direction::Left
    } else {
        Direction::Up
    }
}

#[test]
fn fresh_game() {
    for _ in 0..50 {
        let game = Game::new();
        assert_eq!(game.get_length(), 2);
        assert_eq!(game.get_position(), START);
        assert_eq!(game.get_position(), 6 * N2 + 6);
        assert_eq!(game.get_position(), 78);
        assert!((5..=6).contains(&(game.get_position() / N2)));
        assert!((5..=6).contains(&(game.get_position() % N2)));
        assert_eq!(game.get_direction(), Direction::Down);
        assert_eq!(game.get_score(), 0);
        assert_eq!(game.get_highscore(), 0);
        assert!(game.can_tick());
        assert_eq!(game.field().get_point(78), 2);
        let fruit = fruit_of(&game);
        assert_eq!(fruit.len(), 1);
        assert!(interior(fruit[0]));
        assert_ne!(fruit[0], 78);
        assert_eq!(body_of(&game), vec![78]);
        for p in 0..N_POINTS {
            if !interior(p) {
                assert_eq!(game.field().get_point(p), i32::MAX);
            } else if p != 78 && p != fruit[0] {
                assert_eq!(game.field().get_point(p), 0);
            }
        }
    }
}

#[test]
fn first_tick_down_without_item() {
    let mut game = game_without_fruit_at(&[90]);
    let fruit = fruit_of(&game);
    let outcome = game.tick();
    assert_eq!(outcome, Outcome::Ongoing(false));
    assert_eq!(game.get_position(), 90);
    assert_eq!(game.field().get_point(90), 2);
    assert_eq!(game.field().get_point(78), 1);
    assert_eq!(game.get_score(), 0);
    assert_eq!(game.get_length(), 2);
    assert_eq!(game.get_direction(), Direction::Down);
    assert_eq!(fruit_of(&game), fruit);
    assert_eq!(body_of(&game), vec![78, 90]);
    assert_eq!(game.field().get_point(0), i32::MAX - 1);
}

#[test]
fn second_tick_vacates_the_first_cell() {
    let mut game = game_without_fruit_at(&[90, 102]);
    assert_eq!(game.tick(), Outcome::Ongoing(false));
    assert_eq!(game.tick(), Outcome::Ongoing(false));
    assert_eq!(game.get_position(), 102);
    assert_eq!(game.field().get_point(78), 0);
    assert_eq!(game.field().get_point(90), 1);
    assert_eq!(game.field().get_point(102), 2);
    assert!(game.field().is_valid(78));
    assert_eq!(body_of(&game), vec![90, 102]);
}

#[test]
fn tail_cell_is_free_on_the_turn_it_vacates() {
    loop {
        let mut game = Game::new();
        tour_to_open_row(&mut game, 4);
        let head = game.get_position();
        let fruit = fruit_of(&game)[0];
        if game.get_length() != 4 || fruit == head - N2 || fruit == head - N2 - 1 {
            continue;
        }
        // a square of four cells: the head comes back to the cell that the
        // tail leaves on that very turn
        for d in [Direction::Up, Direction::Left] {
            game.change_direction(d);
            assert_eq!(game.tick(), Outcome::Ongoing(false));
        }
        assert_eq!(game.field().get_point(head - 1), 1);
        game.change_direction(Direction::Down);
        assert_eq!(game.tick(), Outcome::Ongoing(false));
        assert_eq!(game.get_position(), head - 1);
        assert_eq!(game.field().get_point(head - 1), 4);
        assert_eq!(body_of(&game).len(), 4);
        break;
    }
}

/// The turns that lead a fresh snake onto `fruit` without a reversal: along
/// its row first where the item lies above, down first where it lies below.
fn path_to(fruit: usize) -> Vec<Direction> {
    let rows = |from: usize, to: usize, d: Direction| vec![d; to.max(from) - to.min(from)];
    let (row, col) = (fruit / N2, fruit % N2);
    let (row0, col0) = (START / N2, START % N2);
    let sideways = if col < col0 { Direction::Left } else { Direction::Right };
    let mut path = Vec::new();
    if row > row0 {
        path.extend(rows(row0, row, Direction::Down));
        path.extend(rows(col0, col, sideways));
    } else if row == row0 {
        path.extend(rows(col0, col, sideways));
    } else if col != col0 {
        path.extend(rows(col0, col, sideways));
        path.extend(rows(row0, row, Direction::Up));
    } else {
        path.push(Direction::Left);
        path.extend(rows(row0, row, Direction::Up));
        path.push(Direction::Right);
    }
    path
}

#[test]
fn eating_the_item_grows_the_snake() {
    for _ in 0..200 {
        let mut game = Game::new();
        let fruit = fruit_of(&game)[0];
        let path = path_to(fruit);
        assert!(!path.is_empty());
        for (step, d) in path.iter().enumerate() {
            game.change_direction(*d);
            assert_eq!(game.get_direction(), *d);
            let before = cells_of(&game);
            let length = game.get_length();
            let score = game.get_score();
            assert!(game.can_tick());
            let outcome = game.tick();
            if step + 1 < path.len() {
                assert_eq!(outcome, Outcome::Ongoing(false));
                assert_eq!(game.get_length(), 2);
                assert_eq!(game.get_score(), 0);
                assert_eq!(fruit_of(&game), vec![fruit]);
            } else {
                assert_eq!(outcome, Outcome::Ongoing(true));
                assert_eq!(game.get_position(), fruit);
                assert_eq!(game.get_length(), length + 1);
                assert_eq!(game.get_length(), 3);
                assert_eq!(game.get_score(), score + 10);
                assert_eq!(game.get_score(), 10);
                assert_eq!(game.get_highscore(), 10);
                assert_eq!(game.field().get_point(fruit), 3);
                let next = fruit_of(&game);
                assert_eq!(next.len(), 1);
                assert_ne!(next[0], fruit);
                assert!(interior(next[0]));
                assert!(before[next[0]] <= 0);
                // no decay on the turn that eats
                for p in 0..N_POINTS {
                    if p != fruit && p != next[0] {
                        assert_eq!(game.field().get_point(p), before[p]);
                    }
                }
            }
        }
    }
}

#[test]
fn running_into_the_wall_ends_the_game() {
    let mut game = Game::new();
    game.change_direction(Direction::Left);
    let mut ticks = 0;
    loop {
        let before = cells_of(&game);
        let length = game.get_length();
        let score = game.get_score();
        assert!(game.can_tick());
        match game.tick() {
            Outcome::Ongoing(_) => ticks += 1,
            Outcome::Won => panic!("the grid cannot be full"),
            Outcome::Collision => {
                assert_eq!(game.get_position(), 72);
                assert_eq!(game.get_length(), length);
                assert_eq!(game.get_score(), score);
                // the grid has aged, and nothing was written
                for p in 0..N_POINTS {
                    assert_eq!(game.field().get_point(p), before[p].saturating_sub(1));
                }
                assert_eq!(game.field().get_point(72), before[72] - 1);
                assert!(!game.field().is_valid(72));
                break;
            }
        }
    }
    assert_eq!(ticks, 5);
}

#[test]
fn running_into_the_far_wall_ends_the_game() {
    let mut game = Game::new();
    let mut ticks = 0;
    loop {
        assert!(game.can_tick());
        match game.tick() {
            Outcome::Collision => break,
            Outcome::Ongoing(_) => ticks += 1,
            Outcome::Won => panic!("the grid cannot be full"),
        }
    }
    assert_eq!(ticks, 4);
    assert_eq!(game.get_position(), 11 * N2 + 6);
}

#[test]
fn wall_next_to_the_head_ends_the_game_at_once() {
    let mut game = Game::new();
    game.change_direction(Direction::Left);
    for _ in 0..5 {
        assert!(matches!(game.tick(), Outcome::Ongoing(_)));
    }
    assert_eq!(game.get_position(), 73);
    let before = cells_of(&game);
    assert_eq!(game.tick(), Outcome::Collision);
    assert_eq!(game.get_position(), 72);
    assert_eq!(cells_of(&game)[72], before[72] - 1);
    assert_eq!(cells_of(&game)[73], before[73] - 1);
}

#[test]
fn running_into_the_body_ends_the_game() {
    let mut game = Game::new();
    tour_to_open_row(&mut game, 5);
    let head = game.get_position();
    // up, left, down: back into the cell that the head left three turns ago
    for d in [Direction::Up, Direction::Left] {
        game.change_direction(d);
        assert!(matches!(game.tick(), Outcome::Ongoing(_)));
    }
    game.change_direction(Direction::Down);
    let before = cells_of(&game);
    let length = game.get_length();
    let score = game.get_score();
    assert!(before[head - 1] > 1);
    assert_eq!(game.tick(), Outcome::Collision);
    assert_eq!(game.get_position(), head - 1);
    assert_eq!(game.get_length(), length);
    assert_eq!(game.get_score(), score);
    for p in 0..N_POINTS {
        assert_eq!(game.field().get_point(p), before[p].saturating_sub(1));
    }
}

#[test]
fn change_direction_rejects_the_reversal() {
    let mut game = Game::new();
    assert_eq!(game.get_direction(), Direction::Down);
    game.change_direction(Direction::Up);
    assert_eq!(game.get_direction(), Direction::Down);
    game.change_direction(Direction::Down);
    assert_eq!(game.get_direction(), Direction::Down);
    game.change_direction(Direction::Right);
    assert_eq!(game.get_direction(), Direction::Right);
    game.change_direction(Direction::Left);
    assert_eq!(game.get_direction(), Direction::Right);
    game.change_direction(Direction::Up);
    assert_eq!(game.get_direction(), Direction::Up);
    game.change_direction(Direction::Down);
    assert_eq!(game.get_direction(), Direction::Up);
    game.change_direction(Direction::Left);
    assert_eq!(game.get_direction(), Direction::Left);
    game.change_direction(Direction::Right);
    assert_eq!(game.get_direction(), Direction::Left);
    assert_eq!(game.get_position(), 78);
    assert_eq!(game.get_length(), 2);
}

#[test]
fn carried_highscore() {
    let mut game = Game::with_highscore(500);
    assert_eq!(game.get_highscore(), 500);
    assert_eq!(game.get_score(), 0);
    assert_eq!(game.get_length(), 2);
    assert_eq!(game.get_position(), 78);
    assert_eq!(game.get_direction(), Direction::Down);
    assert_eq!(fruit_of(&game).len(), 1);
    while game.get_score() <= 500 {
        game.change_direction(tour(game.get_position()));
        assert!(game.can_tick());
        let outcome = game.tick();
        assert!(matches!(outcome, Outcome::Ongoing(_)));
        if game.get_score() <= 500 {
            assert_eq!(game.get_highscore(), 500);
        }
        if game.get_score() == 100 {
            assert_eq!(game.get_highscore(), 500);
        }
    }
    assert_eq!(game.get_score(), 510);
    assert_eq!(game.get_highscore(), 510);
}

#[test]
fn a_full_tour_wins_and_keeps_the_invariants() {
    let mut game = Game::new();
    let mut settled = false;
    let mut ticks = 0;
    loop {
        game.change_direction(tour(game.get_position()));
        assert!(game.can_tick());
        let length = game.get_length();
        let score = game.get_score();
        let outcome = game.tick();
        ticks += 1;
        assert!(ticks < 20_000);
        match outcome {
            Outcome::Collision => panic!("the tour never collides"),
            Outcome::Won => {
                assert_eq!(game.get_length(), length + 1);
                assert_eq!(game.get_score(), score + 10);
                assert_eq!(body_of(&game).len(), 100);
                assert!(fruit_of(&game).is_empty());
                break;
            }
            Outcome::Ongoing(eaten) => {
                if eaten {
                    assert_eq!(game.get_length(), length + 1);
                    assert_eq!(game.get_score(), score + 10);
                } else {
                    assert_eq!(game.get_length(), length);
                    assert_eq!(game.get_score(), score);
                    settled = true;
                }
                assert_eq!(fruit_of(&game).len(), 1);
                assert_eq!(game.field().get_point(game.get_position()), game.get_length());
                assert_eq!(game.get_score(), 10 * (game.get_length() as u32 - 2));
                let body = body_of(&game).len();
                if settled {
                    assert_eq!(body, game.get_length() as usize);
                } else {
                    assert_eq!(body, game.get_length() as usize - 1);
                }
            }
        }
    }
    assert_eq!(game.get_length(), 100);
    assert_eq!(game.get_score(), 980);
    assert_eq!(game.get_highscore(), 980);
}

#[test]
fn can_tick_until_the_head_would_leave_the_grid() {
    let mut game = Game::new();
    game.change_direction(Direction::Left);
    game.change_direction(Direction::Up);
    loop {
        assert!(game.can_tick());
        if game.tick() == Outcome::Collision {
            break;
        }
    }
    assert_eq!(game.get_position(), 6);
    assert!(!game.can_tick());

    let mut game = Game::new();
    game.change_direction(Direction::Left);
    loop {
        assert!(game.can_tick());
        if game.tick() == Outcome::Collision {
            break;
        }
    }
    assert_eq!(game.get_position(), 72);
    assert!(game.can_tick());
}

#[test]
fn default_game_is_a_fresh_game() {
    let game = Game::default();
    assert_eq!(game.get_length(), 2);
    assert_eq!(game.get_position(), 78);
    assert_eq!(game.get_direction(), Direction::Down);
    assert_eq!(game.get_score(), 0);
    assert_eq!(game.get_highscore(), 0);
    assert_eq!(fruit_of(&game).len(), 1);
    assert_eq!(body_of(&game), vec![78]);
}
