use snake_sim::game_logic::{Board, BoardFull, Direction, GameEvent, GridCell, wrap_cells};

fn count_snake_cells(b: &Board) -> usize {
    let mut n = 0;
    let mut y = 0;
    while y < 20 {
        let mut x = 0;
        while x < 30 {
            if let GridCell::Snake(_, _) = b.peek(x, y) {
                n += 1;
            }
            x += 1;
        }
        y += 1;
    }
    n
}

fn count_snake_cells_dims(b: &Board, w: usize, h: usize) -> usize {
    let mut n = 0;
    for y in 0..h {
        for x in 0..w {
            if let GridCell::Snake(_, _) = b.peek(x, y) {
                n += 1;
            }
        }
    }
    n
}

fn count_apple_cells(b: &Board, w: usize, h: usize) -> usize {
    let mut n = 0;
    for y in 0..h {
        for x in 0..w {
            if b.peek(x, y) == GridCell::Apple {
                n += 1;
            }
        }
    }
    n
}

fn snapshot_cells(b: &Board, w: usize, h: usize) -> Vec<GridCell> {
    let mut cells = Vec::new();
    for y in 0..h {
        for x in 0..w {
            cells.push(b.peek(x, y));
        }
    }
    cells
}

fn apple_index_of(b: &Board, target: (usize, usize)) -> usize {
    let empties = b.catalogue_empty_spaces();
    for (i, p) in empties.iter().enumerate() {
        if *p == target {
            return i;
        }
    }
    panic!("target cell {:?} is not empty", target);
}

#[test]
fn new_board_is_empty() {
    let b = Board::new(30);
    assert_eq!(b.query_score(), 0);
    assert!(!b.query_grace());
    assert_eq!(b.query_head_location(), None);
    for y in 0..20 {
        for x in 0..30 {
            assert_eq!(b.peek(x, y), GridCell::Nothing);
        }
    }
}

#[test]
fn wrap_cells_normalizes_each_edge() {
    assert_eq!(wrap_cells(30, 5, 30, 20), (0, 5));
    assert_eq!(wrap_cells(-1, 5, 30, 20), (29, 5));
    assert_eq!(wrap_cells(4, 20, 30, 20), (4, 0));
    assert_eq!(wrap_cells(4, -1, 30, 20), (4, 19));
    assert_eq!(wrap_cells(7, 11, 30, 20), (7, 11));
    assert_eq!(wrap_cells(-3, 25, 30, 20), (29, 0));
}

#[test]
fn generate_walls_rings_the_board() {
    let mut b = Board::new(30);
    b.generate_walls();
    for y in 0..20 {
        for x in 0..30 {
            let expect_wall = x == 0 || x == 29 || y == 0 || y == 19;
            if expect_wall {
                assert_eq!(b.peek(x, y), GridCell::Wall);
            } else {
                assert_eq!(b.peek(x, y), GridCell::Nothing);
            }
        }
    }
}

#[test]
fn catalogue_is_row_major() {
    let b = Board::new(3);
    let empties = b.catalogue_empty_spaces();
    assert_eq!(
        empties,
        vec![(0, 0), (1, 0), (2, 0), (0, 1), (1, 1), (2, 1)]
    );
}

#[test]
fn snake_spawn_is_deterministic_for_a_fixed_pick() {
    let mut b = Board::new(30);
    // pick 179 selects row-major cell (29, 5) on the empty board
    assert_eq!(b.generate_snake(179), Ok(()));
    assert_eq!(b.query_head_location(), Some((29, 5)));
    // far right of center: the heuristic faces the snake left, with the
    // whole default length but one pending as growth
    assert_eq!(b.peek(29, 5), GridCell::Snake(3, Direction::Lf));
    assert_eq!(count_snake_cells(&b), 1);
}

#[test]
fn spawn_on_full_board_reports_board_full() {
    let mut b = Board::new(3);
    // a 3x2 board is all perimeter: walls fill it completely
    b.generate_walls();
    assert_eq!(b.generate_snake(0), Err(BoardFull));
    assert_eq!(b.generate_apple(0), Err(BoardFull));
}

#[test]
fn toroidal_wraparound_moves_head_to_opposite_edge() {
    let mut b = Board::new(30);
    assert_eq!(b.generate_snake(179), Ok(()));
    assert_eq!(b.query_head_location(), Some((29, 5)));
    b.change_facing_direction(Direction::Rt);
    let e = b.do_game_tick(0);
    assert_eq!(e, GameEvent::GeneralMovement);
    // column W-1 facing right wraps to column 0, same row
    assert_eq!(b.query_head_location(), Some((0, 5)));
    assert_eq!(b.peek(0, 5), GridCell::Snake(0, Direction::Rt));
}

#[test]
fn reversal_toward_neck_is_ignored() {
    let mut b = Board::new(30);
    assert_eq!(b.generate_snake(179), Ok(()));
    b.change_facing_direction(Direction::Rt);
    b.do_game_tick(0);
    // body is now [(0,5), (29,5)]: turning left points at the neck
    b.change_facing_direction(Direction::Lf);
    assert_eq!(b.peek(0, 5), GridCell::Snake(0, Direction::Rt));
    // any other direction is accepted
    b.change_facing_direction(Direction::Up);
    assert_eq!(b.peek(0, 5), GridCell::Snake(0, Direction::Up));
}

#[test]
fn wall_collision_gives_grace_then_game_over() {
    let mut b = Board::new(30);
    b.generate_walls();
    // pick 0 selects the first interior cell (1, 1)
    assert_eq!(b.generate_snake(0), Ok(()));
    assert_eq!(b.query_head_location(), Some((1, 1)));
    b.change_facing_direction(Direction::Up);
    let before = snapshot_cells(&b, 30, 20);
    let first = b.do_game_tick(0);
    assert_eq!(first, GameEvent::GraceTick);
    assert!(b.query_grace());
    assert_eq!(b.query_head_location(), Some((1, 1)));
    assert_eq!(b.query_score(), 0);
    assert_eq!(snapshot_cells(&b, 30, 20), before);
    let second = b.do_game_tick(0);
    assert_eq!(second, GameEvent::GameOver);
    assert!(b.query_grace());
    assert_eq!(b.query_head_location(), Some((1, 1)));
    assert_eq!(snapshot_cells(&b, 30, 20), before);
    assert_eq!(count_snake_cells(&b), 1);
}

#[test]
fn grace_clears_on_a_successful_tick() {
    let mut b = Board::new(30);
    b.generate_walls();
    assert_eq!(b.generate_snake(0), Ok(()));
    b.change_facing_direction(Direction::Up);
    assert_eq!(b.do_game_tick(0), GameEvent::GraceTick);
    assert!(b.query_grace());
    b.change_facing_direction(Direction::Rt);
    assert_eq!(b.do_game_tick(0), GameEvent::GeneralMovement);
    assert!(!b.query_grace());
    assert_eq!(b.query_head_location(), Some((2, 1)));
}

#[test]
fn apple_growth_is_delayed_through_the_tail_counter() {
    let mut b = Board::new(30);
    assert_eq!(b.generate_snake(179), Ok(()));
    // consume the spawn growth: three ticks left materialize length 4
    b.change_facing_direction(Direction::Lf);
    for _ in 0..3 {
        assert_eq!(b.do_game_tick(0), GameEvent::GeneralMovement);
    }
    assert_eq!(count_snake_cells(&b), 4);
    assert_eq!(b.query_head_location(), Some((26, 5)));
    assert_eq!(b.peek(29, 5), GridCell::Snake(0, Direction::Lf));
    // an apple directly ahead; respawn far away at (0, 0)
    let apple_idx = apple_index_of(&b, (25, 5));
    assert_eq!(b.generate_apple(apple_idx), Ok(()));
    assert_eq!(b.peek(25, 5), GridCell::Apple);
    let respawn_idx = apple_index_of(&b, (0, 0));
    assert_eq!(b.do_game_tick(respawn_idx), GameEvent::AppleCollected);
    // the head grew onto the apple while the tail held: one new segment,
    // two still pending on the tail
    assert_eq!(count_snake_cells(&b), 5);
    assert_eq!(b.peek(29, 5), GridCell::Snake(2, Direction::Lf));
    assert_eq!(b.peek(0, 0), GridCell::Apple);
    // two more ticks materialize the rest of the growth
    assert_eq!(b.do_game_tick(0), GameEvent::GeneralMovement);
    assert_eq!(count_snake_cells(&b), 6);
    assert_eq!(b.do_game_tick(0), GameEvent::GeneralMovement);
    assert_eq!(count_snake_cells(&b), 7);
    assert_eq!(b.peek(29, 5), GridCell::Snake(0, Direction::Lf));
    // growth exhausted: the tail shrinks again and length stays constant
    assert_eq!(b.do_game_tick(0), GameEvent::GeneralMovement);
    assert_eq!(count_snake_cells(&b), 7);
    assert_eq!(b.peek(29, 5), GridCell::Nothing);
}

#[test]
fn apple_scores_base_increment_with_respawn_available() {
    let mut b = Board::new(30);
    assert_eq!(b.generate_snake(179), Ok(()));
    b.change_facing_direction(Direction::Lf);
    let apple_idx = apple_index_of(&b, (28, 5));
    assert_eq!(b.generate_apple(apple_idx), Ok(()));
    let respawn_idx = apple_index_of(&b, (0, 0));
    assert_eq!(b.do_game_tick(respawn_idx), GameEvent::AppleCollected);
    assert_eq!(b.query_score(), 50);
    assert_eq!(b.peek(0, 0), GridCell::Apple);
}

#[test]
fn apple_on_full_board_scores_bonus_and_leaves_no_apple() {
    // a 3x2 torus with no walls; the snake fills it cell by cell
    let mut b = Board::new(3);
    assert_eq!(b.generate_snake(0), Ok(()));
    assert_eq!(b.query_head_location(), Some((0, 0)));
    assert_eq!(b.peek(0, 0), GridCell::Snake(3, Direction::Rt));
    assert_eq!(b.do_game_tick(0), GameEvent::GeneralMovement);
    assert_eq!(b.do_game_tick(0), GameEvent::GeneralMovement);
    b.change_facing_direction(Direction::Dn);
    assert_eq!(b.do_game_tick(0), GameEvent::GeneralMovement);
    // four segments: (2,1),(2,0),(1,0),(0,0); growth exhausted
    assert_eq!(count_snake_cells_dims(&b, 3, 2), 4);
    let first_apple = apple_index_of(&b, (0, 1));
    assert_eq!(b.generate_apple(first_apple), Ok(()));
    b.change_facing_direction(Direction::Lf);
    // step onto the empty cell (1,1), releasing the tail at (0,0)
    assert_eq!(b.do_game_tick(0), GameEvent::GeneralMovement);
    assert_eq!(b.peek(0, 0), GridCell::Nothing);
    // eat the apple at (0,1): the only empty cell (0,0) takes the respawn
    assert_eq!(b.do_game_tick(0), GameEvent::AppleCollected);
    assert_eq!(b.query_score(), 50);
    assert_eq!(b.peek(0, 0), GridCell::Apple);
    // eat again with no empty cell left: bonus, and no apple remains
    b.change_facing_direction(Direction::Up);
    assert_eq!(b.do_game_tick(0), GameEvent::AppleCollected);
    assert_eq!(b.query_score(), 2550);
    assert_eq!(count_apple_cells(&b, 3, 2), 0);
    assert_eq!(count_snake_cells_dims(&b, 3, 2), 6);
}

#[test]
fn self_consumption_rotates_instead_of_colliding() {
    let mut b = Board::new(6);
    // pick 7 selects cell (1, 1) on the empty 6x4 board
    assert_eq!(b.generate_snake(7), Ok(()));
    assert_eq!(b.peek(1, 1), GridCell::Snake(3, Direction::Rt));
    assert_eq!(b.do_game_tick(0), GameEvent::GeneralMovement);
    b.change_facing_direction(Direction::Dn);
    assert_eq!(b.do_game_tick(0), GameEvent::GeneralMovement);
    b.change_facing_direction(Direction::Lf);
    assert_eq!(b.do_game_tick(0), GameEvent::GeneralMovement);
    // a closed 2x2 ring: (1,2),(2,2),(2,1),(1,1), no pending growth
    assert_eq!(count_snake_cells_dims(&b, 6, 4), 4);
    assert_eq!(b.peek(1, 1), GridCell::Snake(0, Direction::Rt));
    b.change_facing_direction(Direction::Up);
    // the head moves into the cell the tail vacates this same tick
    assert_eq!(b.do_game_tick(0), GameEvent::GeneralMovement);
    assert_eq!(b.query_head_location(), Some((1, 1)));
    assert_eq!(count_snake_cells_dims(&b, 6, 4), 4);
    for p in [(1, 1), (2, 1), (2, 2), (1, 2)] {
        assert!(matches!(b.peek(p.0, p.1), GridCell::Snake(_, _)));
    }
    assert_eq!(b.query_score(), 0);
    assert!(!b.query_grace());
}

#[test]
fn snake_collision_away_from_tail_is_a_collision() {
    let mut b = Board::new(6);
    assert_eq!(b.generate_snake(7), Ok(()));
    assert_eq!(b.do_game_tick(0), GameEvent::GeneralMovement);
    b.change_facing_direction(Direction::Dn);
    assert_eq!(b.do_game_tick(0), GameEvent::GeneralMovement);
    b.change_facing_direction(Direction::Lf);
    assert_eq!(b.do_game_tick(0), GameEvent::GeneralMovement);
    // ring as above, but feed the snake so the tail holds its cell
    let apple_idx = apple_index_of(&b, (0, 2));
    assert_eq!(b.generate_apple(apple_idx), Ok(()));
    let respawn_idx = apple_index_of(&b, (5, 0));
    assert_eq!(b.do_game_tick(respawn_idx), GameEvent::AppleCollected);
    // head now at (0,2); turning up then right walks into the body with
    // growth pending on the tail: a true collision, not self-consumption
    b.change_facing_direction(Direction::Up);
    assert_eq!(b.do_game_tick(0), GameEvent::GeneralMovement);
    b.change_facing_direction(Direction::Rt);
    assert_eq!(b.do_game_tick(0), GameEvent::GraceTick);
    assert!(b.query_grace());
    assert_eq!(b.do_game_tick(0), GameEvent::GameOver);
}

#[test]
fn score_only_increases_across_a_game() {
    let mut b = Board::new(30);
    assert_eq!(b.generate_snake(179), Ok(()));
    b.change_facing_direction(Direction::Lf);
    let mut last = b.query_score();
    let apple_idx = apple_index_of(&b, (28, 5));
    assert_eq!(b.generate_apple(apple_idx), Ok(()));
    for _ in 0..6 {
        b.do_game_tick(0);
        let s = b.query_score();
        assert!(s >= last);
        last = s;
    }
    assert_eq!(last, 50);
}
