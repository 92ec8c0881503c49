use snake_puzzle::{solution, solve, Board, Dir, Outcome, Record};

#[test]
fn parse_counts_cherries() {
    let b = Board::new("cc\nrc");
    assert_eq!(b.cherry_count(), 3);
    assert!(!b.is_complete());
}

#[test]
fn parse_keeps_every_character() {
    // A space is not special: every non-rock character of a line is a
    // cherry tile.
    let b = Board::new(" cc");
    assert_eq!(b.cherry_count(), 3);
    assert_eq!(b.starting_positions(), vec![(0, 0), (1, 0), (2, 0)]);
}

#[test]
fn parse_line_endings() {
    // CRLF line endings and a trailing newline do not add tiles or rows.
    let a = Board::new("cc\r\nrc\n");
    let b = Board::new("cc\nrc");
    assert!(a.equals(&b));
}

#[test]
fn parse_rock_is_r_everything_else_cherry() {
    let b = Board::new("r.x");
    assert_eq!(b.cherry_count(), 2);
}

#[test]
fn parse_empty_input() {
    let b = Board::new("");
    assert_eq!(b.cherry_count(), 0);
    assert!(b.is_complete());
    assert!(b.starting_positions().is_empty());
    assert_eq!(b.get_snake_head(), None);
}

#[test]
fn starting_positions_row_major() {
    let b = Board::new("cr\ncc");
    assert_eq!(b.starting_positions(), vec![(0, 0), (0, 1), (1, 1)]);
}

#[test]
fn place_snake_sets_head() {
    let b = Board::new("cc\nrc").place_snake((1, 0));
    assert_eq!(b.get_snake_head(), Some((1, 0)));
    assert_eq!(b.cherry_count(), 2);
}

#[test]
fn get_snake_head_absent_before_placement() {
    let b = Board::new("cc\nrc");
    assert_eq!(b.get_snake_head(), None);
}

#[test]
fn move_snake_chains_through_cherries() {
    let b = Board::new("ccc").place_snake((0, 0));
    let after = b.move_snake(Dir::Right);
    assert_eq!(after.get_snake_head(), Some((2, 0)));
    assert_eq!(after.cherry_count(), 0);
    assert!(after.is_complete());
}

#[test]
fn move_snake_deterministic() {
    let b = Board::new("cc\ncc").place_snake((0, 0));
    let once = b.move_snake(Dir::Down);
    let again = b.move_snake(Dir::Down);
    assert!(once.equals(&again));
}

#[test]
fn blocked_by_wall_is_noop() {
    let b = Board::new("cc\nrc").place_snake((0, 0));
    let after = b.move_snake(Dir::Left);
    assert!(after.equals(&b));
    let up = b.move_snake(Dir::Up);
    assert!(up.equals(&b));
}

#[test]
fn blocked_by_rock_is_noop() {
    let b = Board::new("cc\nrc").place_snake((0, 0));
    let after = b.move_snake(Dir::Down);
    assert!(after.equals(&b));
}

#[test]
fn blocked_by_body_is_noop() {
    let b = Board::new("ccc").place_snake((0, 0));
    let right = b.move_snake(Dir::Right);
    let back = right.move_snake(Dir::Left);
    assert!(back.equals(&right));
}

#[test]
fn moves_come_in_fixed_order() {
    let b = Board::new("cc\ncc").place_snake((0, 0));
    let ms = b.moves();
    assert_eq!(ms.len(), 4);
    assert!(ms[0].equals(&b)); // Up: blocked by the wall
    assert_eq!(ms[1].get_snake_head(), Some((0, 1))); // Down
    assert_eq!(ms[2].get_snake_head(), Some((1, 0))); // Right
    assert!(ms[3].equals(&b)); // Left: blocked by the wall
}

#[test]
fn record_deduplicates_boards() {
    let start = Board::new("cc").place_snake((0, 0));
    let mut rec = Record::new_root(start.duplicate(), (0, 0));
    assert!(rec.contains(&start));
    let m = start.move_snake(Dir::Right);
    assert!(!rec.contains(&m));
    rec.insert(m.duplicate(), &start);
    assert!(rec.contains(&m));
}

#[test]
fn solution_reconstructs_single_move() {
    let start = Board::new("cc").place_snake((0, 0));
    let mut rec = Record::new_root(start.duplicate(), (0, 0));
    let m = start.move_snake(Dir::Right);
    rec.insert(m.duplicate(), &start);
    let (pos, dirs) = solution(m, &rec);
    assert_eq!(pos, (0, 0));
    assert_eq!(dirs, vec![Dir::Right]);
}

#[test]
fn solve_single_row_minimum_is_one_move() {
    // Brute force over the 1x3 grid: no zero-move solution exists, and
    // placing at (0, 0) then sliding right clears both cherries.
    let sol = solve("ccc");
    assert_eq!(sol, Outcome::Solved(((0, 0), vec![Dir::Right])));
}

#[test]
fn solve_two_by_two_example() {
    // Row 0: two cherries; row 1: rock, cherry.  The breadth-first minimum
    // from the first viable start (0, 0) is two commands: Right, then Down.
    let sol = solve("cc\nrc");
    assert_eq!(sol, Outcome::Solved(((0, 0), vec![Dir::Right, Dir::Down])));
}

#[test]
fn solve_round_trip_replays_to_completion() {
    let input = "cc\nrc";
    let Outcome::Solved((pos, dirs)) = solve(input) else {
        panic!("expected a solution");
    };
    let mut b = Board::new(input).place_snake(pos);
    for d in dirs {
        b = b.move_snake(d);
    }
    assert_eq!(b.cherry_count(), 0);
    assert!(b.is_complete());
}

#[test]
fn solve_all_rocks_has_no_solution() {
    assert_eq!(solve("rr\nrr"), Outcome::NoSolution);
}

#[test]
fn solve_empty_input_has_no_solution() {
    assert_eq!(solve(""), Outcome::NoSolution);
}

#[test]
fn solve_single_cherry_needs_no_moves() {
    // Placing the snake consumes the cell it lands on, so a lone cherry is
    // cleared by the placement alone.
    assert_eq!(solve("rrr\nrcr\nrrr"), Outcome::Solved(((1, 1), vec![])));
}

#[test]
fn solve_separated_cherries_has_no_solution() {
    // Two cherries on one row with a rock between them: whichever one holds
    // the snake, the other can never be reached.
    assert_eq!(solve("crc"), Outcome::NoSolution);
}
