use nurimisaki_solver::board::{Board, Stat};
use nurimisaki_solver::examples::example0;
use nurimisaki_solver::square::{parse_from_puzz_link, Square};

fn blank_grid(n: usize, m: usize) -> Vec<Vec<Square>> {
    vec![vec![Square::Blank; m]; n]
}

#[test]
fn square_new_decodes_clues() {
    assert_eq!(Square::new(0), Square::Blank);
    assert_eq!(Square::new(1), Square::Number(1));
    assert_eq!(Square::new(7), Square::Number(7));
}

#[test]
fn example0_matches_the_sample_puzzle() {
    let grid = example0();
    assert_eq!(grid.len(), 5);
    for row in &grid {
        assert_eq!(row.len(), 5);
    }
    assert_eq!(grid[0][0], Square::Number(3));
    assert_eq!(grid[0][2], Square::Number(1));
    assert_eq!(grid[1][3], Square::Number(4));
    assert_eq!(grid[2][0], Square::Number(4));
    assert_eq!(grid[4][4], Square::Number(4));
    assert_eq!(grid[3][3], Square::Blank);
}

#[test]
fn new_board_marks_capes_white() {
    let board = Board::new(&example0());
    assert_eq!(board.num_rows(), 5);
    assert_eq!(board.num_cols(), 5);
    assert!(board.white_at(0, 0));
    assert!(board.white_at(1, 3));
    assert!(!board.white_at(0, 1));
    for i in 0..5 {
        for j in 0..5 {
            assert!(!board.black_at(i, j));
        }
    }
}

#[test]
fn cape_distance_rule_rejects_blocked_arm() {
    // A 1x3 row with a cape of distance 2 at the left; forcing the middle
    // cell black leaves the cape no viable arm direction.
    let mut grid = blank_grid(1, 3);
    grid[0][0] = Square::Number(2);
    let mut board = Board::new(&grid);
    board.set_black(0, 1);
    assert!(board.check_color_of_capes().is_ok());
    assert!(board.check_capes().is_ok());
    assert!(board.check_2x2().is_ok());
    assert!(board.check_connected().is_ok());
    assert!(board.check_cape_numbers().is_err());
    assert!(board.contradicts().is_err());
}

#[test]
fn two_by_two_black_block_rejected() {
    let grid = blank_grid(2, 2);
    let mut board = Board::new(&grid);
    for i in 0..2 {
        for j in 0..2 {
            board.set_black(i, j);
        }
    }
    assert!(board.check_color_of_capes().is_ok());
    assert!(board.check_capes().is_ok());
    assert!(board.check_cape_numbers().is_ok());
    assert!(board.check_connected().is_ok());
    assert!(board.check_2x2().is_err());
    assert!(board.contradicts().is_err());
}

#[test]
fn disconnected_white_islands_rejected() {
    let grid = blank_grid(1, 3);
    let mut board = Board::new(&grid);
    board.set_white(0, 0);
    board.set_black(0, 1);
    board.set_white(0, 2);
    assert!(board.check_color_of_capes().is_ok());
    assert!(board.check_capes().is_ok());
    assert!(board.check_2x2().is_ok());
    assert!(board.check_cape_numbers().is_ok());
    assert!(board.check_connected().is_err());
    assert!(board.contradicts().is_err());
}

#[test]
fn cape_with_two_white_neighbors_rejected() {
    let mut grid = blank_grid(1, 3);
    grid[0][1] = Square::Number(1);
    let mut board = Board::new(&grid);
    board.set_white(0, 0);
    board.set_white(0, 2);
    assert!(board.check_color_of_capes().is_ok());
    assert!(board.check_2x2().is_ok());
    assert!(board.check_cape_numbers().is_ok());
    assert!(board.check_connected().is_ok());
    assert!(board.check_capes().is_err());
    assert!(board.contradicts().is_err());
}

#[test]
fn cape_color_rule_holds_under_safe_mutation() {
    // The mutators refuse to blacken a white cell, and capes start white,
    // so the clue color rule keeps passing however the blanks are colored.
    let mut grid = blank_grid(2, 2);
    grid[1][1] = Square::Number(1);
    let mut board = Board::new(&grid);
    assert!(board.check_color_of_capes().is_ok());
    board.set_black(0, 0);
    assert!(board.check_color_of_capes().is_ok());
    assert!(board.contradicts().is_ok());
}

#[test]
fn consistency_check_is_idempotent() {
    let mut board = Board::new(&example0());
    let first = board.contradicts().is_ok();
    let second = board.contradicts().is_ok();
    assert_eq!(first, second);
    board.set_black(1, 1);
    let third = board.contradicts().is_ok();
    let fourth = board.contradicts().is_ok();
    assert_eq!(third, fourth);
}

#[test]
fn one_cell_cape_solves_immediately() {
    let grid = vec![vec![Square::Number(1)]];
    let mut board = Board::new(&grid);
    assert!(board.finished());
    let mut stat = Stat::default();
    assert!(board.search(&mut stat));
    assert!(board.white_at(0, 0));
    assert!(!board.black_at(0, 0));
    assert_eq!(stat.num_call, 1);
}

#[test]
fn failed_search_restores_the_board() {
    // Four plain capes in a 2x2 grid are all white at once: the 2x2 rule
    // rejects every completion, so the search fails and undoes everything.
    let mut grid = blank_grid(2, 2);
    for i in 0..2 {
        for j in 0..2 {
            grid[i][j] = Square::Number(1);
        }
    }
    let mut board = Board::new(&grid);
    let mut stat = Stat::default();
    assert!(!board.search(&mut stat));
    for i in 0..2 {
        for j in 0..2 {
            assert!(board.white_at(i, j));
            assert!(!board.black_at(i, j));
        }
    }
}

#[test]
fn tiny_solvable_board_is_solved() {
    let mut grid = blank_grid(1, 2);
    grid[0][0] = Square::Number(1);
    let mut board = Board::new(&grid);
    let mut stat = Stat::default();
    assert!(board.search(&mut stat));
    assert!(board.finished());
}

#[test]
fn sample_puzzle_solves_end_to_end() {
    let mut board = Board::new(&example0());
    let mut stat = Stat::default();
    assert!(board.search(&mut stat));
    // Soundness, rechecked at runtime: the returned board passes all five
    // rules and carries exactly one color per cell.
    assert!(board.finished());
    assert!(board.contradicts().is_ok());
    for i in 0..5 {
        for j in 0..5 {
            assert_ne!(board.white_at(i, j), board.black_at(i, j));
        }
    }
    // Every cape ended up white.
    assert!(board.white_at(0, 0));
    assert!(board.white_at(0, 2));
    assert!(board.white_at(1, 3));
    assert!(board.white_at(2, 0));
    assert!(board.white_at(4, 4));
    assert!(stat.num_call >= 1);
}

#[test]
fn render_shows_colors_and_clue_glyphs() {
    let mut grid = blank_grid(1, 3);
    grid[0][0] = Square::Number(2);
    let mut board = Board::new(&grid);
    board.set_black(0, 1);
    assert_eq!(board.render(), "2*_\n");
    let plain = Board::new(&vec![vec![Square::Number(1)]]);
    assert_eq!(plain.render(), "O\n");
    let mut wide = blank_grid(1, 1);
    wide[0][0] = Square::Number(12);
    let wide_board = Board::new(&wide);
    assert_eq!(wide_board.render(), "12\n");
}

#[test]
fn render_marks_white_cells() {
    let grid = blank_grid(2, 2);
    let mut board = Board::new(&grid);
    board.set_white(0, 0);
    board.set_black(1, 1);
    assert_eq!(board.render(), "._\n_*\n");
}

#[test]
fn parse_decodes_a_puzzle_description() {
    let grid = parse_from_puzz_link("https://puzz.link/p?nurimisaki/6/6/4j6l.o.j2h4i.g").unwrap();
    assert_eq!(grid.len(), 6);
    for row in &grid {
        assert_eq!(row.len(), 6);
    }
    assert_eq!(grid[0][0], Square::Number(4));
    assert_eq!(grid[0][5], Square::Number(6));
    assert_eq!(grid[2][0], Square::Number(1));
    assert_eq!(grid[3][4], Square::Number(1));
    assert_eq!(grid[4][3], Square::Number(2));
    assert_eq!(grid[5][0], Square::Number(4));
    assert_eq!(grid[5][5], Square::Blank);
}

#[test]
fn parse_accepts_the_edit_form_and_two_digit_clues() {
    let grid = parse_from_puzz_link("https://puzz.link/p?nurimisaki_edit/1/1/-10").unwrap();
    assert_eq!(grid.len(), 1);
    assert_eq!(grid[0].len(), 1);
    assert_eq!(grid[0][0], Square::Number(16));
}

#[test]
fn parse_rejects_malformed_descriptions() {
    // Wrong scheme or puzzle name.
    assert!(parse_from_puzz_link("https://puzz.link/p?nurikabe/2/2/zz").is_none());
    // Too few fields.
    assert!(parse_from_puzz_link("https://puzz.link/p?nurimisaki/2/g").is_none());
    // Cell data does not fill the grid.
    assert!(parse_from_puzz_link("https://puzz.link/p?nurimisaki/2/2/g").is_none());
    // An unknown character in the cell data.
    assert!(parse_from_puzz_link("https://puzz.link/p?nurimisaki/1/1/!").is_none());
    // Dimensions that are not numbers.
    assert!(parse_from_puzz_link("https://puzz.link/p?nurimisaki/x/2/gg").is_none());
    // A grid over the size cap.
    assert!(parse_from_puzz_link("https://puzz.link/p?nurimisaki/100/100/g").is_none());
}

#[test]
fn solutions_of_the_sample_puzzle_coincide() {
    // Nurimisaki puzzles are well-posed: two independent solves of the same
    // instance must agree cell by cell.
    let mut first = Board::new(&example0());
    let mut second = Board::new(&example0());
    let mut stat = Stat::default();
    assert!(first.search(&mut stat));
    assert!(second.search(&mut stat));
    for i in 0..5 {
        for j in 0..5 {
            assert_eq!(first.white_at(i, j), second.white_at(i, j));
            assert_eq!(first.black_at(i, j), second.black_at(i, j));
        }
    }
}
