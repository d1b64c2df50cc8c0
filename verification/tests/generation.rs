use tetromino::Error;
use tetromino::Game;
use tetromino::ShapeWalk;
use tetromino::Tetromino;
use tetromino::DOWN;
use tetromino::LEFT;
use tetromino::MAX;
use tetromino::MIN;
use tetromino::RIGHT;
use tetromino::UP;

fn picture(p: &Tetromino) -> Vec<String> {
    let w = p.width() as usize;
    let h = p.height() as usize;
    (0..h)
        .map(|y| (0..w).map(|x| if p.test_pos(x + y * w) { '#' } else { '.' }).collect())
        .collect()
}

fn set_cells(p: &Tetromino) -> usize {
    let n = p.width() as usize * p.height() as usize;
    (0..n).filter(|i| p.test_pos(*i)).count()
}

#[test]
fn level_bounds() {
    assert_eq!(MIN, 1);
    assert_eq!(MAX, 8);
}

#[test]
fn level_zero_and_nine_are_invalid() {
    let g = Game::new(10, 10);
    assert_eq!(g.rnd_tetrino(0, &vec![]).unwrap_err(), Error::InvalidLevel);
    assert_eq!(g.rnd_tetrino(9, &vec![]).unwrap_err(), Error::InvalidLevel);
    assert_eq!(g.rnd_tetrino(255, &vec![RIGHT; 20]).unwrap_err(), Error::InvalidLevel);
    assert_eq!(ShapeWalk::start(0, 10, 10).unwrap_err(), Error::InvalidLevel);
    assert_eq!(ShapeWalk::start(9, 10, 10).unwrap_err(), Error::InvalidLevel);
    assert!(ShapeWalk::start(1, 10, 10).is_ok());
    assert!(ShapeWalk::start(8, 10, 10).is_ok());
}

#[test]
fn level_one_needs_no_draw() {
    let g = Game::new(4, 4);
    let p = g.rnd_tetrino(1, &vec![]).unwrap().unwrap();
    assert_eq!(p.level(), 1);
    assert_eq!(p.width(), 1);
    assert_eq!(p.height(), 1);
    assert!(p.test_pos(0));
}

#[test]
fn walk_draws_the_piece() {
    let g = Game::new(8, 8);
    // right, down, down, left: an S-like piece of 5 cells
    let p = g.rnd_tetrino(5, &vec![RIGHT, DOWN, DOWN, LEFT]).unwrap().unwrap();
    assert_eq!(p.level(), 5);
    assert_eq!(picture(&p), vec!["##", ".#", "##"]);
    assert_eq!(set_cells(&p), 5);
}

#[test]
fn every_level_gives_that_many_cells() {
    let g = Game::new(8, 8);
    for lvl in 1..=8u8 {
        // a staircase: right and down in turn
        let mut dirs = Vec::new();
        for i in 0..7 {
            dirs.push(if i % 2 == 0 { RIGHT } else { DOWN });
        }
        let p = g.rnd_tetrino(lvl, &dirs).unwrap().unwrap();
        assert_eq!(set_cells(&p), lvl as usize);
        assert!(p.width() <= lvl);
        assert!(p.height() <= lvl);
        assert_eq!(p.level(), lvl);
    }
}

#[test]
fn draws_that_run_out_give_no_piece() {
    let g = Game::new(8, 8);
    assert!(g.rnd_tetrino(3, &vec![]).unwrap().is_none());
    assert!(g.rnd_tetrino(3, &vec![RIGHT]).unwrap().is_none());
    assert!(g.rnd_tetrino(3, &vec![RIGHT, LEFT, RIGHT, LEFT]).unwrap().is_none());
    assert!(g.rnd_tetrino(3, &vec![RIGHT, RIGHT]).unwrap().is_some());
}

#[test]
fn draws_after_the_last_cell_are_not_looked_at() {
    let g = Game::new(8, 8);
    let p = g.rnd_tetrino(2, &vec![DOWN, RIGHT, RIGHT, DOWN, 9, 200]).unwrap().unwrap();
    assert_eq!(picture(&p), vec!["#", "#"]);
}

#[test]
fn refused_moves_and_unknown_directions_change_nothing() {
    let mut w = ShapeWalk::start(3, 8, 8).unwrap();
    assert!(!w.is_complete());
    assert!(!w.step(UP));
    assert!(!w.step(LEFT));
    assert!(!w.step(4));
    assert!(!w.step(255));
    assert!(w.step(RIGHT));
    assert!(w.step(RIGHT));
    assert!(w.is_complete());
    // complete: nothing more is taken
    assert!(!w.step(DOWN));
    let p = w.into_shape();
    assert_eq!(picture(&p), vec!["###"]);
}

#[test]
fn walk_stays_inside_the_work_area() {
    // level 2: the work area is 2 by 2
    let mut w = ShapeWalk::start(2, 8, 8).unwrap();
    assert!(w.step(RIGHT));
    assert!(w.is_complete());
    let mut w = ShapeWalk::start(3, 8, 8).unwrap();
    assert!(w.step(DOWN));
    assert!(w.step(DOWN));
    assert!(w.is_complete());
    let mut w = ShapeWalk::start(4, 8, 8).unwrap();
    assert!(w.step(DOWN));
    assert!(w.step(UP));
    assert!(w.step(DOWN));
    assert!(w.step(DOWN));
    assert!(w.step(DOWN));
    assert!(w.is_complete());
    assert!(!w.step(DOWN));
    let p = w.into_shape();
    assert_eq!(picture(&p), vec!["#", "#", "#", "#"]);
}

#[test]
fn last_row_is_held_against_the_width() {
    // board 1 wide and 8 high, level 3: the work area is 1 wide and 3 high,
    // so no move down is taken (the last row is row 0) and the walk can go
    // right up to column 2, which lies outside the one column there is
    let mut w = ShapeWalk::start(3, 1, 8).unwrap();
    assert!(!w.step(DOWN));
    assert!(w.step(RIGHT));
    assert!(w.step(RIGHT));
    assert!(!w.step(RIGHT));
    assert!(w.is_complete());
    let p = w.into_shape();
    assert_eq!(picture(&p), vec!["###"]);
}

#[test]
fn cells_outside_the_work_area_are_not_marked() {
    // board 3 wide and 1 high, level 3: the work area is 3 wide and 1 high;
    // rows 1 and 2 can be walked to but hold no cell
    let mut w = ShapeWalk::start(3, 3, 1).unwrap();
    assert!(!w.step(RIGHT));
    assert!(w.step(DOWN));
    assert!(w.step(DOWN));
    assert!(!w.step(DOWN));
    assert!(!w.is_complete());
    let p = w.into_shape();
    assert_eq!(picture(&p), vec!["#", ".", "."]);
}

#[test]
fn walk_on_a_board_without_cells_marks_nothing() {
    let mut w = ShapeWalk::start(2, 0, 0).unwrap();
    assert!(!w.is_complete());
    assert!(!w.step(RIGHT));
    assert!(!w.step(DOWN));
    assert!(!w.step(LEFT));
    assert!(!w.step(UP));
    let p = w.into_shape();
    assert_eq!(picture(&p), vec!["."]);
}

#[test]
fn revisited_cell_counts_once() {
    let g = Game::new(8, 8);
    let dirs = vec![RIGHT, LEFT, RIGHT, LEFT, DOWN];
    let p = g.rnd_tetrino(3, &dirs).unwrap().unwrap();
    assert_eq!(picture(&p), vec!["##", "#."]);
    assert_eq!(set_cells(&p), 3);
}

#[test]
fn generated_piece_can_be_placed() {
    let mut g = Game::new(4, 4);
    let p = g.rnd_tetrino(4, &vec![RIGHT, DOWN, RIGHT]).unwrap().unwrap();
    assert_eq!(picture(&p), vec!["##.", ".##"]);
    assert_eq!(g.put_tetrino(p, 0), Ok(true));
    assert_eq!(g.render(), "AA  \n AA \n    \n    \n");
    let q = g.rnd_tetrino(4, &vec![RIGHT, DOWN, RIGHT]).unwrap().unwrap();
    // after one quarter turn the piece is ".#" over "##" over "#."; its
    // first fit is at the end of the top row, from where its rows run on
    // into the rows below
    assert_eq!(g.put_tetrino(q, 1), Ok(true));
    assert_eq!(g.render(), "AA  \nBAAB\nB  B\n    \n");
}

/// A fixed sequence of draws: a linear congruential generator with a seed.
struct Draws(u64);

impl Draws {
    fn next(&mut self) -> u8 {
        self.0 = self.0.wrapping_mul(6364136223846793005).wrapping_add(1442695040888963407);
        ((self.0 >> 33) % 4) as u8
    }
}

fn is_connected(p: &Tetromino) -> bool {
    let w = p.width() as usize;
    let h = p.height() as usize;
    let total = (0..w * h).filter(|i| p.test_pos(*i)).count();
    let start = match (0..w * h).find(|i| p.test_pos(*i)) {
        Some(i) => i,
        None => return true,
    };
    let mut seen = vec![false; w * h];
    let mut stack = vec![start];
    seen[start] = true;
    let mut reached = 0;
    while let Some(i) = stack.pop() {
        reached += 1;
        let (x, y) = (i % w, i / w);
        let mut next = Vec::new();
        if x > 0 {
            next.push(i - 1);
        }
        if x + 1 < w {
            next.push(i + 1);
        }
        if y > 0 {
            next.push(i - w);
        }
        if y + 1 < h {
            next.push(i + w);
        }
        for n in next {
            if p.test_pos(n) && !seen[n] {
                seen[n] = true;
                stack.push(n);
            }
        }
    }
    reached == total
}

#[test]
fn stepped_walks_give_connected_pieces_of_the_level() {
    for seed in 0..200u64 {
        for lvl in 1..=8u8 {
            let mut draws = Draws(seed * 8 + lvl as u64);
            let mut w = ShapeWalk::start(lvl, 8, 10).unwrap();
            let mut taken = 0;
            while !w.is_complete() {
                w.step(draws.next());
                taken += 1;
                assert!(taken < 100_000);
            }
            let p = w.into_shape();
            assert_eq!(set_cells(&p), lvl as usize);
            assert!(p.width() <= lvl);
            assert!(p.height() <= lvl);
            assert!(p.test_pos(0));
            assert!(is_connected(&p));
        }
    }
}

#[test]
fn stepping_and_drawing_from_a_list_agree() {
    let g = Game::new(9, 9);
    for seed in 0..50u64 {
        let mut draws = Draws(seed);
        let dirs: Vec<u8> = (0..40).map(|_| draws.next()).collect();
        let mut w = ShapeWalk::start(6, g.width(), g.height()).unwrap();
        for d in &dirs {
            w.step(*d);
        }
        let made = g.rnd_tetrino(6, &dirs).unwrap();
        assert_eq!(made.is_some(), w.is_complete());
        if let Some(p) = made {
            let q = w.into_shape();
            assert_eq!(picture(&p), picture(&q));
        }
    }
}

#[test]
fn work_area_is_cut_to_the_board() {
    // level 8 on a board of 3 by 3: the work area is 3 by 3
    let mut w = ShapeWalk::start(8, 3, 3).unwrap();
    assert!(w.step(RIGHT));
    assert!(w.step(RIGHT));
    assert!(!w.step(RIGHT));
    assert!(w.step(DOWN));
    assert!(w.step(DOWN));
    assert!(!w.step(DOWN));
    assert!(w.step(LEFT));
    assert!(w.step(LEFT));
    assert!(!w.step(LEFT));
    assert!(!w.is_complete());
    assert!(w.step(UP));
    // the eighth cell: the walk is complete and takes no more draws
    assert!(w.is_complete());
    assert!(!w.step(RIGHT));
    let p = w.into_shape();
    assert_eq!(picture(&p), vec!["###", "#.#", "###"]);
}

#[test]
fn level_within_reach() {
    // wide and high enough for the level
    assert!(ShapeWalk::start(8, 8, 8).unwrap().can_complete());
    assert!(ShapeWalk::start(1, 1, 1).unwrap().can_complete());
    // 3 by 3 cells for level 8 and for level 9 cells short
    assert!(ShapeWalk::start(8, 3, 3).unwrap().can_complete());
    assert!(!ShapeWalk::start(5, 2, 2).unwrap().can_complete());
    assert!(ShapeWalk::start(4, 2, 2).unwrap().can_complete());
    // no cells at all
    assert!(!ShapeWalk::start(1, 0, 0).unwrap().can_complete());
    assert!(!ShapeWalk::start(1, 0, 5).unwrap().can_complete());
    assert!(!ShapeWalk::start(1, 5, 0).unwrap().can_complete());
    // wider than high: only a square of the height can be marked
    assert!(!ShapeWalk::start(2, 8, 1).unwrap().can_complete());
    assert!(ShapeWalk::start(4, 8, 2).unwrap().can_complete());
    assert!(!ShapeWalk::start(5, 8, 2).unwrap().can_complete());
    // higher than wide: the indices up to the last column of the last row
    assert!(ShapeWalk::start(8, 1, 8).unwrap().can_complete());
    assert!(ShapeWalk::start(6, 2, 4).unwrap().can_complete());
    assert!(!ShapeWalk::start(7, 2, 4).unwrap().can_complete());
    assert!(!ShapeWalk::start(8, 1, 2).unwrap().can_complete());
}

#[test]
fn walk_within_reach_completes_and_walk_beyond_it_does_not() {
    for (lvl, w, h) in [
        (8u8, 8u8, 8u8),
        (8, 3, 3),
        (5, 2, 2),
        (2, 8, 1),
        (4, 8, 2),
        (5, 8, 2),
        (8, 1, 8),
        (6, 2, 4),
        (7, 2, 4),
        (1, 0, 3),
    ] {
        let mut walk = ShapeWalk::start(lvl, w, h).unwrap();
        let can = walk.can_complete();
        let mut draws = Draws(7 + lvl as u64 * 31 + w as u64 * 5 + h as u64);
        for _ in 0..20_000 {
            walk.step(draws.next());
        }
        assert_eq!(walk.is_complete(), can, "level {lvl} on {w} by {h}");
    }
}
