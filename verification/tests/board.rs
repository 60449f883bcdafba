use minefield::minefield::{Board, Cover, Mark, Object, Params};

fn count_mines(b: &Board) -> usize {
    let (w, h) = b.dims();
    let mut n = 0;
    for y in 0..h {
        for x in 0..w {
            if matches!(b.tile(x, y).object(), Object::Mine) {
                n += 1;
            }
        }
    }
    n
}

#[test]
fn fresh_board_is_covered_and_undecided() {
    let b = Board::new(Params { width: 5, height: 4, mines: 3 });
    assert!(!b.is_victory());
    assert!(!b.is_defeat());
    let (w, h) = b.dims();
    assert_eq!((w, h), (5, 4));
    for y in 0..h {
        for x in 0..w {
            assert!(matches!(b.tile(x, y).cover(), Cover::Up(Mark::Clear)));
            assert!(matches!(b.tile(x, y).object(), Object::Blank));
        }
    }
}

#[test]
fn presets_have_their_dimensions() {
    assert_eq!(Board::beginner().dims(), (8, 8));
    assert_eq!(Board::intermediate().dims(), (16, 16));
    assert_eq!(Board::expert().dims(), (30, 16));
    assert!(!Board::beginner().is_victory());
    assert!(!Board::expert().is_defeat());
}

#[test]
fn mark_cycle_is_a_three_cycle() {
    let mut b = Board::beginner();
    b.handle_mark(2, 3);
    assert!(matches!(b.tile(2, 3).cover(), Cover::Up(Mark::Flag)));
    b.handle_mark(2, 3);
    assert!(matches!(b.tile(2, 3).cover(), Cover::Up(Mark::Unsure)));
    b.handle_mark(2, 3);
    assert!(matches!(b.tile(2, 3).cover(), Cover::Up(Mark::Clear)));
}

#[test]
fn flag_blocks_uncover() {
    let mut b = Board::new(Params { width: 3, height: 3, mines: 1 });
    b.place_at(&vec![8]);
    b.handle_mark(0, 0);
    assert!(matches!(b.tile(0, 0).cover(), Cover::Up(Mark::Flag)));
    b.handle_uncover(0, 0);
    assert!(matches!(b.tile(0, 0).cover(), Cover::Up(Mark::Flag)));
    assert!(!b.is_defeat());
    assert!(!b.is_victory());
}

#[test]
fn first_uncover_is_never_a_mine() {
    let mut b = Board::beginner();
    b.handle_uncover(3, 3);
    assert!(!matches!(b.tile(3, 3).object(), Object::Mine));
    assert!(!b.is_defeat());
    assert!(matches!(b.tile(3, 3).cover(), Cover::Down));
}

#[test]
fn placement_scatters_exactly_the_mine_count() {
    let mut b = Board::beginner();
    b.handle_uncover(0, 0);
    assert_eq!(count_mines(&b), 10);
}

#[test]
fn hints_count_adjacent_mines_exactly() {
    let mut b = Board::new(Params { width: 3, height: 3, mines: 1 });
    b.place_at(&vec![8]); // the mine sits at (2, 2)
    assert_eq!(count_mines(&b), 1);
    assert!(matches!(b.tile(2, 2).object(), Object::Mine));
    assert!(matches!(b.tile(1, 1).object(), Object::Hint(1)));
    assert!(matches!(b.tile(2, 1).object(), Object::Hint(1)));
    assert!(matches!(b.tile(1, 2).object(), Object::Hint(1)));
    assert!(matches!(b.tile(0, 0).object(), Object::Blank));
    assert!(matches!(b.tile(1, 0).object(), Object::Blank));
    assert!(matches!(b.tile(2, 0).object(), Object::Blank));
    assert!(matches!(b.tile(0, 1).object(), Object::Blank));
    assert!(matches!(b.tile(0, 2).object(), Object::Blank));
}

#[test]
fn hints_count_two_mines() {
    let mut b = Board::new(Params { width: 4, height: 1, mines: 2 });
    b.place_at(&vec![0, 2]); // mines at (0, 0) and (2, 0)
    assert!(matches!(b.tile(1, 0).object(), Object::Hint(2)));
    assert!(matches!(b.tile(3, 0).object(), Object::Hint(1)));
}

#[test]
fn flood_reveals_blank_region_bounded_by_hints() {
    let mut b = Board::new(Params { width: 3, height: 3, mines: 1 });
    b.place_at(&vec![8]); // the mine sits at (2, 2)
    b.handle_uncover(0, 0);
    for y in 0..3 {
        for x in 0..3 {
            if (x, y) == (2, 2) {
                assert!(matches!(b.tile(x, y).cover(), Cover::Up(Mark::Clear)));
            } else {
                assert!(matches!(b.tile(x, y).cover(), Cover::Down));
            }
        }
    }
    // the hint boundary is revealed but the mine stays covered
    assert!(matches!(b.tile(1, 1).object(), Object::Hint(1)));
    assert!(b.is_victory());
    assert!(!b.is_defeat());
}

#[test]
fn uncovering_a_mine_is_permanent_defeat() {
    let mut b = Board::new(Params { width: 3, height: 3, mines: 1 });
    b.place_at(&vec![4]); // the mine sits at (1, 1)
    b.handle_uncover(1, 1);
    assert!(b.is_defeat());
    assert!(!b.is_victory());
    // further uncovers are rejected in the terminal state
    b.handle_uncover(0, 0);
    assert!(matches!(b.tile(0, 0).cover(), Cover::Up(Mark::Clear)));
    assert!(b.is_defeat());
    assert!(!b.is_victory());
}

#[test]
fn victory_when_every_non_mine_tile_is_down() {
    let mut b = Board::new(Params { width: 8, height: 8, mines: 10 });
    let mines: Vec<usize> = (0..10).collect();
    b.place_at(&mines);
    for y in 0..8 {
        for x in 0..8 {
            let idx = y * 8 + x;
            if idx >= 10 {
                b.handle_uncover(x, y);
            }
        }
    }
    assert!(b.is_victory());
    assert!(!b.is_defeat());
    // every mine is still covered
    for idx in 0..10 {
        assert!(matches!(b.tile(idx % 8, idx / 8).cover(), Cover::Up(_)));
    }
}

#[test]
fn no_victory_while_a_safe_tile_is_covered() {
    let mut b = Board::new(Params { width: 2, height: 2, mines: 1 });
    b.place_at(&vec![3]);
    b.handle_uncover(0, 0);
    assert!(!b.is_victory());
    b.handle_uncover(1, 0);
    assert!(!b.is_victory());
    b.handle_uncover(0, 1);
    assert!(b.is_victory());
}

#[test]
fn single_safe_tile_wins_at_once() {
    let mut b = Board::new(Params { width: 1, height: 1, mines: 0 });
    b.handle_uncover(0, 0);
    assert!(b.is_victory());
    assert!(!b.is_defeat());
}

#[test]
fn marking_a_revealed_tile_does_nothing() {
    let mut b = Board::new(Params { width: 3, height: 3, mines: 1 });
    b.place_at(&vec![8]);
    b.handle_uncover(0, 1);
    assert!(matches!(b.tile(0, 1).cover(), Cover::Down));
    b.handle_mark(0, 1);
    assert!(matches!(b.tile(0, 1).cover(), Cover::Down));
}

#[test]
fn unsure_mark_does_not_block_uncover() {
    let mut b = Board::new(Params { width: 3, height: 3, mines: 1 });
    b.place_at(&vec![8]);
    b.handle_mark(0, 0);
    b.handle_mark(0, 0);
    assert!(matches!(b.tile(0, 0).cover(), Cover::Up(Mark::Unsure)));
    b.handle_uncover(0, 0);
    assert!(matches!(b.tile(0, 0).cover(), Cover::Down));
}

#[test]
fn random_placement_respects_hint_rule() {
    let mut b = Board::beginner();
    b.handle_uncover(4, 4);
    let (w, h) = b.dims();
    for y in 0..h {
        for x in 0..w {
            if matches!(b.tile(x, y).object(), Object::Mine) {
                continue;
            }
            let mut n: u8 = 0;
            for dy in -1i32..=1 {
                for dx in -1i32..=1 {
                    if (dx, dy) == (0, 0) {
                        continue;
                    }
                    let nx = x as i32 + dx;
                    let ny = y as i32 + dy;
                    if nx >= 0 && ny >= 0 && (nx as usize) < w && (ny as usize) < h {
                        if matches!(b.tile(nx as usize, ny as usize).object(), Object::Mine) {
                            n += 1;
                        }
                    }
                }
            }
            match b.tile(x, y).object() {
                Object::Blank => assert_eq!(n, 0),
                Object::Hint(k) => assert_eq!(n, k),
                Object::Mine => unreachable!(),
            }
        }
    }
}

#[test]
fn hint_click_reveals_exactly_that_tile() {
    let mut b = Board::new(Params { width: 3, height: 3, mines: 1 });
    b.place_at(&vec![8]); // the mine sits at (2, 2)
    b.handle_uncover(1, 1); // a Hint(1) tile: no flood starts from it
    for y in 0..3 {
        for x in 0..3 {
            if (x, y) == (1, 1) {
                assert!(matches!(b.tile(x, y).cover(), Cover::Down));
            } else {
                assert!(matches!(b.tile(x, y).cover(), Cover::Up(Mark::Clear)));
            }
        }
    }
    assert!(!b.is_defeat());
    assert!(!b.is_victory());
    // clicking the revealed hint again changes nothing
    b.handle_uncover(1, 1);
    assert!(matches!(b.tile(0, 0).cover(), Cover::Up(Mark::Clear)));
}
