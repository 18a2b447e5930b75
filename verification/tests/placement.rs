use battleship::grid::{is_free, is_valid_placement, place_ship, Cell, Grid};

#[test]
fn empty_board_is_empty() {
    let g = Grid::new_empty();
    for x in 0..10 {
        for y in 0..10 {
            assert_eq!(g.at(x, y), Cell::Empty);
        }
    }
}

#[test]
fn set_overwrites_one_cell_only() {
    let mut g = Grid::new_empty();
    g.set(4, 7, Cell::Ship);
    for x in 0..10 {
        for y in 0..10 {
            if (x, y) == (4, 7) {
                assert_eq!(g.at(x, y), Cell::Ship);
            } else {
                assert_eq!(g.at(x, y), Cell::Empty);
            }
        }
    }
}

#[test]
fn is_free_treats_off_board_as_free() {
    let mut g = Grid::new_empty();
    g.set(0, 0, Cell::Ship);
    assert!(is_free(&g, (-1, 0)));
    assert!(is_free(&g, (0, 10)));
    assert!(is_free(&g, (10, 10)));
    assert!(is_free(&g, (5, 5)));
    assert!(!is_free(&g, (0, 0)));
}

#[test]
fn placement_must_stay_on_board() {
    let g = Grid::new_empty();
    // horizontal run of 4 from (5, 7) would end at column 10
    assert!(!is_valid_placement(&g, 5, 7, 4, true));
    assert!(is_valid_placement(&g, 5, 6, 4, true));
    // vertical run of 4 from (7, 5) would end at row 10
    assert!(!is_valid_placement(&g, 7, 5, 4, false));
    assert!(is_valid_placement(&g, 6, 5, 4, false));
}

#[test]
fn place_ship_marks_exactly_the_footprint() {
    let mut g = Grid::new_empty();
    assert!(place_ship(&mut g, 2, 3, 4, true).is_ok());
    for x in 0..10 {
        for y in 0..10 {
            if x == 2 && (3..7).contains(&y) {
                assert_eq!(g.at(x, y), Cell::Ship);
            } else {
                assert_eq!(g.at(x, y), Cell::Empty);
            }
        }
    }
}

#[test]
fn placement_rejects_touching_ships() {
    let mut g = Grid::new_empty();
    assert!(place_ship(&mut g, 2, 3, 4, true).is_ok());
    // a vertical run ending at (2, 2) would touch (2, 3) side on
    assert!(!is_valid_placement(&g, 0, 2, 3, false));
    assert!(place_ship(&mut g, 0, 2, 3, false).is_err());
    // the failed attempt left the board as it was
    assert_eq!(g.at(0, 2), Cell::Empty);
    assert_eq!(g.at(1, 2), Cell::Empty);
    // a run ending at (1, 1) only meets the halo diagonally at (2, 2),
    // which is empty, so it is accepted
    assert!(is_valid_placement(&g, 0, 1, 2, false));
    // overlap is rejected outright
    assert!(!is_valid_placement(&g, 2, 5, 3, true));
}

#[test]
fn random_board_ship_count_at_most_22() {
    let g = Grid::new_random();
    let mut ships = 0;
    for x in 0..10 {
        for y in 0..10 {
            let c = g.at(x, y);
            assert!(c == Cell::Ship || c == Cell::Empty);
            if c == Cell::Ship {
                ships += 1;
            }
        }
    }
    assert!(ships <= 22);
}

#[test]
fn random_board_runs_form_a_sub_fleet() {
    // ships are straight and never touch, so the maximal straight runs
    // are exactly the placed ships; their lengths must be drawn from the
    // fleet 5, 4, 4, 3, 3, 3
    for _ in 0..20 {
        let g = battleship::grid::Grid::new_random();
        let ship = |x: i32, y: i32| -> bool {
            x >= 0 && x <= 9 && y >= 0 && y <= 9 && g.at(x, y) == Cell::Ship
        };
        let mut lengths: Vec<i32> = Vec::new();
        for x in 0..10 {
            for y in 0..10 {
                if !ship(x, y) {
                    continue;
                }
                if !ship(x, y - 1) && ship(x, y + 1) {
                    // start of a horizontal run
                    let mut len = 1;
                    while ship(x, y + len) {
                        len += 1;
                    }
                    lengths.push(len);
                } else if !ship(x - 1, y) && ship(x + 1, y) {
                    // start of a vertical run
                    let mut len = 1;
                    while ship(x + len, y) {
                        len += 1;
                    }
                    lengths.push(len);
                } else if !ship(x, y - 1) && !ship(x - 1, y) && !ship(x, y + 1) && !ship(x + 1, y) {
                    panic!("isolated ship cell at ({}, {})", x, y);
                }
            }
        }
        let fives = lengths.iter().filter(|&&l| l == 5).count();
        let fours = lengths.iter().filter(|&&l| l == 4).count();
        let threes = lengths.iter().filter(|&&l| l == 3).count();
        assert_eq!(fives + fours + threes, lengths.len());
        assert!(fives <= 1 && fours <= 2 && threes <= 3);
    }
}

#[test]
fn random_board_ships_never_touch() {
    // ships are straight and separated, so three ship cells can never
    // meet in an L: the two arms would belong to touching ships
    for _ in 0..20 {
        let g = Grid::new_random();
        for x in 0..9 {
            for y in 0..9 {
                let corner = g.at(x, y) == Cell::Ship;
                let right = g.at(x, y + 1) == Cell::Ship;
                let below = g.at(x + 1, y) == Cell::Ship;
                let diag = g.at(x + 1, y + 1) == Cell::Ship;
                assert!(!(corner && right && below));
                assert!(!(corner && diag && right));
                assert!(!(corner && diag && below));
                assert!(!(right && below && diag));
                // two ship cells touching only diagonally is impossible
                assert!(!(corner && diag && !right && !below));
                assert!(!(right && below && !corner && !diag));
            }
        }
    }
}
