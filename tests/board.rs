use azul_engine::board::{BonusTypes, Board, Grid};
use azul_engine::game_move::{IllegalMoveError, Row};

fn empty_grid() -> Grid {
    [[None; 5]; 5]
}

fn no_bonuses() -> BonusTypes {
    BonusTypes {
        rows: [false; 5],
        columns: [false; 5],
        tile_types: [false; 5],
    }
}

#[test]
fn lone_tile_scores_one() {
    let mut holds = empty_grid();
    holds[0][0] = Some(2);
    let mut b = Board::builder().holds(holds).build();
    b.place_holds();
    assert_eq!(b.get_score(), 1);
    assert_eq!(b.placed()[0][2], Some(2));
    assert_eq!(b.holds()[0][0], None);
}

#[test]
fn three_tile_horizontal_run_scores_three() {
    let mut placed = empty_grid();
    placed[0][0] = Some(0);
    placed[0][1] = Some(1);
    let mut holds = empty_grid();
    holds[0][0] = Some(2);
    let mut b = Board::builder().placed(placed).holds(holds).build();
    b.place_holds();
    assert_eq!(b.get_score(), 3);
}

#[test]
fn tile_in_both_directions_scores_both_lines() {
    let mut placed = empty_grid();
    placed[1][0] = Some(4);
    placed[0][1] = Some(1);
    let mut holds = empty_grid();
    holds[1][0] = Some(0);
    holds[1][1] = Some(0);
    let mut b = Board::builder().placed(placed).holds(holds).build();
    b.place_holds();
    assert_eq!(b.placed()[1][1], Some(0));
    assert_eq!(b.get_score(), 4);
}

#[test]
fn three_penalty_tiles_cost_four() {
    let mut b = Board::builder().score(10).penalties(3).build();
    b.place_holds();
    assert_eq!(b.get_score(), 6);
    assert_eq!(b.penalties(), 0);
}

#[test]
fn ten_penalty_tiles_cost_the_whole_table() {
    let mut b = Board::builder().score(20).penalties(10).build();
    b.place_holds();
    assert_eq!(b.get_score(), 6);
    assert_eq!(Board::get_penalty_point_value(10), 14);
    assert_eq!(Board::get_penalty_point_value(7), 14);
    assert_eq!(Board::get_penalty_point_value(3), 4);
    assert_eq!(Board::get_penalty_point_value(0), 0);
}

#[test]
fn score_never_drops_below_zero() {
    let mut b = Board::builder().score(2).penalties(5).build();
    b.place_holds();
    assert_eq!(b.get_score(), 0);
}

#[test]
fn row_bonus_is_awarded_once() {
    let mut placed = empty_grid();
    for c in 0..4 {
        placed[0][c] = Some(c);
    }
    let mut holds = empty_grid();
    holds[0][0] = Some(4);
    let mut b = Board::builder().placed(placed).holds(holds).build();
    b.place_holds();
    // five in a row, plus the row bonus
    assert_eq!(b.get_score(), 5 + 2);
    assert!(b.bonuses().rows[0]);
    assert_eq!(b.count_horizontal_lines(), 1);
    b.place_holds();
    assert_eq!(b.get_score(), 7);
}

#[test]
fn column_and_tile_type_bonuses() {
    let mut placed = empty_grid();
    for r in 0..4 {
        placed[r][0] = Some(Board::get_tile_type_at_pos(r, 0));
    }
    let mut holds = empty_grid();
    // row 4, column 0 takes type 1; the row needs five tiles
    for c in 0..5 {
        holds[4][c] = Some(1);
    }
    let mut b = Board::builder().placed(placed).holds(holds).bonuses(no_bonuses()).build();
    b.place_holds();
    // a vertical line of five, plus the column bonus
    assert_eq!(b.get_score(), 5 + 7);
    assert!(b.bonuses().columns[0]);
    assert!(!b.bonuses().tile_types[1]);
}

#[test]
fn tile_type_bonus_for_all_five_cells() {
    let mut placed = empty_grid();
    for r in 0..4 {
        placed[r][r] = Some(0);
    }
    let mut holds = empty_grid();
    for c in 0..5 {
        holds[4][c] = Some(0);
    }
    let mut b = Board::builder().placed(placed).holds(holds).build();
    b.place_holds();
    assert_eq!(b.placed()[4][4], Some(0));
    assert_eq!(b.get_score(), 1 + 10);
    assert!(b.bonuses().tile_types[0]);
}

#[test]
fn placement_follows_the_diagonal() {
    for r in 0..5 {
        for t in 0..5 {
            let mut holds = empty_grid();
            for c in 0..=r {
                holds[r][c] = Some(t);
            }
            let mut b = Board::builder().holds(holds).build();
            b.place_holds();
            let col = (t + r) % 5;
            for c in 0..5 {
                assert_eq!(b.placed()[r][c].is_some(), c == col);
            }
            assert_eq!(Board::get_tile_type_at_pos(r, col), t);
        }
    }
}

#[test]
fn partial_row_is_not_placed() {
    let mut holds = empty_grid();
    holds[2][0] = Some(3);
    holds[2][1] = Some(3);
    let mut b = Board::builder().holds(holds).build();
    b.place_holds();
    assert_eq!(b.get_score(), 0);
    assert_eq!(b.holds()[2][1], Some(3));
}

#[test]
fn staging_overflow_becomes_penalty() {
    let mut b = Board::new();
    assert_eq!(b.hold_tiles(3, 4, Row::Wall(1), 0), Ok(()));
    assert_eq!(b.holds()[1][0], Some(3));
    assert_eq!(b.holds()[1][1], Some(3));
    assert_eq!(b.holds()[1][2], None);
    assert_eq!(b.penalties(), 2);
    assert_eq!(b.hold_tiles(3, 1, Row::Wall(1), 1), Ok(()));
    assert_eq!(b.penalties(), 4);
}

#[test]
fn staging_adds_to_a_partly_filled_row() {
    let mut b = Board::new();
    assert_eq!(b.hold_tiles(2, 1, Row::Wall(3), 0), Ok(()));
    assert_eq!(b.hold_tiles(2, 2, Row::Wall(3), 0), Ok(()));
    assert_eq!(b.holds()[3][2], Some(2));
    assert_eq!(b.holds()[3][3], None);
    assert_eq!(b.penalties(), 0);
}

#[test]
fn floor_takes_all_tiles_and_the_extra_penalty() {
    let mut b = Board::new();
    assert_eq!(b.hold_tiles(1, 3, Row::Floor, 1), Ok(()));
    assert_eq!(b.penalties(), 4);
}

#[test]
fn staging_on_another_type_is_illegal() {
    let mut b = Board::new();
    assert_eq!(b.hold_tiles(1, 1, Row::Wall(2), 0), Ok(()));
    assert_eq!(b.hold_tiles(2, 1, Row::Wall(2), 0), Err(IllegalMoveError));
    assert_eq!(b.holds()[2][0], Some(1));
    assert_eq!(b.hold_tiles(2, 1, Row::Wall(7), 0), Err(IllegalMoveError));
    assert_eq!(b.penalties(), 0);
}

#[test]
fn valid_rows_exclude_conflicts() {
    let mut placed = empty_grid();
    // row 0 already has type 3 at column 3
    placed[0][3] = Some(3);
    let mut holds = empty_grid();
    holds[1][0] = Some(2);
    let b = Board::builder().placed(placed).holds(holds).build();
    let rows = b.get_valid_rows_for_tile_type(3);
    assert_eq!(rows, vec![Row::Wall(2), Row::Wall(3), Row::Wall(4), Row::Floor]);
    let rows = b.get_valid_rows_for_tile_type(2);
    assert_eq!(
        rows,
        vec![Row::Wall(0), Row::Wall(1), Row::Wall(2), Row::Wall(3), Row::Wall(4), Row::Floor]
    );
}

#[test]
fn active_tiles_list_holds_then_grid() {
    let mut placed = empty_grid();
    placed[4][0] = Some(1);
    let mut holds = empty_grid();
    holds[2][0] = Some(3);
    holds[2][1] = Some(3);
    let b = Board::builder().placed(placed).holds(holds).build();
    assert_eq!(b.get_active_tiles(), vec![3, 3, 1]);
}
