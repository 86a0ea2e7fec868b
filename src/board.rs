use vstd::prelude::*;

use crate::game_move::{IllegalMoveError, Row};
use crate::Tile;

verus! {

/// The width and height of the grid, and the number of tile types.
pub const BOARD_DIMENSION: usize = 5;

/// Points for completing a grid row.
pub const ROW_BONUS: usize = 2;

/// Points for completing a grid column.
pub const COLUMN_BONUS: usize = 7;

/// Points for filling all five cells of one tile type.
pub const TILE_TYPE_BONUS: usize = 10;

/// A square of optional tiles, indexed by row then column.
pub type Grid = [[Option<Tile>; BOARD_DIMENSION]; BOARD_DIMENSION];

/// Which bonuses a board has already claimed, by row, by column and by tile type.
#[derive(Debug, Clone, Copy)]
pub struct BonusTypes {
    pub rows: [bool; BOARD_DIMENSION],
    pub columns: [bool; BOARD_DIMENSION],
    pub tile_types: [bool; BOARD_DIMENSION],
}

/// A player's board: staging rows ("holds"), the scoring grid ("placed"), claimed bonuses,
/// the penalty tiles of the current round and the score.
#[derive(Debug, Clone, Copy)]
pub struct Board {
    pub holds: Grid,
    pub placed: Grid,
    pub bonuses: BonusTypes,
    pub penalties: usize,
    pub score: usize,
}

/// The mathematical content of a board.
pub struct BoardModel {
    pub holds: Seq<Seq<Option<Tile>>>,
    pub placed: Seq<Seq<Option<Tile>>>,
    pub bonus_rows: Seq<bool>,
    pub bonus_cols: Seq<bool>,
    pub bonus_types: Seq<bool>,
    pub penalties: nat,
    pub score: nat,
}

pub open spec fn grid_view(g: Grid) -> Seq<Seq<Option<Tile>>> {
    Seq::new(5, |i: int| g[i]@)
}

impl View for Board {
    type V = BoardModel;

    open spec fn view(&self) -> BoardModel {
        BoardModel {
            holds: grid_view(self.holds),
            placed: grid_view(self.placed),
            bonus_rows: self.bonuses.rows@,
            bonus_cols: self.bonuses.columns@,
            bonus_types: self.bonuses.tile_types@,
            penalties: self.penalties as nat,
            score: self.score as nat,
        }
    }
}

/// The column of grid row `r` that takes tiles of type `t`.
pub open spec fn place_col(t: int, r: int) -> int {
    (t + r) % 5
}

/// The tile type that grid cell (`r`, `c`) takes.
pub open spec fn type_at(r: int, c: int) -> int {
    (c + 5 - r) % 5
}

/// A staging row holding `n` tiles of type `t`, packed from the left.
pub open spec fn staged(t: Tile, n: int) -> Seq<Option<Tile>> {
    Seq::new(5, |j: int| if j < n { Some(t) } else { None })
}

/// The number of tiles at the start of a row, from cell `j` on.
pub open spec fn lead_from(row: Seq<Option<Tile>>, j: int) -> nat
    decreases 5 - j,
{
    if j < 0 || j >= 5 || row[j] is None {
        0
    } else {
        1 + lead_from(row, j + 1)
    }
}

/// The number of tiles in a staging row.
pub open spec fn hold_len(row: Seq<Option<Tile>>) -> nat {
    lead_from(row, 0)
}

/// The tile type of a staging row (0 when it is empty).
pub open spec fn hold_kind(row: Seq<Option<Tile>>) -> Tile {
    match row[0] {
        Some(t) => t,
        None => 0,
    }
}

pub open spec fn hold_row_wf(row: Seq<Option<Tile>>, i: int) -> bool {
    &&& hold_len(row) <= i + 1
    &&& row == staged(hold_kind(row), hold_len(row) as int)
    &&& hold_kind(row) < 5
}

pub open spec fn is_filled(p: Seq<Seq<Option<Tile>>>, r: int, c: int) -> bool {
    0 <= r < 5 && 0 <= c < 5 && p[r][c] is Some
}

/// The number of filled cells met when walking from (`r`, `c`) by steps of (`dr`, `dc`),
/// stopping at the first empty cell or the edge, for at most `fuel` steps.
pub open spec fn run_length(
    p: Seq<Seq<Option<Tile>>>,
    r: int,
    c: int,
    dr: int,
    dc: int,
    fuel: nat,
) -> nat
    decreases fuel,
{
    if fuel == 0 {
        0
    } else if is_filled(p, r + dr, c + dc) {
        1 + run_length(p, r + dr, c + dc, dr, dc, (fuel - 1) as nat)
    } else {
        0
    }
}

/// The points scored by a tile just placed at (`r`, `c`): 1 for a lone tile, otherwise the
/// length of each horizontal or vertical line through it that is longer than one.
pub open spec fn placement_points(p: Seq<Seq<Option<Tile>>>, r: int, c: int) -> nat {
    let h = 1 + run_length(p, r, c, 0, 1, 5) + run_length(p, r, c, 0, -1, 5);
    let v = 1 + run_length(p, r, c, 1, 0, 5) + run_length(p, r, c, -1, 0, 5);
    if h == 1 && v == 1 {
        1
    } else {
        (if h > 1 { h } else { 0 }) + (if v > 1 { v } else { 0 })
    }
}

pub open spec fn row_full(p: Seq<Seq<Option<Tile>>>, r: int) -> bool {
    forall|c: int| 0 <= c < 5 ==> #[trigger] p[r][c] is Some
}

pub open spec fn col_full(p: Seq<Seq<Option<Tile>>>, c: int) -> bool {
    forall|r: int| 0 <= r < 5 ==> #[trigger] p[r][c] is Some
}

/// Every cell of tile type `t` is filled.
pub open spec fn type_full(p: Seq<Seq<Option<Tile>>>, t: int) -> bool {
    forall|r: int| 0 <= r < 5 ==> #[trigger] p[r][place_col(t, r)] is Some
}

pub open spec fn rows_full(p: Seq<Seq<Option<Tile>>>) -> Seq<bool> {
    Seq::new(5, |i: int| row_full(p, i))
}

pub open spec fn cols_full(p: Seq<Seq<Option<Tile>>>) -> Seq<bool> {
    Seq::new(5, |i: int| col_full(p, i))
}

pub open spec fn types_full(p: Seq<Seq<Option<Tile>>>) -> Seq<bool> {
    Seq::new(5, |i: int| type_full(p, i))
}

/// Claimed flags after a bonus pass: a flag once set stays set.
pub open spec fn merge_claims(claimed: Seq<bool>, now: Seq<bool>) -> Seq<bool> {
    Seq::new(5, |i: int| claimed[i] || now[i])
}

/// The number of the first `n` bonuses that are met now and were not claimed before.
pub open spec fn newly_claimed(claimed: Seq<bool>, now: Seq<bool>, n: int) -> nat
    decreases n,
{
    if n <= 0 {
        0
    } else {
        newly_claimed(claimed, now, n - 1) + if !claimed[n - 1] && now[n - 1] {
            1nat
        } else {
            0nat
        }
    }
}

/// The number of completed grid rows among the first `n`.
pub open spec fn full_rows(p: Seq<Seq<Option<Tile>>>, n: int) -> nat
    decreases n,
{
    if n <= 0 {
        0
    } else {
        full_rows(p, n - 1) + if row_full(p, n - 1) {
            1nat
        } else {
            0nat
        }
    }
}

/// The escalating penalty table, in points per penalty tile.
pub open spec fn penalty_table() -> Seq<nat> {
    seq![1nat, 1, 2, 2, 2, 3, 3]
}

/// The points lost for `n` penalty tiles: the sum of the first `n` table entries, where
/// tiles beyond the table's length cost nothing more.
pub open spec fn penalty_points(n: nat) -> nat
    decreases n,
{
    if n == 0 {
        0
    } else if n > 7 {
        penalty_points(7)
    } else {
        penalty_points((n - 1) as nat) + penalty_table()[n - 1]
    }
}

/// The tiles of a row, left to right, without the empty cells.
pub open spec fn somes(s: Seq<Option<Tile>>) -> Seq<Tile>
    decreases s.len(),
{
    if s.len() == 0 {
        seq![]
    } else {
        somes(s.drop_last()) + match s.last() {
            Some(t) => seq![t],
            None => seq![],
        }
    }
}

/// The tiles of the first `n` rows of a grid, row by row.
pub open spec fn grid_tiles(g: Seq<Seq<Option<Tile>>>, n: int) -> Seq<Tile>
    decreases n,
{
    if n <= 0 {
        seq![]
    } else {
        grid_tiles(g, n - 1) + somes(g[n - 1])
    }
}

/// A wall row is open to tile type `t` when its staging row is empty or already holds `t`,
/// and the grid cell that it feeds is still empty.
pub open spec fn wall_legal(b: BoardModel, t: Tile, i: int) -> bool {
    &&& (hold_len(b.holds[i]) == 0 || hold_kind(b.holds[i]) == t)
    &&& b.placed[i][place_col(t as int, i)] is None
}

pub open spec fn legal_walls(b: BoardModel, t: Tile, n: int) -> Seq<Row>
    decreases n,
{
    if n <= 0 {
        seq![]
    } else {
        legal_walls(b, t, n - 1) + if wall_legal(b, t, n - 1) {
            seq![Row::Wall((n - 1) as usize)]
        } else {
            seq![]
        }
    }
}

/// The rows that tiles of type `t` may go to: the open wall rows in order, then the floor.
pub open spec fn legal_rows(b: BoardModel, t: Tile) -> Seq<Row> {
    legal_walls(b, t, 5).push(Row::Floor)
}

pub open spec fn min_int(a: int, b: int) -> int {
    if a <= b {
        a
    } else {
        b
    }
}

/// Staging `k` tiles of type `t` on `row`, with `extra` penalty tiles; `None` when the row
/// does not exist or holds another type.
pub open spec fn stage(b: BoardModel, t: Tile, k: nat, row: Row, extra: nat) -> Option<BoardModel> {
    match row {
        Row::Floor => Some(BoardModel { penalties: b.penalties + k + extra, ..b }),
        Row::Wall(i) => {
            if i >= 5 || (hold_len(b.holds[i as int]) > 0 && hold_kind(b.holds[i as int]) != t) {
                None
            } else {
                let n = hold_len(b.holds[i as int]);
                let m = min_int((n + k) as int, i + 1);
                Some(
                    BoardModel {
                        holds: b.holds.update(i as int, staged(t, m)),
                        penalties: b.penalties + (n + k - m) as nat + extra,
                        ..b
                    },
                )
            }
        },
    }
}

/// Moves a full staging row `i` to its grid cell and scores the new tile.
pub open spec fn resolve_row(b: BoardModel, i: int) -> BoardModel {
    if hold_len(b.holds[i]) > i {
        let t = hold_kind(b.holds[i]);
        let c = place_col(t as int, i);
        let placed = b.placed.update(i, b.placed[i].update(c, Some(t)));
        BoardModel {
            holds: b.holds.update(i, staged(0, 0)),
            placed: placed,
            score: b.score + placement_points(placed, i, c),
            ..b
        }
    } else {
        b
    }
}

/// Resolves the first `n` staging rows, top to bottom.
pub open spec fn resolve_rows(b: BoardModel, n: int) -> BoardModel
    decreases n,
{
    if n <= 0 {
        b
    } else {
        resolve_row(resolve_rows(b, n - 1), n - 1)
    }
}

/// Claims every bonus whose condition is met and that was not claimed before.
pub open spec fn claim_bonuses(b: BoardModel) -> BoardModel {
    let rows = rows_full(b.placed);
    let cols = cols_full(b.placed);
    let types = types_full(b.placed);
    BoardModel {
        bonus_rows: merge_claims(b.bonus_rows, rows),
        bonus_cols: merge_claims(b.bonus_cols, cols),
        bonus_types: merge_claims(b.bonus_types, types),
        score: (b.score + ROW_BONUS * newly_claimed(b.bonus_rows, rows, 5) + COLUMN_BONUS
            * newly_claimed(b.bonus_cols, cols, 5) + TILE_TYPE_BONUS * newly_claimed(
            b.bonus_types,
            types,
            5,
        )) as nat,
        ..b
    }
}

/// Converts the penalty tiles into lost points (never below zero) and clears them.
pub open spec fn apply_penalties(b: BoardModel) -> BoardModel {
    let lost = penalty_points(b.penalties);
    BoardModel {
        score: if b.score >= lost {
            (b.score - lost) as nat
        } else {
            0
        },
        penalties: 0,
        ..b
    }
}

/// The end-of-round pass of one board.
pub open spec fn finish_round(b: BoardModel) -> BoardModel {
    apply_penalties(claim_bonuses(resolve_rows(b, 5)))
}

impl BoardModel {
    pub open spec fn wf(self) -> bool {
        &&& self.holds.len() == 5
        &&& self.placed.len() == 5
        &&& self.bonus_rows.len() == 5
        &&& self.bonus_cols.len() == 5
        &&& self.bonus_types.len() == 5
        &&& forall|i: int| 0 <= i < 5 ==> hold_row_wf(#[trigger] self.holds[i], i)
        &&& forall|i: int| 0 <= i < 5 ==> (#[trigger] self.placed[i]).len() == 5
        &&& forall|i: int, c: int|
            0 <= i < 5 && 0 <= c < 5 && (#[trigger] self.placed[i][c]) is Some ==> self.placed[i][c]
                == Some(type_at(i, c) as Tile)
    }

    /// The tiles on the board, the staging rows first, then the grid.
    pub open spec fn tiles(self) -> Seq<Tile> {
        grid_tiles(self.holds, 5) + grid_tiles(self.placed, 5)
    }
}

pub open spec fn empty_model() -> BoardModel {
    BoardModel {
        holds: Seq::new(5, |i: int| staged(0, 0)),
        placed: Seq::new(5, |i: int| staged(0, 0)),
        bonus_rows: Seq::new(5, |i: int| false),
        bonus_cols: Seq::new(5, |i: int| false),
        bonus_types: Seq::new(5, |i: int| false),
        penalties: 0,
        score: 0,
    }
}

pub proof fn lemma_lead_staged(t: Tile, n: int, j: int)
    requires
        0 <= j <= 5,
        0 <= n <= 5,
    ensures
        lead_from(staged(t, n), j) == if j < n {
            n - j
        } else {
            0
        },
    decreases 5 - j,
{
    if j < 5 {
        lemma_lead_staged(t, n, j + 1);
    }
}

pub proof fn lemma_hold_len_staged(t: Tile, n: int)
    requires
        0 <= n <= 5,
    ensures
        hold_len(staged(t, n)) == n,
        n > 0 ==> hold_kind(staged(t, n)) == t,
{
    lemma_lead_staged(t, n, 0);
}

pub proof fn lemma_newly_le(claimed: Seq<bool>, now: Seq<bool>, n: int)
    requires
        n >= 0,
    ensures
        newly_claimed(claimed, now, n) <= n,
    decreases n,
{
    if n > 0 {
        lemma_newly_le(claimed, now, n - 1);
    }
}

/// A tile of type `t` put in row `r` lands on a cell that takes type `t`.
pub proof fn lemma_place_type(t: int, r: int)
    requires
        0 <= t < 5,
        0 <= r < 5,
    ensures
        0 <= place_col(t, r) < 5,
        type_at(r, place_col(t, r)) == t,
{
}

pub proof fn lemma_somes_step(row: Seq<Option<Tile>>, j: int)
    requires
        0 <= j < row.len(),
    ensures
        somes(row.take(j + 1)) == somes(row.take(j)) + match row[j] {
            Some(t) => seq![t],
            None => seq![],
        },
{
    assert(row.take(j + 1).drop_last() =~= row.take(j));
}

/// Appends the tiles of `g`, row by row, to `v`.
fn push_grid_tiles(g: &Grid, v: &mut Vec<Tile>)
    ensures
        final(v)@ == old(v)@ + grid_tiles(grid_view(*g), 5),
{
    let ghost start = v@;
    let ghost gv = grid_view(*g);
    let mut i: usize = 0;
    while i < 5
        invariant
            i <= 5,
            gv == grid_view(*g),
            v@ == start + grid_tiles(gv, i as int),
        decreases 5 - i,
    {
        let mut j: usize = 0;
        while j < 5
            invariant
                i < 5,
                j <= 5,
                gv == grid_view(*g),
                v@ == start + grid_tiles(gv, i as int) + somes(gv[i as int].take(j as int)),
            decreases 5 - j,
        {
            proof {
                lemma_somes_step(gv[i as int], j as int);
            }
            match g[i][j] {
                Some(t) => {
                    v.push(t);
                },
                None => {},
            }
            j += 1;
        }
        assert(gv[i as int].take(5) =~= gv[i as int]);
        i += 1;
    }
}

/// Resolving a staging row keeps a board well formed.
pub proof fn lemma_resolve_row_wf(b: BoardModel, i: int)
    requires
        b.wf(),
        0 <= i < 5,
    ensures
        resolve_row(b, i).wf(),
{
    if hold_len(b.holds[i]) > i {
        let t = hold_kind(b.holds[i]);
        lemma_place_type(t as int, i);
        lemma_hold_len_staged(0, 0);
        let r = resolve_row(b, i);
        assert forall|k: int| 0 <= k < 5 implies hold_row_wf(#[trigger] r.holds[k], k) by {
            if k == i {
                assert(r.holds[k] == staged(0, 0));
            }
        }
    }
}

impl Board {
    /// An empty board with no score.
    pub fn new() -> (r: Board)
        ensures
            r@ == empty_model(),
            r@.wf(),
    {
        let empty: [Option<Tile>; BOARD_DIMENSION] = [None, None, None, None, None];
        let r = Board {
            holds: [empty, empty, empty, empty, empty],
            placed: [empty, empty, empty, empty, empty],
            bonuses: BonusTypes {
                rows: [false, false, false, false, false],
                columns: [false, false, false, false, false],
                tile_types: [false, false, false, false, false],
            },
            penalties: 0,
            score: 0,
        };
        proof {
            lemma_hold_len_staged(0, 0);
            assert(empty@ =~= staged(0, 0));
            assert(r@.holds =~= empty_model().holds);
            assert(r@.placed =~= empty_model().placed);
            assert(r@.bonus_rows =~= empty_model().bonus_rows);
            assert(r@.bonus_cols =~= empty_model().bonus_cols);
            assert(r@.bonus_types =~= empty_model().bonus_types);
        }
        r
    }

    /// The tile type that grid cell (`row`, `col`) takes.
    pub fn get_tile_type_at_pos(row: usize, col: usize) -> (r: Tile)
        requires
            row < 5,
            col < 5,
        ensures
            r == type_at(row as int, col as int),
    {
        (col + BOARD_DIMENSION - row) % BOARD_DIMENSION
    }

    /// The column of grid row `row_idx` where a tile of type `tile_type` goes.
    ///
    /// The grid cycles the types by one column per row:
    /// - 0 1 2 3 4
    /// - 4 0 1 2 3
    /// - 3 4 0 1 2
    /// - ...
    fn get_tile_place_col(tile_type: Tile, row_idx: usize) -> (r: usize)
        requires
            tile_type < 5,
            row_idx < 5,
        ensures
            r == place_col(tile_type as int, row_idx as int),
            r < 5,
    {
        (tile_type + row_idx) % BOARD_DIMENSION
    }

    /// The points lost for the given number of penalty tiles.
    pub fn get_penalty_point_value(penalty_tiles: usize) -> (r: usize)
        ensures
            r == penalty_points(penalty_tiles as nat),
            r <= 21,
    {
        let table: [usize; 7] = [1, 1, 2, 2, 2, 3, 3];
        assert(table@ =~= penalty_table().map_values(|x: nat| x as usize));
        let mut sum: usize = 0;
        let mut i: usize = 0;
        while i < penalty_tiles && i < 7
            invariant
                i <= 7,
                i <= penalty_tiles,
                sum == penalty_points(i as nat),
                sum <= 3 * i,
                table@ == penalty_table().map_values(|x: nat| x as usize),
            decreases 7 - i,
        {
            sum = sum + table[i];
            i += 1;
        }
        sum
    }

    /// Counts the filled cells from (`row`, `col`) in direction (`drow`, `dcol`), up to the
    /// first empty cell or the edge of the grid.
    fn count_in_direction(placed: &Grid, row: isize, col: isize, drow: isize, dcol: isize) -> (r:
        usize)
        requires
            0 <= row < 5,
            0 <= col < 5,
            -1 <= drow <= 1,
            -1 <= dcol <= 1,
        ensures
            r == run_length(grid_view(*placed), row as int, col as int, drow as int, dcol as int, 5),
            r <= 5,
    {
        let ghost p = grid_view(*placed);
        let mut count: usize = 0;
        let mut r = row;
        let mut c = col;
        while count < 5
            invariant
                0 <= r < 5,
                0 <= c < 5,
                count <= 5,
                -1 <= drow <= 1,
                -1 <= dcol <= 1,
                p == grid_view(*placed),
                run_length(p, row as int, col as int, drow as int, dcol as int, 5) == count
                    + run_length(p, r as int, c as int, drow as int, dcol as int, (5 - count) as nat),
            decreases 5 - count,
        {
            let nr = r + drow;
            let nc = c + dcol;
            if nr < 0 || nc < 0 || nr >= 5 || nc >= 5 {
                return count;
            }
            if placed[nr as usize][nc as usize].is_none() {
                return count;
            }
            count += 1;
            r = nr;
            c = nc;
        }
        count
    }

    /// The number of tiles in staging row `i`.
    pub(crate) fn hold_count(&self, i: usize) -> (r: usize)
        requires
            self@.wf(),
            i < 5,
        ensures
            r == hold_len(self@.holds[i as int]),
            r <= i + 1,
    {
        let ghost row = self@.holds[i as int];
        proof {
            lemma_hold_len_staged(hold_kind(row), hold_len(row) as int);
        }
        let mut n: usize = 0;
        while n < 5 && self.holds[i][n].is_some()
            invariant
                n <= hold_len(row),
                i < 5,
                row == self@.holds[i as int],
                row == staged(hold_kind(row), hold_len(row) as int),
                hold_len(row) <= 5,
            decreases 5 - n,
        {
            n += 1;
        }
        n
    }

    /// All tiles on this board, the staging rows first, then the grid.
    pub fn get_active_tiles(&self) -> (r: Vec<Tile>)
        ensures
            r@ == self@.tiles(),
    {
        let mut v: Vec<Tile> = Vec::new();
        push_grid_tiles(&self.holds, &mut v);
        push_grid_tiles(&self.placed, &mut v);
        v
    }

    /// The rows that tiles of type `tile_type` may go to: each open wall row, then the floor.
    pub fn get_valid_rows_for_tile_type(&self, tile_type: Tile) -> (r: Vec<Row>)
        requires
            self@.wf(),
            tile_type < 5,
        ensures
            r@ == legal_rows(self@, tile_type),
    {
        let mut valid_rows: Vec<Row> = Vec::new();
        let mut i: usize = 0;
        while i < 5
            invariant
                i <= 5,
                self@.wf(),
                tile_type < 5,
                valid_rows@ == legal_walls(self@, tile_type, i as int),
            decreases 5 - i,
        {
            let n = self.hold_count(i);
            let same_type = match self.holds[i][0] {
                Some(t) => t == tile_type,
                None => true,
            };
            let col = Board::get_tile_place_col(tile_type, i);
            if (n == 0 || same_type) && self.placed[i][col].is_none() {
                valid_rows.push(Row::Wall(i));
            }
            i += 1;
        }
        valid_rows.push(Row::Floor);
        valid_rows
    }

    /// Stages `tile_count` tiles of `tile_type` on `row_idx`, with `penalty` extra penalty
    /// tiles (such as the one for taking first from the centre pool). Tiles that do not fit in
    /// the staging row become penalty tiles; on the floor all of them do.
    pub fn hold_tiles(&mut self, tile_type: Tile, tile_count: usize, row_idx: Row, penalty: usize) -> (r:
        Result<(), IllegalMoveError>)
        requires
            old(self)@.wf(),
            tile_type < 5,
            old(self).penalties + tile_count + penalty <= usize::MAX,
        ensures
            final(self)@.wf(),
            match r {
                Ok(_) => stage(old(self)@, tile_type, tile_count as nat, row_idx, penalty as nat)
                    == Some(final(self)@),
                Err(_) => stage(old(self)@, tile_type, tile_count as nat, row_idx, penalty as nat) is None
                    && final(self)@ == old(self)@,
            },
    {
        let idx = match row_idx {
            Row::Floor => {
                self.penalties = self.penalties + tile_count + penalty;
                return Ok(());
            },
            Row::Wall(idx) => idx,
        };
        if idx >= BOARD_DIMENSION {
            return Err(IllegalMoveError);
        }
        let n = self.hold_count(idx);
        if n > 0 {
            match self.holds[idx][0] {
                Some(t) => {
                    if t != tile_type {
                        return Err(IllegalMoveError);
                    }
                },
                None => {},
            }
        }
        let ghost old_row = self@.holds[idx as int];
        let free = idx + 1 - n;
        let fits = if tile_count < free {
            tile_count
        } else {
            free
        };
        let m = n + fits;
        let mut j = n;
        while j < m
            invariant
                n <= j <= m,
                m <= idx + 1,
                idx < 5,
                old_row == old(self)@.holds[idx as int],
                old_row == staged(tile_type, n as int) || n == 0,
                old_row == staged(hold_kind(old_row), n as int),
                forall|k: int| 0 <= k < 5 && k != idx ==> self.holds[k] == old(self).holds[k],
                self.holds[idx as int]@ == Seq::new(
                    5,
                    |k: int|
                        if k < j {
                            Some(tile_type)
                        } else {
                            old_row[k]
                        },
                ),
                self.placed == old(self).placed,
                self.bonuses == old(self).bonuses,
                self.penalties == old(self).penalties,
                self.score == old(self).score,
            decreases m - j,
        {
            self.holds[idx][j] = Some(tile_type);
            j += 1;
        }
        self.penalties = self.penalties + (tile_count - fits) + penalty;
        proof {
            lemma_hold_len_staged(tile_type, m as int);
            assert(self.holds[idx as int]@ =~= staged(tile_type, m as int));
            assert(self@.holds =~= old(self)@.holds.update(idx as int, staged(tile_type, m as int)));
            if m == 0 {
                assert(staged(tile_type, 0) =~= staged(0, 0));
                lemma_hold_len_staged(0, 0);
            }
        }
        Ok(())
    }

    /// Whether grid row `r` is complete.
    fn row_complete(&self, r: usize) -> (b: bool)
        requires
            r < 5,
        ensures
            b == row_full(self@.placed, r as int),
    {
        let mut c: usize = 0;
        while c < 5
            invariant
                c <= 5,
                r < 5,
                forall|k: int| 0 <= k < c ==> #[trigger] self@.placed[r as int][k] is Some,
            decreases 5 - c,
        {
            if self.placed[r][c].is_none() {
                return false;
            }
            c += 1;
        }
        true
    }

    /// Whether grid column `c` is complete.
    fn column_complete(&self, c: usize) -> (b: bool)
        requires
            c < 5,
        ensures
            b == col_full(self@.placed, c as int),
    {
        let mut r: usize = 0;
        while r < 5
            invariant
                r <= 5,
                c < 5,
                forall|k: int| 0 <= k < r ==> #[trigger] self@.placed[k][c as int] is Some,
            decreases 5 - r,
        {
            if self.placed[r][c].is_none() {
                assert(self@.placed[r as int][c as int] is None);
                return false;
            }
            r += 1;
        }
        true
    }

    /// Whether every cell of tile type `t` is filled.
    fn tile_type_complete(&self, t: usize) -> (b: bool)
        requires
            t < 5,
        ensures
            b == type_full(self@.placed, t as int),
    {
        let mut r: usize = 0;
        while r < 5
            invariant
                r <= 5,
                t < 5,
                forall|k: int| 0 <= k < r ==> #[trigger] self@.placed[k][place_col(t as int, k)] is Some,
            decreases 5 - r,
        {
            let c = Board::get_tile_place_col(t, r);
            if self.placed[r][c].is_none() {
                assert(self@.placed[r as int][c as int] is None);
                return false;
            }
            r += 1;
        }
        true
    }

    /// The number of completed grid rows.
    pub fn count_horizontal_lines(&self) -> (r: usize)
        ensures
            r == full_rows(self@.placed, 5),
            r <= 5,
    {
        let mut count: usize = 0;
        let mut i: usize = 0;
        while i < 5
            invariant
                i <= 5,
                count == full_rows(self@.placed, i as int),
                count <= i,
            decreases 5 - i,
        {
            if self.row_complete(i) {
                count += 1;
            }
            i += 1;
        }
        count
    }

    /// Moves staging row `row_idx` to the grid when it is full, and scores the new tile.
    fn resolve_hold_row(&mut self, row_idx: usize)
        requires
            old(self)@.wf(),
            row_idx < 5,
            old(self).score + 22 <= usize::MAX,
        ensures
            final(self)@ == resolve_row(old(self)@, row_idx as int),
            final(self)@.wf(),
            final(self).score <= old(self).score + 22,
    {
        let ghost before = self@;
        let n = self.hold_count(row_idx);
        if n > row_idx {
            let t = match self.holds[row_idx][0] {
                Some(t) => t,
                None => 0,
            };
            let col = Board::get_tile_place_col(t, row_idx);
            self.placed[row_idx][col] = Some(t);
            let r = row_idx as isize;
            let c = col as isize;
            let h_line = 1 + Board::count_in_direction(&self.placed, r, c, 0, 1)
                + Board::count_in_direction(&self.placed, r, c, 0, -1);
            let v_line = 1 + Board::count_in_direction(&self.placed, r, c, 1, 0)
                + Board::count_in_direction(&self.placed, r, c, -1, 0);
            let points = if h_line == 1 && v_line == 1 {
                1
            } else {
                (if h_line > 1 {
                    h_line
                } else {
                    0
                }) + (if v_line > 1 {
                    v_line
                } else {
                    0
                })
            };
            self.score = self.score + points;
            self.holds[row_idx] = [None, None, None, None, None];
            proof {
                lemma_place_type(t as int, row_idx as int);
                lemma_hold_len_staged(0, 0);
                let placed = before.placed.update(
                    row_idx as int,
                    before.placed[row_idx as int].update(col as int, Some(t)),
                );
                assert(self@.placed =~~= placed);
                assert(self@.holds =~~= before.holds.update(row_idx as int, staged(0, 0)));
                assert(self@ == resolve_row(before, row_idx as int));
            }
        }
        proof {
            lemma_resolve_row_wf(old(self)@, row_idx as int);
        }
    }

    /// Claims each row, column and tile-type bonus that is met and not yet claimed.
    fn apply_uncollected_bonuses(&mut self)
        requires
            old(self)@.wf(),
            old(self).score + 200 <= usize::MAX,
        ensures
            final(self)@ == claim_bonuses(old(self)@),
            final(self)@.wf(),
    {
        let ghost b0 = self@;
        let ghost rows = rows_full(b0.placed);
        let ghost cols = cols_full(b0.placed);
        let ghost types = types_full(b0.placed);
        let mut i: usize = 0;
        while i < 5
            invariant
                i <= 5,
                b0 == old(self)@,
                b0.wf(),
                rows == rows_full(b0.placed),
                self@.placed == b0.placed,
                self@.holds == b0.holds,
                self.penalties == old(self).penalties,
                self.bonuses.columns == old(self).bonuses.columns,
                self.bonuses.tile_types == old(self).bonuses.tile_types,
                self.bonuses.rows@ == Seq::new(
                    5,
                    |j: int|
                        if j < i {
                            b0.bonus_rows[j] || rows[j]
                        } else {
                            b0.bonus_rows[j]
                        },
                ),
                self.score == b0.score + ROW_BONUS * newly_claimed(b0.bonus_rows, rows, i as int),
                old(self).score + 200 <= usize::MAX,
            decreases 5 - i,
        {
            proof {
                lemma_newly_le(b0.bonus_rows, rows, i as int);
            }
            if !self.bonuses.rows[i] && self.row_complete(i) {
                self.score = self.score + ROW_BONUS;
                self.bonuses.rows[i] = true;
            }
            i += 1;
        }
        let ghost s1 = self.score;
        proof {
            lemma_newly_le(b0.bonus_rows, rows, 5);
        }
        let mut i: usize = 0;
        while i < 5
            invariant
                i <= 5,
                b0 == old(self)@,
                b0.wf(),
                cols == cols_full(b0.placed),
                self@.placed == b0.placed,
                self@.holds == b0.holds,
                self.penalties == old(self).penalties,
                self.bonuses.rows@ == merge_claims(b0.bonus_rows, rows),
                self.bonuses.tile_types == old(self).bonuses.tile_types,
                self.bonuses.columns@ == Seq::new(
                    5,
                    |j: int|
                        if j < i {
                            b0.bonus_cols[j] || cols[j]
                        } else {
                            b0.bonus_cols[j]
                        },
                ),
                s1 <= old(self).score + 10,
                self.score == s1 + COLUMN_BONUS * newly_claimed(b0.bonus_cols, cols, i as int),
                old(self).score + 200 <= usize::MAX,
            decreases 5 - i,
        {
            proof {
                lemma_newly_le(b0.bonus_cols, cols, i as int);
            }
            if !self.bonuses.columns[i] && self.column_complete(i) {
                self.score = self.score + COLUMN_BONUS;
                self.bonuses.columns[i] = true;
            }
            i += 1;
        }
        let ghost s2 = self.score;
        proof {
            lemma_newly_le(b0.bonus_cols, cols, 5);
        }
        let mut i: usize = 0;
        while i < 5
            invariant
                i <= 5,
                b0 == old(self)@,
                b0.wf(),
                types == types_full(b0.placed),
                self@.placed == b0.placed,
                self@.holds == b0.holds,
                self.penalties == old(self).penalties,
                self.bonuses.rows@ == merge_claims(b0.bonus_rows, rows),
                self.bonuses.columns@ == merge_claims(b0.bonus_cols, cols),
                self.bonuses.tile_types@ == Seq::new(
                    5,
                    |j: int|
                        if j < i {
                            b0.bonus_types[j] || types[j]
                        } else {
                            b0.bonus_types[j]
                        },
                ),
                s2 <= old(self).score + 45,
                self.score == s2 + TILE_TYPE_BONUS * newly_claimed(b0.bonus_types, types, i as int),
                old(self).score + 200 <= usize::MAX,
            decreases 5 - i,
        {
            proof {
                lemma_newly_le(b0.bonus_types, types, i as int);
            }
            if !self.bonuses.tile_types[i] && self.tile_type_complete(i) {
                self.score = self.score + TILE_TYPE_BONUS;
                self.bonuses.tile_types[i] = true;
            }
            i += 1;
        }
        proof {
            assert(self.bonuses.tile_types@ =~= merge_claims(b0.bonus_types, types));
            assert(self@ == claim_bonuses(b0));
        }
    }

    /// Ends the round for this board: each full staging row moves one tile to its grid cell,
    /// which scores; then bonuses are claimed and penalty tiles are converted into lost points.
    pub fn place_holds(&mut self)
        requires
            old(self)@.wf(),
            old(self).score + 400 <= usize::MAX,
        ensures
            final(self)@ == finish_round(old(self)@),
            final(self)@.wf(),
    {
        let mut row_idx: usize = 0;
        while row_idx < 5
            invariant
                row_idx <= 5,
                self@ == resolve_rows(old(self)@, row_idx as int),
                self@.wf(),
                self.score <= old(self).score + 22 * row_idx,
                old(self).score + 400 <= usize::MAX,
            decreases 5 - row_idx,
        {
            self.resolve_hold_row(row_idx);
            row_idx += 1;
        }
        self.apply_uncollected_bonuses();
        let lost = Board::get_penalty_point_value(self.penalties);
        self.score = if self.score >= lost {
            self.score - lost
        } else {
            0
        };
        self.penalties = 0;
    }

    /// The board's score.
    pub fn get_score(&self) -> (r: usize)
        ensures
            r == self.score,
    {
        self.score
    }
}

impl Board {
    /// A builder for a board given field by field.
    pub fn builder() -> (r: BoardBuilder)
        ensures
            r.board@ == empty_model(),
    {
        BoardBuilder { board: Board::new() }
    }

    pub fn holds(&self) -> (r: &Grid)
        ensures
            *r == self.holds,
    {
        &self.holds
    }

    pub fn placed(&self) -> (r: &Grid)
        ensures
            *r == self.placed,
    {
        &self.placed
    }

    pub fn bonuses(&self) -> (r: &BonusTypes)
        ensures
            *r == self.bonuses,
    {
        &self.bonuses
    }

    pub fn penalties(&self) -> (r: usize)
        ensures
            r == self.penalties,
    {
        self.penalties
    }

    pub fn score(&self) -> (r: usize)
        ensures
            r == self.score,
    {
        self.score
    }
}

/// Collects the fields of a board, starting from an empty one.
pub struct BoardBuilder {
    pub board: Board,
}

impl BoardBuilder {
    pub fn holds(self, holds: Grid) -> (r: BoardBuilder)
        ensures
            r.board == (Board { holds, ..self.board }),
    {
        BoardBuilder { board: Board { holds, ..self.board } }
    }

    pub fn placed(self, placed: Grid) -> (r: BoardBuilder)
        ensures
            r.board == (Board { placed, ..self.board }),
    {
        BoardBuilder { board: Board { placed, ..self.board } }
    }

    pub fn bonuses(self, bonuses: BonusTypes) -> (r: BoardBuilder)
        ensures
            r.board == (Board { bonuses, ..self.board }),
    {
        BoardBuilder { board: Board { bonuses, ..self.board } }
    }

    pub fn penalties(self, penalties: usize) -> (r: BoardBuilder)
        ensures
            r.board == (Board { penalties, ..self.board }),
    {
        BoardBuilder { board: Board { penalties, ..self.board } }
    }

    pub fn score(self, score: usize) -> (r: BoardBuilder)
        ensures
            r.board == (Board { score, ..self.board }),
    {
        BoardBuilder { board: Board { score, ..self.board } }
    }

    /// The board with the collected fields.
    pub fn build(self) -> (r: Board)
        ensures
            r == self.board,
    {
        self.board
    }
}

} // verus!
