use vstd::prelude::*;

use crate::board::{
    penalty_points, claim_bonuses, finish_round, legal_rows, legal_walls, merge_claims, newly_claimed, stage,
    wall_legal, BoardModel,
};
use crate::bowl::{count_of, lemma_only_step, only, present, present_upto, valid_tiles};
use crate::game_move::{Move, Row};
use crate::gamestate::{
    apply_move, bowl_moves, first_centre_pick, legal_moves, lemma_legal_move_facts,
    lemma_legal_walls_open, moved_board, moves_for, moves_upto, GameModel,
};
use crate::Tile;

verus! {

pub proof fn lemma_newly_none(c: Seq<bool>, now: Seq<bool>, n: int)
    requires
        0 <= n <= 5,
        c.len() == 5,
        now.len() == 5,
    ensures
        newly_claimed(merge_claims(c, now), now, n) == 0,
    decreases n,
{
    if n > 0 {
        lemma_newly_none(c, now, n - 1);
    }
}

/// Bonus idempotence: a bonus pass right after another claims nothing more, awards no points
/// and leaves every flag as it was.
pub proof fn lemma_bonus_idempotent(b: BoardModel)
    requires
        b.wf(),
    ensures
        claim_bonuses(claim_bonuses(b)) == claim_bonuses(b),
{
    let once = claim_bonuses(b);
    let p = b.placed;
    lemma_newly_none(b.bonus_rows, crate::board::rows_full(p), 5);
    lemma_newly_none(b.bonus_cols, crate::board::cols_full(p), 5);
    lemma_newly_none(b.bonus_types, crate::board::types_full(p), 5);
    assert(merge_claims(once.bonus_rows, crate::board::rows_full(p)) =~= once.bonus_rows);
    assert(merge_claims(once.bonus_cols, crate::board::cols_full(p)) =~= once.bonus_cols);
    assert(merge_claims(once.bonus_types, crate::board::types_full(p)) =~= once.bonus_types);
}

/// A claimed bonus stays claimed through the end of every later round.
pub proof fn lemma_bonus_claims_kept(b: BoardModel, i: int)
    requires
        b.wf(),
        0 <= i < 5,
    ensures
        b.bonus_rows[i] ==> finish_round(b).bonus_rows[i],
        b.bonus_cols[i] ==> finish_round(b).bonus_cols[i],
        b.bonus_types[i] ==> finish_round(b).bonus_types[i],
{
    lemma_resolve_rows_keeps_claims(b, 5);
}

pub proof fn lemma_resolve_rows_keeps_claims(b: BoardModel, n: int)
    ensures
        crate::board::resolve_rows(b, n).bonus_rows == b.bonus_rows,
        crate::board::resolve_rows(b, n).bonus_cols == b.bonus_cols,
        crate::board::resolve_rows(b, n).bonus_types == b.bonus_types,
    decreases n,
{
    if n > 0 {
        lemma_resolve_rows_keeps_claims(b, n - 1);
    }
}

/// First pick from the centre: the first player to take from the centre pool in a round gets
/// the first-player token and exactly one extra penalty tile; later takers from the centre
/// get neither, and the token stays where it is.
pub proof fn lemma_centre_first_pick(g: GameModel, m: Move)
    requires
        g.wf(),
        legal_moves(g).contains(m),
        m.bowl == 0,
    ensures
        g.first is None ==> apply_move(g, m).first == Some(g.active) && stage(
            g.boards[g.active as int],
            m.tile_type,
            only(g.bowls[0], m.tile_type).len(),
            m.row,
            1,
        ) == Some(apply_move(g, m).boards[g.active as int]),
        g.first is Some ==> apply_move(g, m).first == g.first && stage(
            g.boards[g.active as int],
            m.tile_type,
            only(g.bowls[0], m.tile_type).len(),
            m.row,
            0,
        ) == Some(apply_move(g, m).boards[g.active as int]),
{
    lemma_legal_move_facts(g, m, g.bowls.len() as int);
    crate::gamestate::lemma_legal_row_stages(
        g.boards[g.active as int],
        m.tile_type,
        only(g.bowls[0], m.tile_type).len(),
        m.row,
        if g.first is None {
            1
        } else {
            0
        },
    );
}

/// A tile that occurs in a sequence is counted.
pub proof fn lemma_count_pos(s: Seq<Tile>, i: int)
    requires
        0 <= i < s.len(),
    ensures
        count_of(s, s[i]) > 0,
    decreases s.len(),
{
    if i < s.len() - 1 {
        lemma_count_pos(s.drop_last(), i);
    }
}

pub proof fn lemma_present_empty(s: Seq<Tile>, n: int)
    requires
        0 <= n <= 5,
    ensures
        present_upto(s, n).len() == 0 <==> forall|t: Tile| t < n ==> count_of(s, t) == 0,
    decreases n,
{
    if n > 0 {
        lemma_present_empty(s, n - 1);
        if present_upto(s, n).len() == 0 {
            assert forall|t: Tile| t < n implies count_of(s, t) == 0 by {
                if t < n - 1 {
                } else {
                    assert(t == n - 1);
                }
            }
        }
    }
}

pub proof fn lemma_bowl_moves_empty(b: BoardModel, k: usize, types: Seq<Tile>, n: int)
    requires
        0 <= n <= types.len(),
    ensures
        bowl_moves(b, k, types, n).len() == 0 <==> n == 0,
    decreases n,
{
    if n > 0 {
        lemma_bowl_moves_empty(b, k, types, n - 1);
        assert(legal_rows(b, types[n - 1]).len() > 0);
        assert(moves_for(k, types[n - 1], legal_rows(b, types[n - 1])).len() > 0);
    }
}

pub proof fn lemma_moves_upto_empty(g: GameModel, n: int)
    requires
        g.wf(),
        0 <= n <= g.bowls.len(),
    ensures
        moves_upto(g, n).len() == 0 <==> forall|k: int| 0 <= k < n ==> (#[trigger] g.bowls[k]).len() == 0,
    decreases n,
{
    if n > 0 {
        let k = n - 1;
        lemma_moves_upto_empty(g, k);
        let s = g.bowls[k];
        lemma_bowl_moves_empty(g.boards[g.active as int], k as usize, present(s), present(s).len() as int);
        lemma_present_empty(s, 5);
        if s.len() > 0 {
            lemma_count_pos(s, 0);
            assert(s[0] < 5);
        } else {
            assert forall|t: Tile| t < 5 implies count_of(s, t) == 0 by {
            }
        }
        if moves_upto(g, n).len() == 0 {
            assert(moves_upto(g, k).len() == 0);
        }
    }
}

/// Legal-move totality: there is no legal move exactly when every pool is empty.
pub proof fn lemma_no_moves_iff_round_over(g: GameModel)
    requires
        g.wf(),
    ensures
        legal_moves(g).len() == 0 <==> forall|k: int| 0 <= k < g.bowls.len() ==> (#[trigger] g.bowls[k]).len() == 0,
{
    lemma_moves_upto_empty(g, g.bowls.len() as int);
}

/// No legal move puts tiles on a wall row whose grid cell is already filled or whose staging
/// row holds another tile type.
pub proof fn lemma_legal_walls_only(g: GameModel, m: Move)
    requires
        g.wf(),
        legal_moves(g).contains(m),
    ensures
        m.row matches Row::Wall(i) ==> {
            let b = g.boards[g.active as int];
            &&& i < 5
            &&& b.placed[i as int][crate::board::place_col(m.tile_type as int, i as int)] is None
            &&& (crate::board::hold_len(b.holds[i as int]) == 0 || crate::board::hold_kind(
                b.holds[i as int],
            ) == m.tile_type)
        },
{
    lemma_legal_move_facts(g, m, g.bowls.len() as int);
    let b = g.boards[g.active as int];
    if let Row::Wall(i) = m.row {
        let rows = legal_rows(b, m.tile_type);
        let j = choose|j: int| 0 <= j < rows.len() && rows[j] == m.row;
        assert(j < legal_walls(b, m.tile_type, 5).len());
        assert(legal_walls(b, m.tile_type, 5)[j] == m.row);
        lemma_legal_walls_open(b, m.tile_type, 5, i);
    }
}

/// Placement geometry: a tile of type `t` in grid row `r` can only be in column
/// `(t + r) mod 5`, so no grid row holds two tiles of one type.
pub proof fn lemma_placement_geometry(b: BoardModel, r: int, c: int, c2: int)
    requires
        b.wf(),
        0 <= r < 5,
        0 <= c < 5,
        0 <= c2 < 5,
        b.placed[r][c] is Some,
        b.placed[r][c2] == b.placed[r][c],
    ensures
        c == crate::board::place_col(b.placed[r][c]->Some_0 as int, r),
        c == c2,
{
    let t = b.placed[r][c]->Some_0 as int;
    assert(t == crate::board::type_at(r, c));
    assert(t == crate::board::type_at(r, c2));
    assert(c == (t + r) % 5);
    assert(c2 == (t + r) % 5);
}

/// Penalty tiles beyond the table's seven entries cost nothing more: any number from seven
/// on costs the whole table, fourteen points.
pub proof fn lemma_penalty_cap(n: nat)
    requires
        n >= 7,
    ensures
        penalty_points(n) == 14,
{
    reveal_with_fuel(penalty_points, 8);
    assert(penalty_points(7) == 14);
}

} // verus!
