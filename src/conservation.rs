use vstd::multiset::Multiset;
use vstd::prelude::*;

use crate::board::{grid_tiles, hold_len, somes, stage, staged, BoardModel};
use crate::bowl::{by_type, count_of, grouped, only, valid_tiles, without};
use crate::game_move::{Move, Row};
use crate::gamestate::{
    apply_move, boards_count, bowls_count, legal_moves, lemma_legal_move_facts,
    lemma_legal_row_stages, moved_board, GameModel, CENTRE_BOWL_IDX,
};
use crate::Tile;

verus! {

/// The tiles of type `t` in a game: in the bag, in the pools and on the boards.
pub open spec fn total_count(g: GameModel, t: Tile) -> nat {
    count_of(g.bag, t) + bowls_count(g.bowls, t, g.bowls.len() as int) + boards_count(
        g.boards,
        t,
        g.boards.len() as int,
    )
}

/// The tiles of type `t` that a move sends out of play: those taken that do not fit in the
/// staging row (all of them on the floor).
pub open spec fn discarded(g: GameModel, m: Move, t: Tile) -> nat {
    if t != m.tile_type {
        0
    } else {
        let b = g.boards[g.active as int];
        let k = only(g.bowls[m.bowl as int], t).len();
        match m.row {
            Row::Floor => k,
            Row::Wall(i) => {
                let n = hold_len(b.holds[i as int]);
                let fit = if n + k <= i + 1 {
                    k
                } else {
                    (i + 1 - n) as nat
                };
                (k - fit) as nat
            },
        }
    }
}

pub proof fn lemma_count_concat(a: Seq<Tile>, b: Seq<Tile>, t: Tile)
    ensures
        count_of(a + b, t) == count_of(a, t) + count_of(b, t),
    decreases b.len(),
{
    if b.len() == 0 {
        assert(a + b =~= a);
    } else {
        assert((a + b).drop_last() =~= a + b.drop_last());
        lemma_count_concat(a, b.drop_last(), t);
    }
}

pub proof fn lemma_count_single(x: Tile, t: Tile)
    ensures
        count_of(seq![x], t) == if x == t {
            1nat
        } else {
            0nat
        },
{
    assert(seq![x].drop_last() =~= Seq::<Tile>::empty());
    assert(only(Seq::<Tile>::empty(), t) =~= Seq::<Tile>::empty());
}

pub proof fn lemma_count_split(s: Seq<Tile>, u: Tile, t: Tile)
    ensures
        count_of(s, t) == count_of(only(s, u), t) + count_of(without(s, u), t),
    decreases s.len(),
{
    if s.len() > 0 {
        let a = s.drop_last();
        lemma_count_split(a, u, t);
        let x = s.last();
        let oa = only(a, u);
        let wa = without(a, u);
        lemma_count_single(x, t);
        if x == u {
            lemma_count_concat(oa, seq![u], t);
            assert(without(s, u) =~= wa);
        } else {
            lemma_count_concat(wa, seq![x], t);
            assert(only(s, u) =~= oa);
        }
    }
}

pub proof fn lemma_count_only(s: Seq<Tile>, u: Tile, t: Tile)
    ensures
        count_of(only(s, u), t) == if t == u {
            count_of(s, t)
        } else {
            0
        },
    decreases s.len(),
{
    if s.len() > 0 {
        let a = s.drop_last();
        lemma_count_only(a, u, t);
        lemma_count_single(s.last(), t);
        if s.last() == u {
            lemma_count_concat(only(a, u), seq![u], t);
        } else {
            assert(only(s, u) =~= only(a, u));
        }
    }
}

pub proof fn lemma_count_grouped(s: Seq<Tile>, n: int, t: Tile)
    requires
        0 <= n <= 5,
    ensures
        count_of(grouped(s, n), t) == if t < n {
            count_of(s, t)
        } else {
            0
        },
    decreases n,
{
    if n > 0 {
        lemma_count_grouped(s, n - 1, t);
        lemma_count_concat(grouped(s, n - 1), only(s, (n - 1) as Tile), t);
        lemma_count_only(s, (n - 1) as Tile, t);
    }
}

pub proof fn lemma_count_invalid(s: Seq<Tile>, t: Tile)
    requires
        valid_tiles(s),
        t >= 5,
    ensures
        count_of(s, t) == 0,
    decreases s.len(),
{
    if s.len() > 0 {
        let a = s.drop_last();
        assert(valid_tiles(a)) by {
            assert forall|i: int| 0 <= i < a.len() implies #[trigger] a[i] < 5 by {
                assert(a[i] == s[i]);
            }
        }
        lemma_count_invalid(a, t);
        assert(s.last() < 5);
    }
}

/// Sorting a pool by type keeps the count of every type.
pub proof fn lemma_count_by_type(s: Seq<Tile>, t: Tile)
    requires
        valid_tiles(s),
    ensures
        count_of(by_type(s), t) == count_of(s, t),
{
    lemma_count_grouped(s, 5, t);
    if t >= 5 {
        lemma_count_invalid(s, t);
    }
}

pub proof fn lemma_bowls_count_update(bs: Seq<Seq<Tile>>, k: int, x: Seq<Tile>, t: Tile, n: int)
    requires
        0 <= k < n <= bs.len(),
    ensures
        bowls_count(bs.update(k, x), t, n) + count_of(bs[k], t) == bowls_count(bs, t, n) + count_of(x, t),
    decreases n,
{
    if n - 1 > k {
        lemma_bowls_count_update(bs, k, x, t, n - 1);
    } else {
        lemma_bowls_count_same(bs, bs.update(k, x), t, n - 1);
    }
}

pub proof fn lemma_bowls_count_same(a: Seq<Seq<Tile>>, b: Seq<Seq<Tile>>, t: Tile, n: int)
    requires
        0 <= n <= a.len(),
        n <= b.len(),
        forall|j: int| 0 <= j < n ==> a[j] == b[j],
    ensures
        bowls_count(a, t, n) == bowls_count(b, t, n),
    decreases n,
{
    if n > 0 {
        lemma_bowls_count_same(a, b, t, n - 1);
    }
}

pub proof fn lemma_boards_count_update(bs: Seq<BoardModel>, k: int, x: BoardModel, t: Tile, n: int)
    requires
        0 <= k < n <= bs.len(),
    ensures
        boards_count(bs.update(k, x), t, n) + count_of(bs[k].tiles(), t) == boards_count(bs, t, n)
            + count_of(x.tiles(), t),
    decreases n,
{
    if n - 1 > k {
        lemma_boards_count_update(bs, k, x, t, n - 1);
    } else {
        lemma_boards_count_same(bs, bs.update(k, x), t, n - 1);
    }
}

pub proof fn lemma_boards_count_same(a: Seq<BoardModel>, b: Seq<BoardModel>, t: Tile, n: int)
    requires
        0 <= n <= a.len(),
        n <= b.len(),
        forall|j: int| 0 <= j < n ==> a[j] == b[j],
    ensures
        boards_count(a, t, n) == boards_count(b, t, n),
    decreases n,
{
    if n > 0 {
        lemma_boards_count_same(a, b, t, n - 1);
    }
}

pub proof fn lemma_somes_staged(u: Tile, n: int, j: int, t: Tile)
    requires
        0 <= n <= 5,
        0 <= j <= 5,
    ensures
        count_of(somes(staged(u, n).take(j)), t) == if t == u {
            if j < n {
                j
            } else {
                n
            }
        } else {
            0
        },
    decreases j,
{
    let row = staged(u, n);
    if j > 0 {
        lemma_somes_staged(u, n, j - 1, t);
        assert(row.take(j).drop_last() =~= row.take(j - 1));
        let a = somes(row.take(j - 1));
        assert(row.take(j).last() == row[j - 1]);
        if j - 1 < n {
            lemma_count_concat(a, seq![u], t);
            lemma_count_single(u, t);
            assert(somes(row.take(j)) =~= a + seq![u]);
        } else {
            assert(somes(row.take(j)) =~= a);
        }
    } else {
        assert(row.take(0) =~= Seq::<Option<Tile>>::empty());
        assert(only(Seq::<Tile>::empty(), t) =~= Seq::<Tile>::empty());
    }
}

pub proof fn lemma_grid_count_update(
    h: Seq<Seq<Option<Tile>>>,
    i: int,
    r: Seq<Option<Tile>>,
    t: Tile,
    n: int,
)
    requires
        0 <= i < n <= h.len(),
    ensures
        count_of(grid_tiles(h.update(i, r), n), t) + count_of(somes(h[i]), t) == count_of(
            grid_tiles(h, n),
            t,
        ) + count_of(somes(r), t),
    decreases n,
{
    let h2 = h.update(i, r);
    lemma_count_concat(grid_tiles(h2, n - 1), somes(h2[n - 1]), t);
    lemma_count_concat(grid_tiles(h, n - 1), somes(h[n - 1]), t);
    if n - 1 > i {
        lemma_grid_count_update(h, i, r, t, n - 1);
    } else {
        lemma_grid_same(h, h2, n - 1);
    }
}

pub proof fn lemma_grid_same(a: Seq<Seq<Option<Tile>>>, b: Seq<Seq<Option<Tile>>>, n: int)
    requires
        0 <= n <= a.len(),
        n <= b.len(),
        forall|j: int| 0 <= j < n ==> a[j] == b[j],
    ensures
        grid_tiles(a, n) == grid_tiles(b, n),
    decreases n,
{
    if n > 0 {
        lemma_grid_same(a, b, n - 1);
    }
}

/// Staging moves the tiles that fit into the staging row; the board gains exactly those.
pub proof fn lemma_stage_count(b: BoardModel, u: Tile, k: nat, row: Row, extra: nat, t: Tile)
    requires
        b.wf(),
        stage(b, u, k, row, extra) is Some,
    ensures
        ({
            let nb = stage(b, u, k, row, extra)->Some_0;
            let gained: nat = match row {
                Row::Floor => 0,
                Row::Wall(i) => {
                    let n = hold_len(b.holds[i as int]);
                    if n + k <= i + 1 {
                        k
                    } else {
                        (i + 1 - n) as nat
                    }
                },
            };
            count_of(nb.tiles(), t) == count_of(b.tiles(), t) + if t == u {
                gained
            } else {
                0
            }
        }),
{
    match row {
        Row::Floor => {},
        Row::Wall(i) => {
            let old_row = b.holds[i as int];
            let n = hold_len(old_row);
            let m = crate::board::min_int((n + k) as int, i + 1);
            let nb = stage(b, u, k, row, extra)->Some_0;
            crate::board::lemma_hold_len_staged(crate::board::hold_kind(old_row), n as int);
            assert(old_row == staged(crate::board::hold_kind(old_row), n as int));
            lemma_grid_count_update(b.holds, i as int, staged(u, m), t, 5);
            assert(staged(u, m).take(5) =~= staged(u, m));
            assert(old_row.take(5) =~= old_row);
            lemma_somes_staged(u, m, 5, t);
            lemma_somes_staged(crate::board::hold_kind(old_row), n as int, 5, t);
            if n == 0 {
                assert(old_row =~= staged(u, 0));
                lemma_somes_staged(u, 0, 5, t);
            }
            lemma_count_concat(grid_tiles(nb.holds, 5), grid_tiles(nb.placed, 5), t);
            lemma_count_concat(grid_tiles(b.holds, 5), grid_tiles(b.placed, 5), t);
        },
    }
}

/// Tile conservation over a move: a move creates no tile, and it takes out of play exactly
/// the tiles that it discards; every other tile is in the bag, a pool or on a board before
/// and after.
pub proof fn lemma_move_conserves_tiles(g: GameModel, m: Move, t: Tile)
    requires
        g.wf(),
        legal_moves(g).contains(m),
    ensures
        total_count(apply_move(g, m), t) + discarded(g, m, t) == total_count(g, t),
{
    lemma_legal_move_facts(g, m, g.bowls.len() as int);
    let k = m.bowl as int;
    let u = m.tile_type;
    let s = g.bowls[k];
    let taken = only(s, u);
    let rest = without(s, u);
    let g2 = apply_move(g, m);
    let emptied = g.bowls.update(k, seq![]);
    let extra: nat = if crate::gamestate::first_centre_pick(g, k) {
        1
    } else {
        0
    };
    let b = g.boards[g.active as int];
    lemma_legal_row_stages(b, u, taken.len(), m.row, extra);
    lemma_stage_count(b, u, taken.len(), m.row, extra, t);
    // boards
    lemma_boards_count_update(g.boards, g.active as int, moved_board(g, m), t, g.boards.len() as int);
    // pools: empty the chosen one, then sort the remainder into the centre
    let nbw = g.bowls.len() as int;
    lemma_bowls_count_update(g.bowls, k, seq![], t, nbw);
    assert(count_of(Seq::<Tile>::empty(), t) == 0);
    crate::bowl::lemma_only_valid(s, u);
    assert(valid_tiles(emptied[0])) by {
        if k != 0 {
            assert(emptied[0] == g.bowls[0]);
        } else {
            assert(emptied[0] =~= Seq::<Tile>::empty());
        }
    }
    assert(valid_tiles(emptied[0] + rest)) by {
        assert forall|i: int| 0 <= i < (emptied[0] + rest).len() implies #[trigger] (emptied[0] + rest)[i] < 5 by {
            if i < emptied[0].len() {
                assert((emptied[0] + rest)[i] == emptied[0][i]);
            } else {
                assert((emptied[0] + rest)[i] == rest[i - emptied[0].len()]);
            }
        }
    }
    lemma_count_by_type(emptied[0] + rest, t);
    lemma_count_concat(emptied[0], rest, t);
    lemma_bowls_count_update(emptied, CENTRE_BOWL_IDX as int, by_type(emptied[0] + rest), t, nbw);
    lemma_count_split(s, u, t);
    lemma_count_only(s, u, t);
}

/// The count of a type is the multiplicity in the sequence's multiset.
pub proof fn lemma_count_multiset(s: Seq<Tile>, t: Tile)
    ensures
        count_of(s, t) == s.to_multiset().count(t),
    decreases s.len(),
{
    if s.len() == 0 {
        assert(s.to_multiset() =~= Multiset::<Tile>::empty()) by {
            s.to_multiset_ensures();
        }
    } else {
        let a = s.drop_last();
        lemma_count_multiset(a, t);
        a.to_multiset_ensures();
        assert(a.push(s.last()) =~= s);
        lemma_count_single(s.last(), t);
        lemma_count_concat(a, seq![s.last()], t);
        assert(a + seq![s.last()] =~= s);
    }
}

/// Items drawn from the end of a sequence, with what is left, hold the same tiles.
pub proof fn lemma_draw_count(old: Seq<Tile>, left: Seq<Tile>, drawn: Seq<Tile>, t: Tile)
    requires
        drawn.len() <= old.len(),
        left == old.take(old.len() - drawn.len()),
        forall|j: int| 0 <= j < drawn.len() ==> #[trigger] drawn[j] == old[old.len() - 1 - j],
    ensures
        count_of(old, t) == count_of(left, t) + count_of(drawn, t),
{
    let tail = old.skip(old.len() - drawn.len());
    assert(old =~= left + tail);
    lemma_count_concat(left, tail, t);
    assert(drawn =~= tail.reverse());
    tail.lemma_reverse_to_multiset();
    lemma_count_multiset(drawn, t);
    lemma_count_multiset(tail, t);
}

pub proof fn lemma_somes_update_count(row: Seq<Option<Tile>>, c: int, x: Tile, t: Tile, j: int)
    requires
        0 <= c < row.len(),
        0 <= j <= row.len(),
    ensures
        count_of(somes(row.update(c, Some(x)).take(j)), t) <= count_of(somes(row.take(j)), t) + if x == t
            && c < j {
            1nat
        } else {
            0nat
        },
    decreases j,
{
    let r2 = row.update(c, Some(x));
    if j == 0 {
        assert(r2.take(0) =~= row.take(0));
    } else {
        lemma_somes_update_count(row, c, x, t, j - 1);
        assert(r2.take(j).drop_last() =~= r2.take(j - 1));
        assert(row.take(j).drop_last() =~= row.take(j - 1));
        assert(r2.take(j).last() == r2[j - 1]);
        assert(row.take(j).last() == row[j - 1]);
        let a2 = somes(r2.take(j - 1));
        let a = somes(row.take(j - 1));
        match r2[j - 1] {
            Some(y) => {
                lemma_count_concat(a2, seq![y], t);
                lemma_count_single(y, t);
            },
            None => {
                assert(somes(r2.take(j)) =~= a2);
            },
        }
        match row[j - 1] {
            Some(y) => {
                lemma_count_concat(a, seq![y], t);
                lemma_count_single(y, t);
            },
            None => {
                assert(somes(row.take(j)) =~= a);
            },
        }
    }
}

/// Resolving a staging row never adds tiles to a board.
pub proof fn lemma_resolve_row_count(b: BoardModel, i: int, t: Tile)
    requires
        b.wf(),
        0 <= i < 5,
    ensures
        count_of(crate::board::resolve_row(b, i).tiles(), t) <= count_of(b.tiles(), t),
{
    let nb = crate::board::resolve_row(b, i);
    if hold_len(b.holds[i]) > i {
        let ty = crate::board::hold_kind(b.holds[i]);
        let c = crate::board::place_col(ty as int, i);
        crate::board::lemma_place_type(ty as int, i);
        let row = b.placed[i];
        let n = hold_len(b.holds[i]);
        lemma_grid_count_update(b.holds, i, staged(0, 0), t, 5);
        lemma_grid_count_update(b.placed, i, row.update(c, Some(ty)), t, 5);
        lemma_somes_update_count(row, c, ty, t, 5);
        assert(row.take(5) =~= row);
        assert(row.update(c, Some(ty)).take(5) =~= row.update(c, Some(ty)));
        lemma_somes_staged(0, 0, 5, t);
        assert(staged(0, 0).take(5) =~= staged(0, 0));
        lemma_somes_staged(ty, n as int, 5, t);
        assert(b.holds[i] == staged(ty, n as int));
        assert(staged(ty, n as int).take(5) =~= staged(ty, n as int));
        lemma_count_concat(grid_tiles(nb.holds, 5), grid_tiles(nb.placed, 5), t);
        lemma_count_concat(grid_tiles(b.holds, 5), grid_tiles(b.placed, 5), t);
    }
}

pub proof fn lemma_resolve_rows_count(b: BoardModel, n: int, t: Tile)
    requires
        b.wf(),
        0 <= n <= 5,
    ensures
        count_of(crate::board::resolve_rows(b, n).tiles(), t) <= count_of(b.tiles(), t),
        crate::board::resolve_rows(b, n).wf(),
    decreases n,
{
    if n > 0 {
        lemma_resolve_rows_count(b, n - 1, t);
        crate::board::lemma_resolve_row_wf(crate::board::resolve_rows(b, n - 1), n - 1);
        lemma_resolve_row_count(crate::board::resolve_rows(b, n - 1), n - 1, t);
    }
}

/// The end of a round never adds tiles to a board.
pub proof fn lemma_finish_round_count(b: BoardModel, t: Tile)
    requires
        b.wf(),
    ensures
        count_of(crate::board::finish_round(b).tiles(), t) <= count_of(b.tiles(), t),
{
    lemma_resolve_rows_count(b, 5, t);
}

pub proof fn lemma_count_repeat(counts: spec_fn(Tile) -> nat, k: int, t: Tile)
    requires
        0 <= k <= 5,
    ensures
        count_of(crate::gamestate::repeat_types(counts, k), t) == if t < k {
            counts(t)
        } else {
            0
        },
    decreases k,
{
    if k > 0 {
        let u = (k - 1) as Tile;
        let block = Seq::new(counts(u), |i: int| u);
        lemma_count_repeat(counts, k - 1, t);
        lemma_count_concat(crate::gamestate::repeat_types(counts, k - 1), block, t);
        lemma_count_block(u, counts(u), t);
    }
}

pub proof fn lemma_count_block(u: Tile, n: nat, t: Tile)
    ensures
        count_of(Seq::new(n, |i: int| u), t) == if t == u {
            n
        } else {
            0
        },
    decreases n,
{
    if n > 0 {
        let s = Seq::new(n, |i: int| u);
        assert(s.drop_last() =~= Seq::new((n - 1) as nat, |i: int| u));
        lemma_count_block(u, (n - 1) as nat, t);
    } else {
        assert(Seq::new(n, |i: int| u) =~= Seq::<Tile>::empty());
        assert(only(Seq::<Tile>::empty(), t) =~= Seq::<Tile>::empty());
    }
}

pub proof fn lemma_empty_bowls_count(bs: Seq<Seq<Tile>>, t: Tile, n: int)
    requires
        0 <= n <= bs.len(),
        forall|k: int| 0 <= k < n ==> #[trigger] bs[k] == Seq::<Tile>::empty(),
    ensures
        bowls_count(bs, t, n) == 0,
    decreases n,
{
    if n > 0 {
        lemma_empty_bowls_count(bs, t, n - 1);
        assert(only(Seq::<Tile>::empty(), t) =~= Seq::<Tile>::empty());
    }
}

pub proof fn lemma_empty_boards_count(bs: Seq<BoardModel>, t: Tile, n: int)
    requires
        0 <= n <= bs.len(),
        forall|k: int| 0 <= k < n ==> #[trigger] bs[k] == crate::board::empty_model(),
    ensures
        boards_count(bs, t, n) == 0,
    decreases n,
{
    if n > 0 {
        lemma_empty_boards_count(bs, t, n - 1);
        lemma_empty_board_count(t, 5);
        let e = crate::board::empty_model();
        lemma_count_concat(grid_tiles(e.holds, 5), grid_tiles(e.placed, 5), t);
    }
}

pub proof fn lemma_empty_board_count(t: Tile, n: int)
    requires
        0 <= n <= 5,
    ensures
        count_of(grid_tiles(crate::board::empty_model().holds, n), t) == 0,
        count_of(grid_tiles(crate::board::empty_model().placed, n), t) == 0,
    decreases n,
{
    if n > 0 {
        let e = crate::board::empty_model();
        lemma_empty_board_count(t, n - 1);
        lemma_somes_staged(0, 0, 5, t);
        assert(staged(0, 0).take(5) =~= staged(0, 0));
        lemma_count_concat(grid_tiles(e.holds, n - 1), somes(e.holds[n - 1]), t);
        lemma_count_concat(grid_tiles(e.placed, n - 1), somes(e.placed[n - 1]), t);
    }
}

} // verus!
