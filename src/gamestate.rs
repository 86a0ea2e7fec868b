use vstd::prelude::*;

use crate::bag::Bag;
use crate::board::{
    finish_round, full_rows, legal_rows, legal_walls, stage, wall_legal, Board, BoardModel,
};
use crate::bowl::{
    by_type, count_of, lemma_grouped_valid, lemma_only_len, lemma_only_valid, only, present,
    present_upto, valid_tiles, without, Bowl,
};
use crate::game_move::{IllegalMoveError, Move, Row};
use crate::Tile;

verus! {

/// How many tiles of each type the game holds.
pub const TILES_PER_TYPE: usize = 20;

/// How many tiles each display pool gets at the start of a round.
pub const BOWL_CAPACITY: usize = 4;

/// The index of the centre pool, which is never refilled from the bag.
pub const CENTRE_BOWL_IDX: usize = 0;

/// The whole state of a game.
#[derive(Debug)]
pub struct GameState {
    active_player: usize,
    boards: Vec<Board>,
    bowls: Vec<Bowl>,
    bag: Bag<Tile>,
    first_token_owner: Option<usize>,
}

/// The mathematical content of a game.
pub struct GameModel {
    pub active: usize,
    pub boards: Seq<BoardModel>,
    pub bowls: Seq<Seq<Tile>>,
    pub bag: Seq<Tile>,
    pub first: Option<usize>,
}

impl View for GameState {
    type V = GameModel;

    closed spec fn view(&self) -> GameModel {
        GameModel {
            active: self.active_player,
            boards: self.boards@.map_values(|b: Board| b@),
            bowls: self.bowls@.map_values(|w: Bowl| w@),
            bag: self.bag@,
            first: self.first_token_owner,
        }
    }
}

impl GameModel {
    pub open spec fn wf(self) -> bool {
        &&& self.boards.len() >= 1
        &&& self.active < self.boards.len()
        &&& self.bowls.len() == 2 * self.boards.len() + 2
        &&& self.bowls.len() <= usize::MAX
        &&& forall|i: int| 0 <= i < self.boards.len() ==> (#[trigger] self.boards[i]).wf()
        &&& forall|i: int|
            0 <= i < self.boards.len() ==> (#[trigger] self.boards[i]).score <= usize::MAX
                && self.boards[i].penalties <= usize::MAX
        &&& forall|k: int| 0 <= k < self.bowls.len() ==> valid_tiles(#[trigger] self.bowls[k])
        &&& forall|k: int| 0 <= k < self.bowls.len() ==> crate::bowl::sorted_tiles(#[trigger] self.bowls[k])
        &&& valid_tiles(self.bag)
        &&& match self.first {
            Some(p) => p < self.boards.len(),
            None => true,
        }
    }
}

/// The number of display pools for `players` players: one centre pool and `2 * players + 1`
/// others.
pub open spec fn bowl_count(players: int) -> int {
    2 * players + 2
}

/// The moves taking type `t` from pool `k` to each of `rows`.
pub open spec fn moves_for(k: usize, t: Tile, rows: Seq<Row>) -> Seq<Move> {
    Seq::new(rows.len(), |j: int| Move { bowl: k, tile_type: t, row: rows[j] })
}

/// The moves from pool `k` for the first `n` of `types`.
pub open spec fn bowl_moves(b: BoardModel, k: usize, types: Seq<Tile>, n: int) -> Seq<Move>
    decreases n,
{
    if n <= 0 {
        seq![]
    } else {
        bowl_moves(b, k, types, n - 1) + moves_for(k, types[n - 1], legal_rows(b, types[n - 1]))
    }
}

/// The moves of the active player from the first `n` pools.
pub open spec fn moves_upto(g: GameModel, n: int) -> Seq<Move>
    decreases n,
{
    if n <= 0 {
        seq![]
    } else {
        let k = n - 1;
        moves_upto(g, k) + bowl_moves(
            g.boards[g.active as int],
            k as usize,
            present(g.bowls[k]),
            present(g.bowls[k]).len() as int,
        )
    }
}

/// The legal moves: each pool in order, each tile type present in it in increasing order, each
/// row open to that type on the active player's board.
pub open spec fn legal_moves(g: GameModel) -> Seq<Move> {
    moves_upto(g, g.bowls.len() as int)
}

/// Whether pool `k` is the centre and nobody has taken from it yet this round.
pub open spec fn first_centre_pick(g: GameModel, k: int) -> bool {
    k == CENTRE_BOWL_IDX && g.first is None
}

/// The board of the active player after a legal move.
pub open spec fn moved_board(g: GameModel, m: Move) -> BoardModel {
    let b = g.boards[g.active as int];
    let taken = only(g.bowls[m.bowl as int], m.tile_type);
    match stage(
        b,
        m.tile_type,
        taken.len(),
        m.row,
        if first_centre_pick(g, m.bowl as int) {
            1
        } else {
            0
        },
    ) {
        Some(nb) => nb,
        None => b,
    }
}

/// The state after a legal move: the chosen pool is emptied, its tiles of the chosen type are
/// staged on the active board, the others go to the centre pool, the first taker from the
/// centre gets the first-player token and one penalty tile, and the turn passes on.
pub open spec fn apply_move(g: GameModel, m: Move) -> GameModel {
    let k = m.bowl as int;
    let rest = without(g.bowls[k], m.tile_type);
    let emptied = g.bowls.update(k, seq![]);
    GameModel {
        active: if g.active + 1 >= g.boards.len() {
            0
        } else {
            (g.active + 1) as usize
        },
        boards: g.boards.update(g.active as int, moved_board(g, m)),
        bowls: emptied.update(CENTRE_BOWL_IDX as int, by_type(emptied[CENTRE_BOWL_IDX as int] + rest)),
        bag: g.bag,
        first: if first_centre_pick(g, k) {
            Some(g.active)
        } else {
            g.first
        },
    }
}

/// Room for the penalty tiles that a move can add.
pub open spec fn move_headroom(g: GameModel, m: Move) -> bool {
    m.bowl < g.bowls.len() ==> g.boards[g.active as int].penalties + g.bowls[m.bowl as int].len()
        + 1 <= usize::MAX
}

/// Every pool but the centre is empty, as at the end of a round.
pub open spec fn pools_empty(g: GameModel) -> bool {
    forall|k: int| 1 <= k < g.bowls.len() ==> (#[trigger] g.bowls[k]).len() == 0
}

/// Room for the points that the end of a round can add.
pub open spec fn round_headroom(g: GameModel) -> bool {
    forall|i: int| 0 <= i < g.boards.len() ==> (#[trigger] g.boards[i]).score + 400 <= usize::MAX
}

/// The tiles of a type on the given boards.
pub open spec fn boards_count(boards: Seq<BoardModel>, t: Tile, n: int) -> nat
    decreases n,
{
    if n <= 0 {
        0
    } else {
        boards_count(boards, t, n - 1) + count_of(boards[n - 1].tiles(), t)
    }
}

/// The tiles of a type in the given pools.
pub open spec fn bowls_count(bowls: Seq<Seq<Tile>>, t: Tile, n: int) -> nat
    decreases n,
{
    if n <= 0 {
        0
    } else {
        bowls_count(bowls, t, n - 1) + count_of(bowls[n - 1], t)
    }
}

/// The tiles of type `t` in play: on the boards, in the pools and in `drawn`.
pub open spec fn in_play(boards: Seq<BoardModel>, bowls: Seq<Seq<Tile>>, drawn: Seq<Tile>, t: Tile) -> nat {
    boards_count(boards, t, boards.len() as int) + bowls_count(bowls, t, bowls.len() as int)
        + count_of(drawn, t)
}

/// `n` copies of each type below `k`, grouped by type.
pub open spec fn repeat_types(counts: spec_fn(Tile) -> nat, k: int) -> Seq<Tile>
    decreases k,
{
    if k <= 0 {
        seq![]
    } else {
        repeat_types(counts, k - 1) + Seq::new(counts((k - 1) as Tile), |i: int| (k - 1) as Tile)
    }
}

/// The full supply: twenty tiles of each type, grouped by type.
pub open spec fn default_tileset() -> Seq<Tile> {
    repeat_types(|t: Tile| TILES_PER_TYPE as nat, 5)
}

/// The lexicographic order of (score, completed rows) that decides the winner.
pub open spec fn key_less(a: BoardModel, b: BoardModel) -> bool {
    a.score < b.score || (a.score == b.score && full_rows(a.placed, 5) < full_rows(b.placed, 5))
}

pub proof fn lemma_repeat_valid(counts: spec_fn(Tile) -> nat, k: int)
    requires
        k <= 5,
    ensures
        valid_tiles(repeat_types(counts, k)),
    decreases k,
{
    if k > 0 {
        lemma_repeat_valid(counts, k - 1);
        let a = repeat_types(counts, k - 1);
        let b = Seq::new(counts((k - 1) as Tile), |i: int| (k - 1) as Tile);
        assert forall|i: int| 0 <= i < repeat_types(counts, k).len() implies #[trigger] repeat_types(
            counts,
            k,
        )[i] < 5 by {
            if i < a.len() {
                assert(repeat_types(counts, k)[i] == a[i]);
            } else {
                assert(repeat_types(counts, k)[i] == b[i - a.len()]);
            }
        }
    }
}

pub proof fn lemma_present_valid(s: Seq<Tile>, n: int)
    requires
        n <= 5,
    ensures
        valid_tiles(present_upto(s, n)),
        forall|i: int|
            0 <= i < present_upto(s, n).len() ==> count_of(s, #[trigger] present_upto(s, n)[i]) > 0,
    decreases n,
{
    if n > 0 {
        lemma_present_valid(s, n - 1);
        let a = present_upto(s, n - 1);
        assert forall|i: int| 0 <= i < present_upto(s, n).len() implies #[trigger] present_upto(
            s,
            n,
        )[i] < 5 && count_of(s, present_upto(s, n)[i]) > 0 by {
            if i < a.len() {
                assert(present_upto(s, n)[i] == a[i]);
            }
        }
    }
}

pub proof fn lemma_valid_perm(a: Seq<Tile>, b: Seq<Tile>)
    requires
        valid_tiles(a),
        a.to_multiset() == b.to_multiset(),
    ensures
        valid_tiles(b),
{
    a.to_multiset_ensures();
    b.to_multiset_ensures();
    assert forall|i: int| 0 <= i < b.len() implies #[trigger] b[i] < 5 by {
        assert(b.contains(b[i]));
        assert(b.to_multiset().count(b[i]) > 0);
        assert(a.to_multiset().count(b[i]) > 0);
        assert(a.contains(b[i]));
        let j = choose|j: int| 0 <= j < a.len() && a[j] == b[i];
        assert(a[j] < 5);
    }
}

/// Every legal move names an existing pool, a tile type present in it, and a row open to
/// that type on the active board.
pub proof fn lemma_legal_move_facts(g: GameModel, m: Move, n: int)
    requires
        g.wf(),
        0 <= n <= g.bowls.len(),
        moves_upto(g, n).contains(m),
    ensures
        m.bowl < n,
        m.tile_type < 5,
        count_of(g.bowls[m.bowl as int], m.tile_type) > 0,
        legal_rows(g.boards[g.active as int], m.tile_type).contains(m.row),
    decreases n,
{
    let a = moves_upto(g, n - 1);
    let k = n - 1;
    let types = present(g.bowls[k]);
    let b = bowl_moves(g.boards[g.active as int], k as usize, types, types.len() as int);
    let i = choose|i: int| 0 <= i < moves_upto(g, n).len() && moves_upto(g, n)[i] == m;
    if i < a.len() {
        assert(a[i] == m);
        lemma_legal_move_facts(g, m, n - 1);
    } else {
        assert(b[i - a.len()] == m);
        lemma_present_valid(g.bowls[k], 5);
        lemma_bowl_moves_facts(g.boards[g.active as int], k as usize, types, types.len() as int, m);
        let j = choose|j: int| 0 <= j < types.len() && types[j] == m.tile_type;
        assert(present_upto(g.bowls[k], 5)[j] == m.tile_type);
    }
}

pub proof fn lemma_bowl_moves_facts(b: BoardModel, k: usize, types: Seq<Tile>, n: int, m: Move)
    requires
        0 <= n <= types.len(),
        bowl_moves(b, k, types, n).contains(m),
    ensures
        m.bowl == k,
        exists|j: int| 0 <= j < n && types[j] == m.tile_type,
        legal_rows(b, m.tile_type).contains(m.row),
    decreases n,
{
    let a = bowl_moves(b, k, types, n - 1);
    let rows = legal_rows(b, types[n - 1]);
    let c = moves_for(k, types[n - 1], rows);
    let i = choose|i: int| 0 <= i < bowl_moves(b, k, types, n).len() && bowl_moves(b, k, types, n)[i] == m;
    if i < a.len() {
        assert(a[i] == m);
        lemma_bowl_moves_facts(b, k, types, n - 1, m);
    } else {
        assert(c[i - a.len()] == m);
        assert(rows[i - a.len()] == m.row);
        assert(types[n - 1] == m.tile_type);
    }
}

/// A wall row in the legal rows is open.
pub proof fn lemma_legal_walls_open(b: BoardModel, t: Tile, n: int, i: usize)
    requires
        n <= 5,
        legal_walls(b, t, n).contains(Row::Wall(i)),
    ensures
        i < n,
        wall_legal(b, t, i as int),
    decreases n,
{
    if n > 0 {
        let a = legal_walls(b, t, n - 1);
        let j = choose|j: int| 0 <= j < legal_walls(b, t, n).len() && legal_walls(b, t, n)[j] == Row::Wall(i);
        if j < a.len() {
            assert(a[j] == Row::Wall(i));
            lemma_legal_walls_open(b, t, n - 1, i);
        } else if wall_legal(b, t, n - 1) {
            assert(legal_walls(b, t, n)[j] == seq![Row::Wall((n - 1) as usize)][j - a.len()]);
        } else {
            assert(legal_walls(b, t, n) =~= a);
        }
    }
}

/// Staging on a legal row always succeeds.
pub proof fn lemma_legal_row_stages(b: BoardModel, t: Tile, k: nat, row: Row, extra: nat)
    requires
        b.wf(),
        legal_rows(b, t).contains(row),
    ensures
        stage(b, t, k, row, extra) is Some,
{
    match row {
        Row::Floor => {},
        Row::Wall(i) => {
            let j = choose|j: int| 0 <= j < legal_rows(b, t).len() && legal_rows(b, t)[j] == row;
            assert(j < legal_walls(b, t, 5).len());
            assert(legal_walls(b, t, 5)[j] == row);
            assert(legal_walls(b, t, 5).contains(row));
            lemma_legal_walls_open(b, t, 5, i);
        },
    }
}

/// Fills `v` with `count` copies of `t`.
fn push_copies(v: &mut Vec<Tile>, t: Tile, count: usize)
    ensures
        final(v)@ == old(v)@ + Seq::new(count as nat, |i: int| t),
{
    let ghost start = v@;
    let mut i: usize = 0;
    while i < count
        invariant
            i <= count,
            v@ == start + Seq::new(i as nat, |j: int| t),
        decreases count - i,
    {
        v.push(t);
        i += 1;
        assert(v@ =~= start + Seq::new(i as nat, |j: int| t));
    }
}

/// Bowl formula: `2n + 1` pools, and the centre.
fn get_bowl_count(players: usize) -> (r: usize)
    requires
        2 * players + 2 <= usize::MAX,
    ensures
        r == bowl_count(players as int),
{
    players * 2 + 2
}

/// The full supply of tiles, grouped by type.
fn get_default_tileset() -> (r: Vec<Tile>)
    ensures
        r@ == default_tileset(),
{
    let mut tiles: Vec<Tile> = Vec::new();
    let mut t: usize = 0;
    while t < 5
        invariant
            t <= 5,
            tiles@ == repeat_types(|t: Tile| TILES_PER_TYPE as nat, t as int),
        decreases 5 - t,
    {
        push_copies(&mut tiles, t, TILES_PER_TYPE);
        t += 1;
    }
    tiles
}

/// The number of tiles of type `t` in `v`.
fn count_type(v: &Vec<Tile>, t: Tile) -> (r: usize)
    ensures
        r == count_of(v@, t),
{
    let mut n: usize = 0;
    let mut i: usize = 0;
    while i < v.len()
        invariant
            i <= v.len(),
            n == count_of(v@.take(i as int), t),
            n <= i,
        decreases v.len() - i,
    {
        proof {
            crate::bowl::lemma_only_step(v@, i as int, t);
        }
        if v[i] == t {
            n += 1;
        }
        i += 1;
    }
    assert(v@.take(v.len() as int) =~= v@);
    n
}

impl GameState {
    /// A new game for `players` players: empty boards and pools, and a full shuffled bag.
    pub fn new(players: usize) -> (r: GameState)
        requires
            players >= 1,
            2 * players + 2 <= usize::MAX,
        ensures
            r@.wf(),
            r@.active == 0,
            r@.first is None,
            r@.boards.len() == players,
            forall|i: int| 0 <= i < players ==> #[trigger] r@.boards[i] == crate::board::empty_model(),
            r@.bowls.len() == bowl_count(players as int),
            forall|k: int| 0 <= k < r@.bowls.len() ==> #[trigger] r@.bowls[k] == Seq::<Tile>::empty(),
            r@.bag.to_multiset() == default_tileset().to_multiset(),
            forall|t: Tile|
                #[trigger] crate::conservation::total_count(r@, t) == if t < 5 {
                    TILES_PER_TYPE as nat
                } else {
                    0
                },
    {
        let mut boards: Vec<Board> = Vec::new();
        let mut i: usize = 0;
        while i < players
            invariant
                i <= players,
                boards@.len() == i,
                forall|j: int| 0 <= j < i ==> #[trigger] boards@[j]@ == crate::board::empty_model(),
            decreases players - i,
        {
            boards.push(Board::new());
            i += 1;
        }
        let count = get_bowl_count(players);
        let mut bowls: Vec<Bowl> = Vec::new();
        let mut k: usize = 0;
        while k < count
            invariant
                k <= count,
                bowls@.len() == k,
                forall|j: int| 0 <= j < k ==> #[trigger] bowls@[j]@ == Seq::<Tile>::empty(),
            decreases count - k,
        {
            bowls.push(Bowl::new());
            k += 1;
        }
        let tiles = get_default_tileset();
        proof {
            lemma_repeat_valid(|t: Tile| TILES_PER_TYPE as nat, 5);
        }
        let bag = Bag::new(tiles);
        proof {
            lemma_valid_perm(tiles@, bag@);
            crate::board::lemma_hold_len_staged(0, 0);
        }
        let r = GameState { active_player: 0, boards, bowls, bag, first_token_owner: None };
        proof {
            assert forall|i: int| 0 <= i < r@.boards.len() implies (#[trigger] r@.boards[i]).wf() by {
                assert(r@.boards[i] == crate::board::empty_model());
                assert(crate::board::staged(0, 0) == crate::board::staged(0, 0));
            }
            assert forall|t: Tile|
                #[trigger] crate::conservation::total_count(r@, t) == if t < 5 {
                    TILES_PER_TYPE as nat
                } else {
                    0
                } by {
                crate::conservation::lemma_empty_boards_count(r@.boards, t, r@.boards.len() as int);
                crate::conservation::lemma_empty_bowls_count(r@.bowls, t, r@.bowls.len() as int);
                crate::conservation::lemma_count_multiset(r@.bag, t);
                crate::conservation::lemma_count_multiset(default_tileset(), t);
                crate::conservation::lemma_count_repeat(|t: Tile| TILES_PER_TYPE as nat, 5, t);
            }
        }
        r
    }

    /// The index of the player to move.
    pub fn active_player(&self) -> (r: usize)
        ensures
            r == self@.active,
    {
        self.active_player
    }

    /// The players' boards.
    pub fn boards(&self) -> (r: &Vec<Board>)
        ensures
            r@.map_values(|b: Board| b@) == self@.boards,
    {
        &self.boards
    }

    /// The display pools, the centre first.
    pub fn bowls(&self) -> (r: &Vec<Bowl>)
        ensures
            r@.map_values(|w: Bowl| w@) == self@.bowls,
    {
        &self.bowls
    }

    /// The draw pool.
    pub fn bag(&self) -> (r: &Bag<Tile>)
        ensures
            r@ == self@.bag,
    {
        &self.bag
    }

    /// The holder of the first-player token, if anyone took from the centre this round.
    pub fn first_token_owner(&self) -> (r: Option<usize>)
        ensures
            r == self@.first,
    {
        self.first_token_owner
    }

    /// The legal moves of the active player.
    pub fn get_valid_moves(&self) -> (r: Vec<Move>)
        requires
            self@.wf(),
        ensures
            r@ == legal_moves(self@),
    {
        let ghost g = self@;
        let board = &self.boards[self.active_player];
        assert(board@ == g.boards[g.active as int]);
        let mut moves: Vec<Move> = Vec::new();
        let mut k: usize = 0;
        while k < self.bowls.len()
            invariant
                g == self@,
                g.wf(),
                board@ == g.boards[g.active as int],
                k <= self.bowls.len(),
                moves@ == moves_upto(g, k as int),
            decreases self.bowls.len() - k,
        {
            let types = self.bowls[k].get_tile_types();
            assert(self.bowls[k as int]@ == g.bowls[k as int]);
            proof {
                lemma_present_valid(g.bowls[k as int], 5);
            }
            let mut ti: usize = 0;
            while ti < types.len()
                invariant
                    g == self@,
                    g.wf(),
                    board@ == g.boards[g.active as int],
                    k < self.bowls.len(),
                    types@ == present(g.bowls[k as int]),
                    valid_tiles(types@),
                    ti <= types.len(),
                    moves@ == moves_upto(g, k as int) + bowl_moves(board@, k, types@, ti as int),
                decreases types.len() - ti,
            {
                let t = types[ti];
                let rows = board.get_valid_rows_for_tile_type(t);
                let ghost base = moves@;
                let mut ri: usize = 0;
                while ri < rows.len()
                    invariant
                        ri <= rows.len(),
                        moves@ == base + moves_for(k, t, rows@).take(ri as int),
                    decreases rows.len() - ri,
                {
                    moves.push(Move { bowl: k, tile_type: t, row: rows[ri] });
                    ri += 1;
                    assert(moves@ =~= base + moves_for(k, t, rows@).take(ri as int));
                }
                assert(moves_for(k, t, rows@).take(rows.len() as int) =~= moves_for(k, t, rows@));
                ti += 1;
                assert(moves@ =~= moves_upto(g, k as int) + bowl_moves(board@, k, types@, ti as int));
            }
            k += 1;
        }
        moves
    }

    /// Plays `choice` for the active player; fails, changing nothing, when it is not legal.
    pub fn make_move(&mut self, choice: &Move) -> (r: Result<(), IllegalMoveError>)
        requires
            old(self)@.wf(),
            move_headroom(old(self)@, *choice),
        ensures
            final(self)@.wf(),
            r is Ok <==> legal_moves(old(self)@).contains(*choice),
            r is Ok ==> final(self)@ == apply_move(old(self)@, *choice),
            r is Ok ==> forall|t: Tile|
                #[trigger] crate::conservation::total_count(final(self)@, t) + crate::conservation::discarded(
                    old(self)@,
                    *choice,
                    t,
                ) == crate::conservation::total_count(old(self)@, t),
            r is Err ==> final(self)@ == old(self)@,
    {
        let ghost g = self@;
        let valid_moves = self.get_valid_moves();
        let mut found = false;
        let mut i: usize = 0;
        while i < valid_moves.len() && !found
            invariant
                i <= valid_moves.len(),
                found ==> valid_moves@.contains(*choice),
                !found ==> forall|j: int| 0 <= j < i ==> valid_moves@[j] != *choice,
            decreases valid_moves.len() - i,
        {
            if valid_moves[i] == *choice {
                found = true;
            }
            i += 1;
        }
        if !found {
            return Err(IllegalMoveError);
        }
        assert(g.bowls.len() == self.bowls.len());
        assert(g.boards.len() == self.boards.len());
        proof {
            lemma_legal_move_facts(g, *choice, g.bowls.len() as int);
        }
        let k = choice.bowl;
        let t = choice.tile_type;
        let mut bowl = self.bowls.remove(k);
        let (taken, rest) = bowl.take_tiles(t);
        self.bowls.insert(k, bowl);
        assert(self.bowls@ =~= old(self).bowls@.update(k as int, bowl));
        let penalty: usize = if k == CENTRE_BOWL_IDX && self.first_token_owner.is_none() {
            self.first_token_owner = Some(self.active_player);
            1
        } else {
            0
        };
        proof {
            lemma_only_len(g.bowls[k as int], t);
            lemma_legal_row_stages(g.boards[g.active as int], t, taken@.len(), choice.row, penalty as nat);
        }
        let active = self.active_player;
        let mut board = self.boards[active];
        let res = board.hold_tiles(t, taken.len(), choice.row, penalty);
        self.boards.set(active, board);
        assert(self.boards@.len() == old(self).boards@.len());
        assert(self.active_player < self.boards.len());
        proof {
            lemma_only_valid(g.bowls[k as int], t);
        }
        let mut centre = self.bowls.remove(CENTRE_BOWL_IDX);
        centre.extend(&rest);
        self.bowls.insert(CENTRE_BOWL_IDX, centre);
        self.active_player = if self.active_player + 1 >= self.boards.len() {
            0
        } else {
            self.active_player + 1
        };
        proof {
            lemma_grouped_valid(g.bowls.update(k as int, seq![])[0] + rest@, 5);
            crate::bowl::lemma_grouped_sorted(g.bowls.update(k as int, seq![])[0] + rest@, 5);
            assert(self@.boards =~= apply_move(g, *choice).boards);
            assert(self@.bowls =~= apply_move(g, *choice).bowls);
            assert forall|t: Tile|
                #[trigger] crate::conservation::total_count(self@, t) + crate::conservation::discarded(
                    g,
                    *choice,
                    t,
                ) == crate::conservation::total_count(g, t) by {
                crate::conservation::lemma_move_conserves_tiles(g, *choice, t);
            }
        }
        Ok(())
    }

    /// The number of tiles of type `t` in play: on the boards, in the pools and in `drawn`,
    /// counted up to the full supply of that type.
    fn capped_in_play(&self, drawn: &Vec<Tile>, t: Tile) -> (r: usize)
        ensures
            r == if in_play(self@.boards, self@.bowls, drawn@, t) >= TILES_PER_TYPE {
                TILES_PER_TYPE as int
            } else {
                in_play(self@.boards, self@.bowls, drawn@, t) as int
            },
    {
        let ghost g = self@;
        let mut used: usize = 0;
        let mut i: usize = 0;
        while i < self.boards.len()
            invariant
                g == self@,
                i <= self.boards.len(),
                used == if boards_count(g.boards, t, i as int) >= 20 {
                    20
                } else {
                    boards_count(g.boards, t, i as int) as int
                },
            decreases self.boards.len() - i,
        {
            let tiles = self.boards[i].get_active_tiles();
            let c = count_type(&tiles, t);
            used = if c >= TILES_PER_TYPE - used {
                TILES_PER_TYPE
            } else {
                used + c
            };
            i += 1;
        }
        let mut k: usize = 0;
        while k < self.bowls.len()
            invariant
                g == self@,
                i == self.boards.len(),
                k <= self.bowls.len(),
                used == if boards_count(g.boards, t, i as int) + bowls_count(g.bowls, t, k as int)
                    >= 20 {
                    20
                } else {
                    boards_count(g.boards, t, i as int) + bowls_count(g.bowls, t, k as int)
                },
            decreases self.bowls.len() - k,
        {
            let c = count_type(self.bowls[k].tiles(), t);
            used = if c >= TILES_PER_TYPE - used {
                TILES_PER_TYPE
            } else {
                used + c
            };
            k += 1;
        }
        let c = count_type(drawn, t);
        if c >= TILES_PER_TYPE - used {
            TILES_PER_TYPE
        } else {
            used + c
        }
    }

    /// The tiles of the supply that are not in play, grouped by type.
    fn unused_tiles(&self, drawn: &Vec<Tile>) -> (r: Vec<Tile>)
        ensures
            r@ == repeat_types(
                |t: Tile|
                    if in_play(self@.boards, self@.bowls, drawn@, t) >= TILES_PER_TYPE {
                        0
                    } else {
                        (TILES_PER_TYPE - in_play(self@.boards, self@.bowls, drawn@, t)) as nat
                    },
                5,
            ),
            valid_tiles(r@),
    {
        let ghost counts = |t: Tile|
            if in_play(self@.boards, self@.bowls, drawn@, t) >= TILES_PER_TYPE {
                0
            } else {
                (TILES_PER_TYPE - in_play(self@.boards, self@.bowls, drawn@, t)) as nat
            };
        let mut unused: Vec<Tile> = Vec::new();
        let mut t: usize = 0;
        while t < 5
            invariant
                t <= 5,
                unused@ == repeat_types(counts, t as int),
                counts == (|t: Tile|
                    if in_play(self@.boards, self@.bowls, drawn@, t) >= TILES_PER_TYPE {
                        0
                    } else {
                        (TILES_PER_TYPE - in_play(self@.boards, self@.bowls, drawn@, t)) as nat
                    }),
            decreases 5 - t,
        {
            let used = self.capped_in_play(drawn, t);
            push_copies(&mut unused, t, TILES_PER_TYPE - used);
            t += 1;
        }
        proof {
            lemma_repeat_valid(counts, 5);
        }
        unused
    }

    /// Draws the tiles for one pool: up to four from the bag, restocking the bag from the tiles
    /// not in play when it runs short.
    fn draw_for_bowl(&mut self) -> (r: Vec<Tile>)
        requires
            valid_tiles(old(self)@.bag),
        ensures
            valid_tiles(r@),
            valid_tiles(final(self)@.bag),
            r@.len() <= BOWL_CAPACITY,
            old(self)@.bag.len() >= BOWL_CAPACITY ==> r@.len() == BOWL_CAPACITY && final(self)@.bag.len()
                == old(self)@.bag.len() - BOWL_CAPACITY,
            final(self)@.boards == old(self)@.boards,
            final(self)@.bowls == old(self)@.bowls,
            final(self)@.active == old(self)@.active,
            final(self)@.first == old(self)@.first,
            final(self).boards@ == old(self).boards@,
            final(self).bowls@ == old(self).bowls@,
            final(self).active_player == old(self).active_player,
            final(self).first_token_owner == old(self).first_token_owner,
            (forall|t: Tile| #[trigger] crate::conservation::total_count(old(self)@, t) <= 20) ==> forall|t: Tile|
                #[trigger] crate::conservation::total_count(final(self)@, t) + count_of(r@, t) <= 20,
            old(self)@.bag.len() >= BOWL_CAPACITY ==> final(self)@.bag == old(self)@.bag.take(
                old(self)@.bag.len() - BOWL_CAPACITY,
            ) && forall|t: Tile|
                #[trigger] count_of(old(self)@.bag, t) == count_of(final(self)@.bag, t) + count_of(r@, t),
            old(self)@.bag.len() < BOWL_CAPACITY && (forall|t: Tile|
                #[trigger] crate::conservation::total_count(old(self)@, t) <= 20) ==> forall|t: Tile|
                t < 5 ==> #[trigger] crate::conservation::total_count(final(self)@, t) + count_of(r@, t) == 20,
    {
        let ghost g0 = self@;
        let ghost b0 = self.bag@;
        let mut next = self.bag.draw(BOWL_CAPACITY);
        proof {
            assert forall|j: int| 0 <= j < next@.len() implies #[trigger] next@[j] < 5 by {
                assert(next@[j] == b0[b0.len() - 1 - j]);
            }
            assert(self.bag@ =~= b0.take(b0.len() - next@.len()));
        }
        proof {
            assert forall|t: Tile| #[trigger] crate::conservation::total_count(g0, t) == crate::conservation::total_count(self@, t) + count_of(next@, t) by {
                crate::conservation::lemma_draw_count(b0, self.bag@, next@, t);
            }
            assert forall|t: Tile| #[trigger] count_of(b0, t) == count_of(self.bag@, t) + count_of(next@, t) by {
                crate::conservation::lemma_draw_count(b0, self.bag@, next@, t);
            }
        }
        if next.len() < BOWL_CAPACITY {
            let ghost n0 = next@;
            let ghost mid = self@;
            let unused = self.unused_tiles(&next);
            self.bag.restock(unused);
            proof {
                lemma_valid_perm(unused@, self.bag@);
            }
            let ghost b1 = self.bag@;
            let mut more = self.bag.draw(BOWL_CAPACITY - next.len());
            proof {
                assert forall|j: int| 0 <= j < more@.len() implies #[trigger] more@[j] < 5 by {
                    assert(more@[j] == b1[b1.len() - 1 - j]);
                }
                assert(self.bag@ =~= b1.take(b1.len() - more@.len()));
            }
            let ghost n0 = next@;
            let mut j: usize = 0;
            while j < more.len()
                invariant
                    j <= more.len(),
                    next@ == n0 + more@.take(j as int),
                decreases more.len() - j,
            {
                next.push(more[j]);
                j += 1;
                assert(next@ =~= n0 + more@.take(j as int));
            }
            assert(more@.take(more.len() as int) =~= more@);
            proof {
                assert(mid.bag.len() == 0);
                assert forall|t: Tile| #[trigger] crate::conservation::total_count(g0, t) <= 20 implies crate::conservation::total_count(self@, t) + count_of(next@, t) <= 20
                    && (t < 5 ==> crate::conservation::total_count(self@, t) + count_of(next@, t) == 20) by {
                    assert(mid.bag =~= Seq::<Tile>::empty());
                    assert(count_of(mid.bag, t) == 0) by {
                        assert(only(Seq::<Tile>::empty(), t) =~= Seq::<Tile>::empty());
                    }
                    crate::conservation::lemma_count_multiset(unused@, t);
                    crate::conservation::lemma_count_multiset(b1, t);
                    crate::conservation::lemma_draw_count(b1, self.bag@, more@, t);
                    crate::conservation::lemma_count_concat(n0, more@, t);
                    crate::conservation::lemma_count_repeat(
                        |t: Tile|
                            if in_play(mid.boards, mid.bowls, n0, t) >= TILES_PER_TYPE {
                                0
                            } else {
                                (TILES_PER_TYPE - in_play(mid.boards, mid.bowls, n0, t)) as nat
                            },
                        5,
                        t,
                    );
                }
            }
        }
        proof {
            if forall|u: Tile| #[trigger] crate::conservation::total_count(g0, u) <= 20 {
                assert forall|t: Tile| #[trigger] crate::conservation::total_count(self@, t) + count_of(next@, t) <= 20 by {
                    assert(crate::conservation::total_count(g0, t) <= 20);
                }
                if b0.len() < BOWL_CAPACITY {
                    assert forall|t: Tile| t < 5 implies #[trigger] crate::conservation::total_count(self@, t) + count_of(next@, t) == 20 by {
                        assert(crate::conservation::total_count(g0, t) <= 20);
                    }
                }
            }
        }
        next
    }

    /// Starts the next round: every board resolves its staging rows, scores and pays its
    /// penalties; every pool but the centre is refilled from the bag; the holder of the
    /// first-player token (or player 0) moves first, and the token is free again.
    pub fn setup_next_round(&mut self)
        requires
            old(self)@.wf(),
            round_headroom(old(self)@),
        ensures
            final(self)@.wf(),
            final(self)@.boards.len() == old(self)@.boards.len(),
            forall|i: int|
                0 <= i < old(self)@.boards.len() ==> #[trigger] final(self)@.boards[i] == finish_round(
                    old(self)@.boards[i],
                ),
            final(self)@.active == match old(self)@.first {
                Some(p) => p,
                None => 0,
            },
            final(self)@.first is None,
            final(self)@.bowls.len() == old(self)@.bowls.len(),
            final(self)@.bowls[CENTRE_BOWL_IDX as int] == old(self)@.bowls[CENTRE_BOWL_IDX as int],
            forall|k: int|
                1 <= k < final(self)@.bowls.len() ==> (#[trigger] final(self)@.bowls[k]).len()
                    <= BOWL_CAPACITY,
            old(self)@.bag.len() >= BOWL_CAPACITY * (old(self)@.bowls.len() - 1) ==> {
                &&& forall|k: int|
                    1 <= k < final(self)@.bowls.len() ==> (#[trigger] final(self)@.bowls[k]).len()
                        == BOWL_CAPACITY
                &&& final(self)@.bag.len() == old(self)@.bag.len() - BOWL_CAPACITY * (
                old(self)@.bowls.len() - 1)
            },
            (forall|t: Tile| #[trigger] crate::conservation::total_count(old(self)@, t) <= 20) ==> forall|t: Tile|
                #[trigger] crate::conservation::total_count(final(self)@, t) <= 20,
            old(self)@.bag.len() >= BOWL_CAPACITY * (old(self)@.bowls.len() - 1) ==> {
                &&& final(self)@.bag == old(self)@.bag.take(
                    old(self)@.bag.len() - BOWL_CAPACITY * (old(self)@.bowls.len() - 1),
                )
                &&& forall|t: Tile|
                    #[trigger] count_of(final(self)@.bag, t) + bowls_count(
                        final(self)@.bowls,
                        t,
                        final(self)@.bowls.len() as int,
                    ) == count_of(old(self)@.bag, t) + count_of(old(self)@.bowls[CENTRE_BOWL_IDX as int], t)
            },
            old(self)@.bag.len() < BOWL_CAPACITY * (old(self)@.bowls.len() - 1) && pools_empty(old(self)@)
                && (forall|t: Tile| #[trigger] crate::conservation::total_count(old(self)@, t) <= 20)
                ==> forall|t: Tile| t < 5 ==> #[trigger] crate::conservation::total_count(final(self)@, t) == 20,
    {
        let ghost g = self@;
        let mut i: usize = 0;
        while i < self.boards.len()
            invariant
                i <= self.boards.len(),
                self.boards.len() == g.boards.len(),
                self@.bowls == g.bowls,
                self@.bag == g.bag,
                self@.active == g.active,
                self@.first == g.first,
                g.wf(),
                round_headroom(g),
                forall|j: int| 0 <= j < i ==> #[trigger] self@.boards[j] == finish_round(g.boards[j]),
                forall|j: int| i <= j < g.boards.len() ==> #[trigger] self@.boards[j] == g.boards[j],
                forall|j: int| 0 <= j < g.boards.len() ==> (#[trigger] self@.boards[j]).wf(),
                (forall|t: Tile| #[trigger] crate::conservation::total_count(g, t) <= 20) ==> forall|t: Tile|
                    #[trigger] crate::conservation::total_count(self@, t) <= 20,
            decreases g.boards.len() - i,
        {
            assert(self@.boards[i as int] == g.boards[i as int]);
            let ghost prev = self@.boards;
            let ghost old_view = self@;
            let mut board = self.boards[i];
            assert(board@.score + 400 <= usize::MAX);
            board.place_holds();
            self.boards.set(i, board);
            assert(self@.boards =~= prev.update(i as int, board@));
            proof {
                assert forall|t: Tile| #[trigger] crate::conservation::total_count(self@, t) + count_of(
                    prev[i as int].tiles(),
                    t,
                ) == crate::conservation::total_count(old_view, t) + count_of(board@.tiles(), t) by {
                    crate::conservation::lemma_boards_count_update(prev, i as int, board@, t, prev.len() as int);
                }
                assert forall|t: Tile| count_of(board@.tiles(), t) <= count_of(#[trigger] prev[i as int].tiles(), t) by {
                    crate::conservation::lemma_finish_round_count(prev[i as int], t);
                }
            }
            i += 1;
        }
        let ghost g1 = self@;
        let ghost restocked = false;
        let ghost cond = pools_empty(g) && (forall|t: Tile| #[trigger] crate::conservation::total_count(g, t) <= 20);
        proof {
            assert(self@.bag.take(self@.bag.len() as int) =~= self@.bag);
            assert forall|t: Tile| #[trigger] count_of(self@.bag, t) + bowls_count(self@.bowls, t, 1) == count_of(g.bag, t)
                + count_of(g.bowls[0], t) by {
                assert(bowls_count(self@.bowls, t, 0) == 0);
                assert(self@.bowls[0] == g.bowls[0]);
            }
        }
        let mut k: usize = 1;
        while k < self.bowls.len()
            invariant
                1 <= k <= self.bowls.len(),
                self.bowls.len() == g.bowls.len(),
                self@.boards == g1.boards,
                self@.active == g.active,
                self@.first == g.first,
                g1.bowls == g.bowls,
                g.wf(),
                valid_tiles(self@.bag),
                self@.bowls[0] == g.bowls[0],
                forall|j: int| 0 <= j < self@.bowls.len() ==> valid_tiles(#[trigger] self@.bowls[j]),
                forall|j: int| 0 <= j < self@.bowls.len() ==> crate::bowl::sorted_tiles(#[trigger] self@.bowls[j]),
                forall|j: int| 1 <= j < k ==> (#[trigger] self@.bowls[j]).len() <= BOWL_CAPACITY,
                g.bag.len() >= BOWL_CAPACITY * (g.bowls.len() - 1) ==> {
                    &&& forall|j: int| 1 <= j < k ==> (#[trigger] self@.bowls[j]).len() == BOWL_CAPACITY
                    &&& self@.bag.len() == g.bag.len() - BOWL_CAPACITY * (k - 1)
                },
                (forall|t: Tile| #[trigger] crate::conservation::total_count(g, t) <= 20) ==> forall|t: Tile|
                    #[trigger] crate::conservation::total_count(self@, t) <= 20,
                forall|j: int| k <= j < self@.bowls.len() ==> #[trigger] self@.bowls[j] == g.bowls[j],
                cond == (pools_empty(g) && (forall|t: Tile| #[trigger] crate::conservation::total_count(g, t) <= 20)),
                !restocked ==> g.bag.len() >= BOWL_CAPACITY * (k - 1) && self@.bag.len() == g.bag.len() - BOWL_CAPACITY * (k - 1),
                restocked && cond ==> forall|t: Tile| t < 5 ==> #[trigger] crate::conservation::total_count(self@, t) == 20,
                g.bag.len() >= BOWL_CAPACITY * (g.bowls.len() - 1) ==> {
                    &&& self@.bag == g.bag.take(g.bag.len() - BOWL_CAPACITY * (k - 1))
                    &&& forall|t: Tile|
                        #[trigger] count_of(self@.bag, t) + bowls_count(self@.bowls, t, k as int) == count_of(g.bag, t)
                            + count_of(g.bowls[0], t)
                },
            decreases self.bowls.len() - k,
        {
            let ghost before = self@;
            let ghost short = self@.bag.len() < BOWL_CAPACITY;
            let next = self.draw_for_bowl();
            let ghost mid = self@;
            let ghost prev = self@.bowls;
            let mut bowl = Bowl::new();
            bowl.fill(next);
            self.bowls.set(k, bowl);
            assert(self@.bowls =~= prev.update(k as int, bowl@));
            proof {
                assert forall|t: Tile| #[trigger] crate::conservation::total_count(self@, t) + count_of(
                    prev[k as int],
                    t,
                ) == crate::conservation::total_count(mid, t) + count_of(next@, t) by {
                    crate::bowl::lemma_grouped_valid(next@, 5);
                    crate::conservation::lemma_bowls_count_update(prev, k as int, bowl@, t, prev.len() as int);
                    crate::conservation::lemma_count_by_type(next@, t);
                }
            }
            proof {
                lemma_grouped_valid(next@, 5);
                crate::bowl::lemma_grouped_sorted(next@, 5);
                crate::bowl::lemma_by_type_len(next@);
                assert(BOWL_CAPACITY * (k - 1) + BOWL_CAPACITY == BOWL_CAPACITY * k) by (nonlinear_arith);
                assert(prev[k as int] == g.bowls[k as int]);
                if cond {
                    assert(prev[k as int].len() == 0);
                    assert(count_of(Seq::<Tile>::empty(), 0) == 0);
                    assert forall|t: Tile| t < 5 && (restocked || short) implies #[trigger] crate::conservation::total_count(self@, t) == 20 by {
                        assert(prev[k as int] =~= Seq::<Tile>::empty());
                        assert(count_of(prev[k as int], t) == 0) by {
                            assert(only(Seq::<Tile>::empty(), t) =~= Seq::<Tile>::empty());
                        }
                        if !short {
                            assert(count_of(before.bag, t) == count_of(mid.bag, t) + count_of(next@, t));
                            assert(crate::conservation::total_count(before, t) == 20);
                        }
                    }
                }
                if g.bag.len() >= BOWL_CAPACITY * (g.bowls.len() - 1) {
                    assert(BOWL_CAPACITY * (k - 1) + BOWL_CAPACITY <= BOWL_CAPACITY * (g.bowls.len() - 1)) by (nonlinear_arith)
                        requires k < g.bowls.len();
                    assert(self@.bag =~= g.bag.take(g.bag.len() - BOWL_CAPACITY * k));
                    assert forall|t: Tile|
                        #[trigger] count_of(self@.bag, t) + bowls_count(self@.bowls, t, k + 1) == count_of(g.bag, t)
                            + count_of(g.bowls[0], t) by {
                        crate::conservation::lemma_bowls_count_same(prev, self@.bowls, t, k as int);
                        crate::conservation::lemma_count_by_type(next@, t);
                        assert(count_of(before.bag, t) == count_of(mid.bag, t) + count_of(next@, t));
                    }
                }
                restocked = restocked || short;
            }
            k += 1;
        }
        proof {
            if g.bag.len() < BOWL_CAPACITY * (g.bowls.len() - 1) && !restocked {
                assert(false);
            }
        }
        let ghost filled = self@;
        self.active_player = match self.first_token_owner {
            Some(p) => p,
            None => 0,
        };
        self.first_token_owner = None;
        proof {
            if forall|u: Tile| #[trigger] crate::conservation::total_count(g, u) <= 20 {
                assert forall|t: Tile| #[trigger] crate::conservation::total_count(self@, t) <= 20 by {
                    assert(crate::conservation::total_count(filled, t) <= 20);
                }
            }
            if cond && restocked {
                assert forall|t: Tile| t < 5 implies #[trigger] crate::conservation::total_count(self@, t) == 20 by {
                    assert(crate::conservation::total_count(filled, t) == 20);
                }
            }
            if g.bag.len() >= BOWL_CAPACITY * (g.bowls.len() - 1) {
                assert forall|t: Tile|
                    #[trigger] count_of(self@.bag, t) + bowls_count(self@.bowls, t, self@.bowls.len() as int)
                        == count_of(g.bag, t) + count_of(g.bowls[0], t) by {
                    assert(count_of(filled.bag, t) + bowls_count(filled.bowls, t, filled.bowls.len() as int)
                        == count_of(g.bag, t) + count_of(g.bowls[0], t));
                }
            }
        }
    }

    /// Whether every pool is empty, which ends the round.
    pub fn round_over(&self) -> (r: bool)
        ensures
            r == forall|k: int| 0 <= k < self@.bowls.len() ==> (#[trigger] self@.bowls[k]).len() == 0,
    {
        let mut k: usize = 0;
        while k < self.bowls.len()
            invariant
                k <= self.bowls.len(),
                forall|j: int| 0 <= j < k ==> (#[trigger] self@.bowls[j]).len() == 0,
            decreases self.bowls.len() - k,
        {
            if !self.bowls[k].is_empty() {
                assert(self@.bowls[k as int].len() != 0);
                return false;
            }
            k += 1;
        }
        true
    }

    /// Whether some player has completed a grid row, which ends the game.
    pub fn is_game_over(&self) -> (r: bool)
        ensures
            r == exists|i: int|
                0 <= i < self@.boards.len() && full_rows((#[trigger] self@.boards[i]).placed, 5) > 0,
    {
        let mut i: usize = 0;
        while i < self.boards.len()
            invariant
                i <= self.boards.len(),
                forall|j: int| 0 <= j < i ==> full_rows((#[trigger] self@.boards[j]).placed, 5) == 0,
            decreases self.boards.len() - i,
        {
            if self.boards[i].count_horizontal_lines() > 0 {
                assert(full_rows(self@.boards[i as int].placed, 5) > 0);
                return true;
            }
            i += 1;
        }
        false
    }

    /// The index of the winner: the highest (score, completed rows), the lowest index on a tie.
    pub fn get_winner(&self) -> (r: usize)
        requires
            self@.boards.len() >= 1,
        ensures
            r < self@.boards.len(),
            forall|j: int| 0 <= j < self@.boards.len() ==> !key_less(self@.boards[r as int], #[trigger] self@.boards[j]),
            forall|j: int| 0 <= j < r ==> key_less(#[trigger] self@.boards[j], self@.boards[r as int]),
    {
        let ghost bs = self@.boards;
        let mut best: usize = 0;
        let mut best_score = self.boards[0].get_score();
        let mut best_lines = self.boards[0].count_horizontal_lines();
        let mut i: usize = 1;
        while i < self.boards.len()
            invariant
                bs == self@.boards,
                1 <= i <= self.boards.len(),
                best < i,
                best_score == bs[best as int].score,
                best_lines == full_rows(bs[best as int].placed, 5),
                forall|j: int| 0 <= j < i ==> !key_less(bs[best as int], #[trigger] bs[j]),
                forall|j: int| 0 <= j < best ==> key_less(#[trigger] bs[j], bs[best as int]),
            decreases self.boards.len() - i,
        {
            let score = self.boards[i].get_score();
            let lines = self.boards[i].count_horizontal_lines();
            if score > best_score || (score == best_score && lines > best_lines) {
                best = i;
                best_score = score;
                best_lines = lines;
            }
            i += 1;
        }
        best
    }
}

/// Collects the parts of a game, then builds it in one step.
pub struct GameStateBuilder {
    active_player: usize,
    boards: Vec<Board>,
    bowls: Vec<Bowl>,
    bag: Bag<Tile>,
    first_token_owner: Option<usize>,
}

impl View for GameStateBuilder {
    type V = GameModel;

    closed spec fn view(&self) -> GameModel {
        GameModel {
            active: self.active_player,
            boards: self.boards@.map_values(|b: Board| b@),
            bowls: self.bowls@.map_values(|w: Bowl| w@),
            bag: self.bag@,
            first: self.first_token_owner,
        }
    }
}

impl GameStateBuilder {
    /// A builder with no boards, no pools, an empty bag, player 0 to move and no token holder.
    pub fn new() -> (r: GameStateBuilder)
        ensures
            r@.active == 0,
            r@.boards == Seq::<BoardModel>::empty(),
            r@.bowls == Seq::<Seq<Tile>>::empty(),
            r@.bag == Seq::<Tile>::empty(),
            r@.first is None,
    {
        let r = GameStateBuilder {
            active_player: 0,
            boards: Vec::new(),
            bowls: Vec::new(),
            bag: Bag::from_items(Vec::new()),
            first_token_owner: None,
        };
        assert(r@.boards =~= Seq::<BoardModel>::empty());
        assert(r@.bowls =~= Seq::<Seq<Tile>>::empty());
        r
    }

    pub fn active_player(self, active_player: usize) -> (r: GameStateBuilder)
        ensures
            r@ == (GameModel { active: active_player, ..self@ }),
    {
        GameStateBuilder { active_player, ..self }
    }

    pub fn boards(self, boards: Vec<Board>) -> (r: GameStateBuilder)
        ensures
            r@ == (GameModel { boards: boards@.map_values(|b: Board| b@), ..self@ }),
    {
        GameStateBuilder { boards, ..self }
    }

    pub fn bowls(self, bowls: Vec<Bowl>) -> (r: GameStateBuilder)
        ensures
            r@ == (GameModel { bowls: bowls@.map_values(|w: Bowl| w@), ..self@ }),
    {
        GameStateBuilder { bowls, ..self }
    }

    pub fn bag(self, bag: Bag<Tile>) -> (r: GameStateBuilder)
        ensures
            r@ == (GameModel { bag: bag@, ..self@ }),
    {
        GameStateBuilder { bag, ..self }
    }

    pub fn first_token_owner(self, first_token_owner: Option<usize>) -> (r: GameStateBuilder)
        ensures
            r@ == (GameModel { first: first_token_owner, ..self@ }),
    {
        GameStateBuilder { first_token_owner, ..self }
    }

    /// The game with the collected parts.
    pub fn build(self) -> (r: GameState)
        ensures
            r@ == self@,
    {
        GameState {
            active_player: self.active_player,
            boards: self.boards,
            bowls: self.bowls,
            bag: self.bag,
            first_token_owner: self.first_token_owner,
        }
    }
}

impl GameState {
    /// A builder for a game given part by part.
    pub fn builder() -> (r: GameStateBuilder)
        ensures
            r@.active == 0,
            r@.boards == Seq::<BoardModel>::empty(),
            r@.bowls == Seq::<Seq<Tile>>::empty(),
            r@.bag == Seq::<Tile>::empty(),
            r@.first is None,
    {
        GameStateBuilder::new()
    }
}

} // verus!
