use vstd::prelude::*;

use crate::Tile;

verus! {

/// The tiles of `s` that equal `t`, in order.
pub open spec fn only(s: Seq<Tile>, t: Tile) -> Seq<Tile>
    decreases s.len(),
{
    if s.len() == 0 {
        seq![]
    } else {
        only(s.drop_last(), t) + if s.last() == t {
            seq![t]
        } else {
            seq![]
        }
    }
}

/// The tiles of `s` other than `t`, in order.
pub open spec fn without(s: Seq<Tile>, t: Tile) -> Seq<Tile>
    decreases s.len(),
{
    if s.len() == 0 {
        seq![]
    } else {
        without(s.drop_last(), t) + if s.last() == t {
            seq![]
        } else {
            seq![s.last()]
        }
    }
}

/// The number of tiles of type `t` in `s`.
pub open spec fn count_of(s: Seq<Tile>, t: Tile) -> nat {
    only(s, t).len()
}

/// The tiles of `s` whose type is below `n`, grouped by type in increasing order.
pub open spec fn grouped(s: Seq<Tile>, n: int) -> Seq<Tile>
    decreases n,
{
    if n <= 0 {
        seq![]
    } else {
        grouped(s, n - 1) + only(s, (n - 1) as Tile)
    }
}

/// The tiles of `s`, sorted by type.
pub open spec fn by_type(s: Seq<Tile>) -> Seq<Tile> {
    grouped(s, 5)
}

/// The distinct types below `n` that occur in `s`, in increasing order.
pub open spec fn present_upto(s: Seq<Tile>, n: int) -> Seq<Tile>
    decreases n,
{
    if n <= 0 {
        seq![]
    } else {
        present_upto(s, n - 1) + if count_of(s, (n - 1) as Tile) > 0 {
            seq![(n - 1) as Tile]
        } else {
            seq![]
        }
    }
}

/// The distinct tile types in `s`, in increasing order.
pub open spec fn present(s: Seq<Tile>) -> Seq<Tile> {
    present_upto(s, 5)
}

/// Every tile of `s` is a valid tile type.
pub open spec fn valid_tiles(s: Seq<Tile>) -> bool {
    forall|i: int| 0 <= i < s.len() ==> #[trigger] s[i] < 5
}

pub proof fn lemma_only_step(s: Seq<Tile>, i: int, t: Tile)
    requires
        0 <= i < s.len(),
    ensures
        only(s.take(i + 1), t) == only(s.take(i), t) + if s[i] == t {
            seq![t]
        } else {
            seq![]
        },
        without(s.take(i + 1), t) == without(s.take(i), t) + if s[i] == t {
            seq![]
        } else {
            seq![s[i]]
        },
{
    assert(s.take(i + 1).drop_last() =~= s.take(i));
}

pub proof fn lemma_only_all(s: Seq<Tile>, t: Tile)
    ensures
        forall|i: int| 0 <= i < only(s, t).len() ==> #[trigger] only(s, t)[i] == t,
    decreases s.len(),
{
    if s.len() > 0 {
        lemma_only_all(s.drop_last(), t);
        let a = only(s.drop_last(), t);
        assert forall|i: int| 0 <= i < only(s, t).len() implies #[trigger] only(s, t)[i] == t by {
            if i < a.len() {
                assert(only(s, t)[i] == a[i]);
            }
        }
    }
}

pub proof fn lemma_only_valid(s: Seq<Tile>, t: Tile)
    requires
        valid_tiles(s),
    ensures
        valid_tiles(without(s, t)),
        t < 5 ==> valid_tiles(only(s, t)),
    decreases s.len(),
{
    lemma_only_all(s, t);
    if s.len() > 0 {
        lemma_only_valid(s.drop_last(), t);
    }
}

pub proof fn lemma_grouped_valid(s: Seq<Tile>, n: int)
    requires
        n <= 5,
    ensures
        valid_tiles(grouped(s, n)),
    decreases n,
{
    if n > 0 {
        lemma_grouped_valid(s, n - 1);
        lemma_only_all(s, (n - 1) as Tile);
    }
}

/// A display pool: an unordered group of tiles offered for selection.
#[derive(Debug, Clone)]
pub struct Bowl {
    tiles: Vec<Tile>,
}

impl View for Bowl {
    type V = Seq<Tile>;

    closed spec fn view(&self) -> Seq<Tile> {
        self.tiles@
    }
}

/// Appends the tiles of `src` to `out`, grouped by type in increasing order.
fn push_by_type(src: &Vec<Tile>, out: &mut Vec<Tile>)
    ensures
        final(out)@ == old(out)@ + by_type(src@),
{
    let ghost start = out@;
    let mut t: usize = 0;
    while t < 5
        invariant
            t <= 5,
            out@ == start + grouped(src@, t as int),
        decreases 5 - t,
    {
        let mut i: usize = 0;
        while i < src.len()
            invariant
                t < 5,
                i <= src.len(),
                out@ == start + grouped(src@, t as int) + only(src@.take(i as int), t),
            decreases src.len() - i,
        {
            proof {
                lemma_only_step(src@, i as int, t);
            }
            if src[i] == t {
                out.push(t);
            }
            i += 1;
        }
        assert(src@.take(src.len() as int) =~= src@);
        t += 1;
    }
}

impl Bowl {
    /// An empty pool.
    pub fn new() -> (r: Bowl)
        ensures
            r@ == Seq::<Tile>::empty(),
    {
        Bowl { tiles: Vec::new() }
    }

    /// A pool holding exactly `tiles`, in the given order.
    pub fn from_tiles(tiles: Vec<Tile>) -> (r: Bowl)
        ensures
            r@ == tiles@,
    {
        Bowl { tiles }
    }

    /// The tiles of this pool.
    pub fn tiles(&self) -> (r: &Vec<Tile>)
        ensures
            r@ == self@,
    {
        &self.tiles
    }

    /// Replaces this pool's tiles with `tiles`, sorted by type.
    pub fn fill(&mut self, tiles: Vec<Tile>)
        requires
            valid_tiles(tiles@),
        ensures
            final(self)@ == by_type(tiles@),
    {
        let mut out: Vec<Tile> = Vec::new();
        push_by_type(&tiles, &mut out);
        assert(out@ =~= by_type(tiles@));
        self.tiles = out;
    }

    /// Adds `tiles` to this pool, which is then sorted by type.
    pub fn extend(&mut self, tiles: &Vec<Tile>)
        requires
            valid_tiles(old(self)@),
            valid_tiles(tiles@),
        ensures
            final(self)@ == by_type(old(self)@ + tiles@),
    {
        let mut all: Vec<Tile> = Vec::new();
        let mut i: usize = 0;
        while i < self.tiles.len()
            invariant
                i <= self.tiles.len(),
                all@ == self.tiles@.take(i as int),
            decreases self.tiles.len() - i,
        {
            all.push(self.tiles[i]);
            i += 1;
        }
        let mut j: usize = 0;
        while j < tiles.len()
            invariant
                j <= tiles.len(),
                all@ == self.tiles@ + tiles@.take(j as int),
            decreases tiles.len() - j,
        {
            all.push(tiles[j]);
            j += 1;
        }
        assert(tiles@.take(tiles.len() as int) =~= tiles@);
        let mut out: Vec<Tile> = Vec::new();
        push_by_type(&all, &mut out);
        assert(out@ =~= by_type(old(self)@ + tiles@));
        self.tiles = out;
    }

    /// Takes every tile out of this pool: returns the tiles of `tile_type` and the others.
    pub fn take_tiles(&mut self, tile_type: Tile) -> (r: (Vec<Tile>, Vec<Tile>))
        ensures
            r.0@ == only(old(self)@, tile_type),
            r.1@ == without(old(self)@, tile_type),
            final(self)@ == Seq::<Tile>::empty(),
    {
        let mut take: Vec<Tile> = Vec::new();
        let mut keep: Vec<Tile> = Vec::new();
        let mut i: usize = 0;
        while i < self.tiles.len()
            invariant
                i <= self.tiles.len(),
                take@ == only(self.tiles@.take(i as int), tile_type),
                keep@ == without(self.tiles@.take(i as int), tile_type),
            decreases self.tiles.len() - i,
        {
            proof {
                lemma_only_step(self.tiles@, i as int, tile_type);
            }
            let tile = self.tiles[i];
            if tile == tile_type {
                take.push(tile);
            } else {
                keep.push(tile);
            }
            i += 1;
        }
        assert(self.tiles@.take(self.tiles.len() as int) =~= self.tiles@);
        self.tiles = Vec::new();
        (take, keep)
    }

    /// Whether this pool holds a tile of type `t`.
    fn holds_type(&self, t: Tile) -> (r: bool)
        ensures
            r == (count_of(self@, t) > 0),
    {
        let mut i: usize = 0;
        while i < self.tiles.len()
            invariant
                i <= self.tiles.len(),
                count_of(self.tiles@.take(i as int), t) == 0,
            decreases self.tiles.len() - i,
        {
            proof {
                lemma_only_step(self.tiles@, i as int, t);
            }
            if self.tiles[i] == t {
                assert(count_of(self.tiles@.take(i as int + 1), t) > 0);
                proof {
                    lemma_count_prefix(self.tiles@, i as int + 1, t);
                }
                return true;
            }
            i += 1;
        }
        assert(self.tiles@.take(self.tiles.len() as int) =~= self.tiles@);
        false
    }

    /// The distinct tile types in this pool, in increasing order.
    pub fn get_tile_types(&self) -> (r: Vec<Tile>)
        ensures
            r@ == present(self@),
    {
        let mut types: Vec<Tile> = Vec::new();
        let mut t: usize = 0;
        while t < 5
            invariant
                t <= 5,
                types@ == present_upto(self@, t as int),
            decreases 5 - t,
        {
            if self.holds_type(t) {
                types.push(t);
            }
            t += 1;
        }
        types
    }

    /// Whether this pool holds no tile.
    pub fn is_empty(&self) -> (r: bool)
        ensures
            r == (self@.len() == 0),
    {
        self.tiles.len() == 0
    }
}

/// A prefix holds no more tiles of a type than the whole sequence.
pub proof fn lemma_count_prefix(s: Seq<Tile>, i: int, t: Tile)
    requires
        0 <= i <= s.len(),
    ensures
        count_of(s.take(i), t) <= count_of(s, t),
    decreases s.len() - i,
{
    if i < s.len() {
        lemma_only_step(s, i, t);
        lemma_count_prefix(s, i + 1, t);
    } else {
        assert(s.take(i) =~= s);
    }
}

/// Only the tiles of one type are kept, so no more than there are.
pub proof fn lemma_only_len(s: Seq<Tile>, t: Tile)
    ensures
        only(s, t).len() <= s.len(),
        only(s, t).len() + without(s, t).len() == s.len(),
    decreases s.len(),
{
    if s.len() > 0 {
        lemma_only_len(s.drop_last(), t);
    }
}

/// Grouping by type keeps every valid tile.
pub proof fn lemma_by_type_len(s: Seq<Tile>)
    requires
        valid_tiles(s),
    ensures
        by_type(s).len() == s.len(),
{
    lemma_grouped_len(s, 5);
    lemma_count_sum(s);
}

pub proof fn lemma_grouped_len(s: Seq<Tile>, n: int)
    ensures
        grouped(s, n).len() == counts_below(s, n),
    decreases n,
{
    if n > 0 {
        lemma_grouped_len(s, n - 1);
    }
}

/// The number of tiles of the types below `n`.
pub open spec fn counts_below(s: Seq<Tile>, n: int) -> nat
    decreases n,
{
    if n <= 0 {
        0
    } else {
        counts_below(s, n - 1) + count_of(s, (n - 1) as Tile)
    }
}

/// For valid tiles, the counts of the five types add up to the length.
pub proof fn lemma_count_sum(s: Seq<Tile>)
    requires
        valid_tiles(s),
    ensures
        counts_below(s, 5) == s.len(),
    decreases s.len(),
{
    if s.len() > 0 {
        let a = s.drop_last();
        assert(valid_tiles(a)) by {
            assert forall|i: int| 0 <= i < a.len() implies #[trigger] a[i] < 5 by {
                assert(a[i] == s[i]);
            }
        }
        lemma_count_sum(a);
        assert(s.last() < 5);
        lemma_counts_below_step(s, 5);
    } else {
        assert(counts_below(s, 5) == 0) by {
            reveal_with_fuel(counts_below, 6);
        }
    }
}

pub proof fn lemma_counts_below_step(s: Seq<Tile>, n: int)
    requires
        s.len() > 0,
        0 <= n <= 5,
    ensures
        counts_below(s, n) == counts_below(s.drop_last(), n) + if s.last() < n {
            1nat
        } else {
            0nat
        },
    decreases n,
{
    if n > 0 {
        lemma_counts_below_step(s, n - 1);
        let t = (n - 1) as Tile;
        assert(count_of(s, t) == count_of(s.drop_last(), t) + if s.last() == t {
            1nat
        } else {
            0nat
        });
    }
}

/// The tiles are in increasing order of type.
pub open spec fn sorted_tiles(s: Seq<Tile>) -> bool {
    forall|i: int, j: int| 0 <= i < j < s.len() ==> #[trigger] s[i] <= #[trigger] s[j]
}

/// Grouping by type sorts: the result is in increasing order, every tile below `n`.
pub proof fn lemma_grouped_sorted(s: Seq<Tile>, n: int)
    requires
        0 <= n <= 5,
    ensures
        sorted_tiles(grouped(s, n)),
        forall|i: int| 0 <= i < grouped(s, n).len() ==> #[trigger] grouped(s, n)[i] < n,
    decreases n,
{
    if n > 0 {
        lemma_grouped_sorted(s, n - 1);
        lemma_only_all(s, (n - 1) as Tile);
        let a = grouped(s, n - 1);
        let o = only(s, (n - 1) as Tile);
        let g = grouped(s, n);
        assert(g == a + o);
        assert forall|i: int| 0 <= i < g.len() implies #[trigger] g[i] < n by {
            if i < a.len() {
                assert(g[i] == a[i]);
            } else {
                assert(g[i] == o[i - a.len()]);
            }
        }
        assert forall|i: int, j: int| 0 <= i < j < g.len() implies #[trigger] g[i] <= #[trigger] g[j] by {
            if j < a.len() {
                assert(g[i] == a[i]);
                assert(g[j] == a[j]);
            } else if i >= a.len() {
                assert(g[i] == o[i - a.len()]);
                assert(g[j] == o[j - a.len()]);
            } else {
                assert(g[i] == a[i]);
                assert(g[j] == o[j - a.len()]);
            }
        }
    }
}

} // verus!
