use vstd::prelude::*;

use crate::bag::Bag;
use crate::board::{Board, BoardModel, BOARD_DIMENSION};
use crate::bowl::{valid_tiles, Bowl};
use crate::codec::{board_str, bowl_str, digits_str, encode_state, nat_str, push_nat, push_tiles};
use crate::gamestate::{GameModel, GameState};
use crate::Tile;

verus! {

/// How a state is written out: for people, or in the canonical line form.
#[derive(Debug, Clone, Copy, PartialEq, Eq, Structural)]
pub enum Protocol {
    Human,
    UCILike,
}

/// Two renderings of a value: a human-readable one, and the canonical text form.
pub trait ProtocolFormat {
    /// The values that can be written in the canonical form.
    spec fn formattable(&self) -> bool;

    /// The canonical text form.
    spec fn canonical_text(&self) -> Seq<char>;

    /// The human-readable text.
    spec fn human_text(&self) -> Seq<char>;

    fn fmt_human(&self) -> (r: String)
        ensures
            r@ == self.human_text(),
    ;

    fn fmt_uci_like(&self) -> (r: String)
        requires
            self.formattable(),
        ensures
            r@ == self.canonical_text(),
    ;

    fn fmt_protocol(&self, protocol: Protocol) -> (r: String)
        requires
            self.formattable(),
        ensures
            protocol == Protocol::Human ==> r@ == self.human_text(),
            protocol == Protocol::UCILike ==> r@ == self.canonical_text(),
    {
        match protocol {
            Protocol::Human => self.fmt_human(),
            Protocol::UCILike => self.fmt_uci_like(),
        }
    }
}

/// `n` copies of `s`.
pub open spec fn repeat_text(s: Seq<char>, n: nat) -> Seq<char>
    decreases n,
{
    if n == 0 {
        seq![]
    } else {
        repeat_text(s, (n - 1) as nat) + s
    }
}

/// A cell for people: its tile type and a space, or `. ` when empty.
pub open spec fn cell_text(c: Option<Tile>) -> Seq<char> {
    match c {
        Some(t) => nat_str(t as nat) + " "@,
        None => ". "@,
    }
}

/// The first `n` cells of a row, for people.
pub open spec fn cells_text(row: Seq<Option<Tile>>, n: int) -> Seq<char>
    decreases n,
{
    if n <= 0 {
        seq![]
    } else {
        cells_text(row, n - 1) + cell_text(row[n - 1])
    }
}

/// Board row `r` for people: its number, padding, the staging cells, ` | `, the grid cells.
pub open spec fn board_row_text(b: BoardModel, r: int) -> Seq<char> {
    nat_str((r + 1) as nat) + repeat_text("  "@, (5 - r) as nat) + cells_text(b.holds[r], r + 1)
        + " | "@ + cells_text(b.placed[r], 5) + "\n"@
}

pub open spec fn board_rows_text(b: BoardModel, n: int) -> Seq<char>
    decreases n,
{
    if n <= 0 {
        seq![]
    } else {
        board_rows_text(b, n - 1) + board_row_text(b, n - 1)
    }
}

/// A board for people: its five rows, then its score and penalties.
pub open spec fn board_human(b: BoardModel) -> Seq<char> {
    board_rows_text(b, 5) + "score: "@ + nat_str(b.score) + "\npenalties: "@ + nat_str(b.penalties)
        + "\n\n"@
}

/// The first `n` tiles of a pool, for people.
pub open spec fn tiles_text(s: Seq<Tile>, n: int) -> Seq<char>
    decreases n,
{
    if n <= 0 {
        seq![]
    } else {
        tiles_text(s, n - 1) + nat_str(s[n - 1] as nat)
    }
}

/// A pool for people: its tiles' types, or `-` when empty.
pub open spec fn bowl_human(s: Seq<Tile>) -> Seq<char> {
    if s.len() == 0 {
        "-"@
    } else {
        tiles_text(s, s.len() as int)
    }
}

/// Player `i`'s heading and board.
pub open spec fn player_text(g: GameModel, i: int) -> Seq<char> {
    "player "@ + nat_str(i as nat) + (if g.active == i {
        " (active)"@
    } else {
        seq![]
    }) + "\n"@ + board_human(g.boards[i])
}

pub open spec fn players_text(g: GameModel, n: int) -> Seq<char>
    decreases n,
{
    if n <= 0 {
        seq![]
    } else {
        players_text(g, n - 1) + player_text(g, n - 1)
    }
}

pub open spec fn pools_text(g: GameModel, n: int) -> Seq<char>
    decreases n,
{
    if n <= 0 {
        seq![]
    } else {
        pools_text(g, n - 1) + nat_str((n - 1) as nat) + ": "@ + bowl_human(g.bowls[n - 1]) + " | "@
    }
}

/// A game for people: a rule, each player's board, a rule, then each pool with its index.
pub open spec fn game_human(g: GameModel) -> Seq<char> {
    repeat_text("-"@, 20) + "\n"@ + players_text(g, g.boards.len() as int) + repeat_text("-"@, 20)
        + "\n"@ + pools_text(g, g.bowls.len() as int)
}

/// Appends `n` copies of `lit`.
fn push_repeat(s: &mut String, lit: &str, n: usize)
    ensures
        final(s)@ == old(s)@ + repeat_text(lit@, n as nat),
{
    let ghost start = s@;
    let mut i: usize = 0;
    while i < n
        invariant
            i <= n,
            s@ == start + repeat_text(lit@, i as nat),
        decreases n - i,
    {
        s.append(lit);
        i += 1;
        assert(s@ =~= start + repeat_text(lit@, i as nat));
    }
}

/// Appends a cell: its tile type and a space, or `. ` when empty.
fn push_cell(s: &mut String, cell: Option<Tile>)
    ensures
        final(s)@ == old(s)@ + cell_text(cell),
{
    match cell {
        Some(t) => {
            push_nat(s, t);
            s.append(" ");
        },
        None => {
            s.append(". ");
        },
    }
    assert(final(s)@ =~= old(s)@ + cell_text(cell));
}

impl ProtocolFormat for Board {
    open spec fn formattable(&self) -> bool {
        self@.wf()
    }

    open spec fn canonical_text(&self) -> Seq<char> {
        board_str(self@)
    }

    open spec fn human_text(&self) -> Seq<char> {
        board_human(self@)
    }

    /// One line per row: its number, the staging cells, then the grid; then score and penalties.
    fn fmt_human(&self) -> (output: String) {
        let ghost b = self@;
        let mut output = String::new();
        let mut r: usize = 0;
        while r < BOARD_DIMENSION
            invariant
                r <= 5,
                b == self@,
                output@ == board_rows_text(b, r as int),
            decreases BOARD_DIMENSION - r,
        {
            let ghost row_start = output@;
            push_nat(&mut output, r + 1);
            push_repeat(&mut output, "  ", BOARD_DIMENSION - r);
            let ghost hold_start = output@;
            let mut h: usize = 0;
            while h <= r
                invariant
                    r < 5,
                    h <= r + 1,
                    b == self@,
                    output@ == hold_start + cells_text(b.holds[r as int], h as int),
                decreases r + 1 - h,
            {
                push_cell(&mut output, self.holds[r][h]);
                h += 1;
            }
            output.append(" | ");
            let ghost grid_start = output@;
            let mut c: usize = 0;
            while c < BOARD_DIMENSION
                invariant
                    r < 5,
                    c <= 5,
                    b == self@,
                    output@ == grid_start + cells_text(b.placed[r as int], c as int),
                decreases BOARD_DIMENSION - c,
            {
                push_cell(&mut output, self.placed[r][c]);
                c += 1;
            }
            output.append("\n");
            assert(output@ =~= row_start + board_row_text(b, r as int));
            r += 1;
        }
        output.append("score: ");
        push_nat(&mut output, self.score);
        output.append("\npenalties: ");
        push_nat(&mut output, self.penalties);
        output.append("\n\n");
        assert(output@ =~= board_human(b));
        output
    }

    fn fmt_uci_like(&self) -> (r: String) {
        self.board_fen()
    }
}

impl ProtocolFormat for Bowl {
    open spec fn formattable(&self) -> bool {
        valid_tiles(self@)
    }

    open spec fn canonical_text(&self) -> Seq<char> {
        bowl_str(self@)
    }

    open spec fn human_text(&self) -> Seq<char> {
        bowl_human(self@)
    }

    /// The tiles' types, or `-` when empty.
    fn fmt_human(&self) -> (output: String) {
        let mut output = String::new();
        if self.is_empty() {
            output.append("-");
        } else {
            let tiles = self.tiles();
            let mut i: usize = 0;
            while i < tiles.len()
                invariant
                    i <= tiles@.len(),
                    tiles@ == self@,
                    output@ == tiles_text(self@, i as int),
                decreases tiles.len() - i,
            {
                push_nat(&mut output, tiles[i]);
                i += 1;
            }
        }
        assert(output@ =~= bowl_human(self@));
        output
    }

    fn fmt_uci_like(&self) -> (r: String) {
        self.bowl_fen()
    }
}

impl ProtocolFormat for Bag<Tile> {
    open spec fn formattable(&self) -> bool {
        valid_tiles(self@)
    }

    open spec fn canonical_text(&self) -> Seq<char> {
        digits_str(self@)
    }

    /// The bag is hidden from players.
    open spec fn human_text(&self) -> Seq<char> {
        seq![]
    }

    fn fmt_human(&self) -> (r: String) {
        String::new()
    }

    fn fmt_uci_like(&self) -> (r: String) {
        let mut s = String::new();
        push_tiles(&mut s, self.items());
        assert(s@ =~= digits_str(self@));
        s
    }
}

impl ProtocolFormat for GameState {
    open spec fn formattable(&self) -> bool {
        self@.wf()
    }

    open spec fn canonical_text(&self) -> Seq<char> {
        encode_state(self@)
    }

    open spec fn human_text(&self) -> Seq<char> {
        game_human(self@)
    }

    /// Each board under a player heading, then each pool with its index.
    fn fmt_human(&self) -> (output: String) {
        let ghost g = self@;
        let mut output = String::new();
        push_repeat(&mut output, "-", 20);
        output.append("\n");
        let ghost head = output@;
        let boards = self.boards();
        let mut i: usize = 0;
        while i < boards.len()
            invariant
                g == self@,
                boards@.map_values(|b: Board| b@) == g.boards,
                i <= boards@.len(),
                output@ == head + players_text(g, i as int),
            decreases boards.len() - i,
        {
            let ghost before = output@;
            output.append("player ");
            push_nat(&mut output, i);
            if self.active_player() == i {
                output.append(" (active)");
            }
            output.append("\n");
            let text = boards[i].fmt_human();
            assert(boards[i as int]@ == g.boards[i as int]);
            output.append(text.as_str());
            assert(output@ =~= before + player_text(g, i as int));
            i += 1;
        }
        let ghost mid = output@;
        push_repeat(&mut output, "-", 20);
        output.append("\n");
        let ghost tail = output@;
        let bowls = self.bowls();
        let mut k: usize = 0;
        while k < bowls.len()
            invariant
                g == self@,
                bowls@.map_values(|w: Bowl| w@) == g.bowls,
                k <= bowls@.len(),
                output@ == tail + pools_text(g, k as int),
            decreases bowls.len() - k,
        {
            let ghost before = output@;
            push_nat(&mut output, k);
            output.append(": ");
            let text = bowls[k].fmt_human();
            assert(bowls[k as int]@ == g.bowls[k as int]);
            output.append(text.as_str());
            output.append(" | ");
            assert(output@ =~= before + nat_str(k as nat) + ": "@ + bowl_human(g.bowls[k as int]) + " | "@);
            k += 1;
        }
        assert(output@ =~= game_human(g));
        output
    }

    fn fmt_uci_like(&self) -> (r: String) {
        self.get_azul_fen()
    }
}

} // verus!
