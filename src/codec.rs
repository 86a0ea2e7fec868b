use vstd::prelude::*;

use crate::board::{grid_view, hold_kind, hold_len, Board, BoardModel, Grid};
use crate::bowl::{sorted_tiles, valid_tiles, Bowl};
use crate::bag::Bag;
use crate::board::BonusTypes;
use crate::game_move::{Move, Row};
use crate::gamestate::{GameModel, GameState};
use crate::Tile;

verus! {

/// The decimal digit for `d`, for `d` below ten.
pub open spec fn digit_char(d: int) -> char {
    if d == 0 {
        '0'
    } else if d == 1 {
        '1'
    } else if d == 2 {
        '2'
    } else if d == 3 {
        '3'
    } else if d == 4 {
        '4'
    } else if d == 5 {
        '5'
    } else if d == 6 {
        '6'
    } else if d == 7 {
        '7'
    } else if d == 8 {
        '8'
    } else {
        '9'
    }
}

/// The value of a decimal digit, or `None` for any other character.
pub open spec fn digit_of(c: char) -> Option<nat> {
    if c == '0' {
        Some(0)
    } else if c == '1' {
        Some(1)
    } else if c == '2' {
        Some(2)
    } else if c == '3' {
        Some(3)
    } else if c == '4' {
        Some(4)
    } else if c == '5' {
        Some(5)
    } else if c == '6' {
        Some(6)
    } else if c == '7' {
        Some(7)
    } else if c == '8' {
        Some(8)
    } else if c == '9' {
        Some(9)
    } else {
        None
    }
}

/// The decimal form of `n`, without leading zeros.
pub open spec fn nat_str(n: nat) -> Seq<char>
    decreases n,
{
    if n < 10 {
        seq![digit_char(n as int)]
    } else {
        nat_str(n / 10) + seq![digit_char((n % 10) as int)]
    }
}

/// A run of `run` empty cells: its length as a digit, or nothing for no run.
pub open spec fn run_str(run: int) -> Seq<char> {
    if run > 0 {
        seq![digit_char(run)]
    } else {
        seq![]
    }
}

/// The run-length form of a grid row from cell `i` on, after `run` empty cells: each run of
/// empty cells is its length, each filled cell is `-`.
pub open spec fn enc_cells(row: Seq<Option<Tile>>, i: int, run: int) -> Seq<char>
    decreases 5 - i,
{
    if i >= 5 {
        run_str(run)
    } else if row[i] is Some {
        run_str(run) + seq!['-'] + enc_cells(row, i + 1, 0)
    } else {
        enc_cells(row, i + 1, run + 1)
    }
}

/// The first `n` grid rows, separated by `/`.
pub open spec fn grid_str(p: Seq<Seq<Option<Tile>>>, n: int) -> Seq<char>
    decreases n,
{
    if n <= 1 {
        enc_cells(p[0], 0, 0)
    } else {
        grid_str(p, n - 1) + seq!['/'] + enc_cells(p[n - 1], 0, 0)
    }
}

/// Two digits per staging row: its tile type, then its number of tiles (`00` when empty).
pub open spec fn holds_str(h: Seq<Seq<Option<Tile>>>) -> Seq<char> {
    Seq::new(
        10,
        |j: int|
            if j % 2 == 0 {
                digit_char(hold_kind(h[j / 2]) as int)
            } else {
                digit_char(hold_len(h[j / 2]) as int)
            },
    )
}

/// One character per flag, `1` for a claimed bonus.
pub open spec fn flags_str(f: Seq<bool>) -> Seq<char> {
    Seq::new(5, |i: int| if f[i] { '1' } else { '0' })
}

/// One digit per tile.
pub open spec fn digits_str(s: Seq<Tile>) -> Seq<char> {
    Seq::new(s.len(), |i: int| digit_char(s[i] as int))
}

/// A display pool: its tiles' digits, or `-` when empty.
pub open spec fn bowl_str(s: Seq<Tile>) -> Seq<char> {
    if s.len() == 0 {
        seq!['-']
    } else {
        digits_str(s)
    }
}

/// The seven fields of a board record and its closing `;`.
pub open spec fn board_words(b: BoardModel) -> Seq<Seq<char>> {
    seq![
        grid_str(b.placed, 5),
        holds_str(b.holds),
        flags_str(b.bonus_rows),
        flags_str(b.bonus_cols),
        flags_str(b.bonus_types),
        nat_str(b.score),
        nat_str(b.penalties),
        seq![';'],
    ]
}

pub open spec fn boards_words(bs: Seq<BoardModel>, n: int) -> Seq<Seq<char>>
    decreases n,
{
    if n <= 0 {
        seq![]
    } else {
        boards_words(bs, n - 1) + board_words(bs[n - 1])
    }
}

pub open spec fn first_str(first: Option<usize>) -> Seq<char> {
    match first {
        Some(p) => nat_str(p as nat),
        None => seq!['-'],
    }
}

/// The words of a game's canonical line: the board records, `|`, the pools, `|`, the bag,
/// `|`, the active player and the first-player token holder.
pub open spec fn state_words(g: GameModel) -> Seq<Seq<char>> {
    boards_words(g.boards, g.boards.len() as int) + seq![seq!['|']] + Seq::new(
        g.bowls.len(),
        |k: int| bowl_str(g.bowls[k]),
    ) + seq![
        seq!['|'],
        digits_str(g.bag),
        seq!['|'],
        nat_str(g.active as nat),
        first_str(g.first),
    ]
}

/// Words separated by single spaces.
pub open spec fn join(ws: Seq<Seq<char>>) -> Seq<char>
    decreases ws.len(),
{
    if ws.len() == 0 {
        seq![]
    } else if ws.len() == 1 {
        ws[0]
    } else {
        join(ws.drop_last()) + seq![' '] + ws.last()
    }
}

/// The canonical one-line text form of a game, ending with a newline.
pub open spec fn encode_state(g: GameModel) -> Seq<char> {
    join(state_words(g)) + seq!['\n']
}

/// The text form of a board record.
pub open spec fn board_str(b: BoardModel) -> Seq<char> {
    join(board_words(b))
}

pub proof fn lemma_join_push(ws: Seq<Seq<char>>, w: Seq<char>)
    ensures
        join(ws.push(w)) == if ws.len() == 0 {
            w
        } else {
            join(ws) + seq![' '] + w
        },
{
    assert(ws.push(w).drop_last() =~= ws);
}

/// Appends one character from the alphabet of the text form.
pub(crate) fn push_char(s: &mut String, c: char)
    requires
        c == '0' || c == '1' || c == '2' || c == '3' || c == '4' || c == '5' || c == '6' || c
            == '7' || c == '8' || c == '9' || c == '-' || c == '/' || c == ' ' || c == ';' || c
            == '|' || c == '\n',
    ensures
        final(s)@ == old(s)@.push(c),
{
    proof {
        reveal_strlit("0");
        reveal_strlit("1");
        reveal_strlit("2");
        reveal_strlit("3");
        reveal_strlit("4");
        reveal_strlit("5");
        reveal_strlit("6");
        reveal_strlit("7");
        reveal_strlit("8");
        reveal_strlit("9");
        reveal_strlit("-");
        reveal_strlit("/");
        reveal_strlit(" ");
        reveal_strlit(";");
        reveal_strlit("|");
        reveal_strlit("\n");
    }
    let lit = if c == '0' {
        "0"
    } else if c == '1' {
        "1"
    } else if c == '2' {
        "2"
    } else if c == '3' {
        "3"
    } else if c == '4' {
        "4"
    } else if c == '5' {
        "5"
    } else if c == '6' {
        "6"
    } else if c == '7' {
        "7"
    } else if c == '8' {
        "8"
    } else if c == '9' {
        "9"
    } else if c == '-' {
        "-"
    } else if c == '/' {
        "/"
    } else if c == ' ' {
        " "
    } else if c == ';' {
        ";"
    } else if c == '|' {
        "|"
    } else {
        "\n"
    };
    s.append(lit);
    assert(final(s)@ =~= old(s)@.push(c));
}

/// The digit for `d`.
fn digit_char_exec(d: usize) -> (r: char)
    requires
        d < 10,
    ensures
        r == digit_char(d as int),
{
    if d == 0 {
        '0'
    } else if d == 1 {
        '1'
    } else if d == 2 {
        '2'
    } else if d == 3 {
        '3'
    } else if d == 4 {
        '4'
    } else if d == 5 {
        '5'
    } else if d == 6 {
        '6'
    } else if d == 7 {
        '7'
    } else if d == 8 {
        '8'
    } else {
        '9'
    }
}

fn push_digit(s: &mut String, d: usize)
    requires
        d < 10,
    ensures
        final(s)@ == old(s)@.push(digit_char(d as int)),
{
    let c = digit_char_exec(d);
    push_char(s, c);
}

/// Appends the decimal form of `n`.
pub(crate) fn push_nat(s: &mut String, n: usize)
    ensures
        final(s)@ == old(s)@ + nat_str(n as nat),
    decreases n,
{
    if n < 10 {
        push_digit(s, n);
        assert(final(s)@ =~= old(s)@ + nat_str(n as nat));
    } else {
        push_nat(s, n / 10);
        push_digit(s, n % 10);
        assert(final(s)@ =~= old(s)@ + nat_str(n as nat));
    }
}

/// Appends the run-length form of one grid row.
fn push_cells(s: &mut String, row: &[Option<Tile>; 5])
    ensures
        final(s)@ == old(s)@ + enc_cells(row@, 0, 0),
{
    let ghost start = s@;
    let mut run: usize = 0;
    let mut i: usize = 0;
    while i < 5
        invariant
            i <= 5,
            run <= i,
            s@ + enc_cells(row@, i as int, run as int) == start + enc_cells(row@, 0, 0),
        decreases 5 - i,
    {
        if row[i].is_some() {
            let ghost before = s@;
            if run > 0 {
                push_digit(s, run);
            }
            push_char(s, '-');
            assert(s@ =~= before + run_str(run as int) + seq!['-']);
            assert(s@ + enc_cells(row@, i + 1, 0) =~= before + enc_cells(row@, i as int, run as int));
            run = 0;
        } else {
            run += 1;
        }
        i += 1;
    }
    let ghost before = s@;
    if run > 0 {
        push_digit(s, run);
    }
    assert(s@ =~= before + run_str(run as int));
}

/// Appends the grid part of a board record.
fn push_grid(s: &mut String, p: &Grid)
    ensures
        final(s)@ == old(s)@ + grid_str(grid_view(*p), 5),
{
    let ghost start = s@;
    push_cells(s, &p[0]);
    let mut r: usize = 1;
    while r < 5
        invariant
            1 <= r <= 5,
            s@ == start + grid_str(grid_view(*p), r as int),
        decreases 5 - r,
    {
        push_char(s, '/');
        push_cells(s, &p[r]);
        r += 1;
        assert(s@ =~= start + grid_str(grid_view(*p), r as int));
    }
}

fn push_flags(s: &mut String, f: &[bool; 5])
    ensures
        final(s)@ == old(s)@ + flags_str(f@),
{
    let ghost start = s@;
    let mut i: usize = 0;
    while i < 5
        invariant
            i <= 5,
            s@ == start + flags_str(f@).take(i as int),
        decreases 5 - i,
    {
        if f[i] {
            push_char(s, '1');
        } else {
            push_char(s, '0');
        }
        i += 1;
        assert(s@ =~= start + flags_str(f@).take(i as int));
    }
    assert(flags_str(f@).take(5) =~= flags_str(f@));
}

/// Appends one digit per tile.
pub(crate) fn push_tiles(s: &mut String, v: &Vec<Tile>)
    requires
        valid_tiles(v@),
    ensures
        final(s)@ == old(s)@ + digits_str(v@),
{
    let ghost start = s@;
    let mut i: usize = 0;
    while i < v.len()
        invariant
            i <= v.len(),
            valid_tiles(v@),
            s@ == start + digits_str(v@).take(i as int),
        decreases v.len() - i,
    {
        push_digit(s, v[i]);
        i += 1;
        assert(s@ =~= start + digits_str(v@).take(i as int));
    }
    assert(digits_str(v@).take(v.len() as int) =~= digits_str(v@));
}

impl Board {
    /// Appends the staging part of this board's record.
    fn push_holds(&self, s: &mut String)
        requires
            self@.wf(),
        ensures
            final(s)@ == old(s)@ + holds_str(self@.holds),
    {
        let ghost start = s@;
        let mut i: usize = 0;
        while i < 5
            invariant
                i <= 5,
                self@.wf(),
                s@ == start + holds_str(self@.holds).take(2 * i),
            decreases 5 - i,
        {
            let n = self.hold_count(i);
            let kind = match self.holds[i][0] {
                Some(t) => t,
                None => 0,
            };
            assert(kind == hold_kind(self@.holds[i as int]));
            push_digit(s, kind);
            push_digit(s, n);
            i += 1;
            assert(s@ =~= start + holds_str(self@.holds).take(2 * i));
        }
        assert(holds_str(self@.holds).take(10) =~= holds_str(self@.holds));
    }

    /// Appends this board's record: its seven fields, then `;`, separated by spaces.
    pub fn push_record(&self, s: &mut String)
        requires
            self@.wf(),
        ensures
            final(s)@ == old(s)@ + board_str(self@),
    {
        let ghost start = s@;
        let ghost w = board_words(self@);
        push_grid(s, &self.placed);
        push_char(s, ' ');
        self.push_holds(s);
        push_char(s, ' ');
        push_flags(s, &self.bonuses.rows);
        push_char(s, ' ');
        push_flags(s, &self.bonuses.columns);
        push_char(s, ' ');
        push_flags(s, &self.bonuses.tile_types);
        push_char(s, ' ');
        push_nat(s, self.score);
        push_char(s, ' ');
        push_nat(s, self.penalties);
        push_char(s, ' ');
        push_char(s, ';');
        proof {
            reveal_with_fuel(join, 9);
            assert(w.drop_last().drop_last().drop_last().drop_last().drop_last().drop_last().drop_last() =~= seq![w[0]]);
            assert(s@ =~= start + join(w));
        }
    }

    /// This board's record in the canonical text form.
    pub fn board_fen(&self) -> (r: String)
        requires
            self@.wf(),
        ensures
            r@ == board_str(self@),
    {
        let mut s = String::new();
        self.push_record(&mut s);
        assert(s@ =~= board_str(self@));
        s
    }
}

impl Bowl {
    /// This pool in the canonical text form: its tiles' digits, or `-` when empty.
    pub fn bowl_fen(&self) -> (r: String)
        requires
            valid_tiles(self@),
        ensures
            r@ == bowl_str(self@),
    {
        let mut s = String::new();
        if self.is_empty() {
            push_char(&mut s, '-');
        } else {
            push_tiles(&mut s, self.tiles());
        }
        assert(s@ =~= bowl_str(self@));
        s
    }
}

pub proof fn lemma_join_concat(a: Seq<Seq<char>>, b: Seq<Seq<char>>)
    requires
        a.len() > 0,
        b.len() > 0,
    ensures
        join(a + b) == join(a) + seq![' '] + join(b),
    decreases b.len(),
{
    if b.len() == 1 {
        assert((a + b).drop_last() =~= a);
        assert(join(a + b) =~= join(a) + seq![' '] + join(b));
    } else {
        assert((a + b).drop_last() =~= a + b.drop_last());
        lemma_join_concat(a, b.drop_last());
        assert(join(a + b) =~= join(a) + seq![' '] + join(b));
    }
}

impl GameState {
    /// The canonical one-line text form of this game, ending with a newline.
    pub fn get_azul_fen(&self) -> (r: String)
        requires
            self@.wf(),
        ensures
            r@ == encode_state(self@),
    {
        let ghost g = self@;
        let mut s = String::new();
        let boards = self.boards();
        assert(boards@.len() == g.boards.len());
        let mut i: usize = 0;
        while i < boards.len()
            invariant
                g == self@,
                g.wf(),
                boards@.map_values(|b: Board| b@) == g.boards,
                i <= boards.len(),
                s@ == join(boards_words(g.boards, i as int)),
            decreases boards.len() - i,
        {
            assert(boards[i as int]@ == g.boards[i as int]);
            let ghost before = s@;
            if i > 0 {
                push_char(&mut s, ' ');
            }
            boards[i].push_record(&mut s);
            proof {
                if i > 0 {
                    lemma_join_concat(boards_words(g.boards, i as int), board_words(g.boards[i as int]));
                } else {
                    assert(boards_words(g.boards, 1) =~= board_words(g.boards[0]));
                }
            }
            i += 1;
        }
        let ghost ws = boards_words(g.boards, g.boards.len() as int);
        proof {
            lemma_boards_words_len(g.boards, g.boards.len() as int);
        }
        push_char(&mut s, ' ');
        push_char(&mut s, '|');
        proof {
            lemma_join_push(ws, seq!['|']);
            ws = ws.push(seq!['|']);
        }
        let bowls = self.bowls();
        assert(bowls@.len() == g.bowls.len());
        let ghost ws0 = ws;
        let mut k: usize = 0;
        while k < bowls.len()
            invariant
                g == self@,
                g.wf(),
                bowls@.map_values(|w: Bowl| w@) == g.bowls,
                k <= bowls.len(),
                ws0.len() > 0,
                ws == ws0 + Seq::new(k as nat, |j: int| bowl_str(g.bowls[j])),
                s@ == join(ws),
            decreases bowls.len() - k,
        {
            assert(bowls[k as int]@ == g.bowls[k as int]);
            push_char(&mut s, ' ');
            let w = bowls[k].bowl_fen();
            s.append(w.as_str());
            proof {
                lemma_join_push(ws, bowl_str(g.bowls[k as int]));
                ws = ws.push(bowl_str(g.bowls[k as int]));
            }
            k += 1;
            assert(ws =~= ws0 + Seq::new(k as nat, |j: int| bowl_str(g.bowls[j])));
        }
        push_char(&mut s, ' ');
        push_char(&mut s, '|');
        proof {
            lemma_join_push(ws, seq!['|']);
            ws = ws.push(seq!['|']);
        }
        push_char(&mut s, ' ');
        push_tiles(&mut s, self.bag().items());
        proof {
            lemma_join_push(ws, digits_str(g.bag));
            ws = ws.push(digits_str(g.bag));
        }
        push_char(&mut s, ' ');
        push_char(&mut s, '|');
        proof {
            lemma_join_push(ws, seq!['|']);
            ws = ws.push(seq!['|']);
        }
        push_char(&mut s, ' ');
        push_nat(&mut s, self.active_player());
        proof {
            lemma_join_push(ws, nat_str(g.active as nat));
            ws = ws.push(nat_str(g.active as nat));
        }
        push_char(&mut s, ' ');
        match self.first_token_owner() {
            Some(p) => push_nat(&mut s, p),
            None => push_char(&mut s, '-'),
        }
        proof {
            lemma_join_push(ws, first_str(g.first));
            ws = ws.push(first_str(g.first));
            assert(ws =~= state_words(g));
        }
        push_char(&mut s, '\n');
        s
    }
}

pub proof fn lemma_boards_words_len(bs: Seq<BoardModel>, n: int)
    requires
        n >= 0,
    ensures
        boards_words(bs, n).len() == 8 * n,
    decreases n,
{
    if n > 0 {
        lemma_boards_words_len(bs, n - 1);
    }
}

/// Returned for text that is not the canonical form of a well-formed game.
#[derive(Debug, Clone, Copy, PartialEq, Eq, Structural)]
pub struct ParseGameStateError;

/// Every character of `w` is a decimal digit.
pub open spec fn all_digits(w: Seq<char>) -> bool {
    forall|i: int| 0 <= i < w.len() ==> (#[trigger] digit_of(w[i])) is Some
}

/// The value of a string of decimal digits.
pub open spec fn digits_value(w: Seq<char>) -> nat
    decreases w.len(),
{
    if w.len() == 0 {
        0
    } else {
        10 * digits_value(w.drop_last()) + match digit_of(w.last()) {
            Some(d) => d,
            None => 0,
        }
    }
}

pub open spec fn no_space(w: Seq<char>) -> bool {
    forall|i: int| 0 <= i < w.len() ==> #[trigger] w[i] != ' '
}

pub open spec fn words_of(v: Seq<Vec<char>>) -> Seq<Seq<char>> {
    v.map_values(|w: Vec<char>| w@)
}

pub proof fn lemma_digit_roundtrip(d: int)
    requires
        0 <= d < 10,
    ensures
        digit_of(digit_char(d)) == Some(d as nat),
        digit_char(d) != ' ',
{
}

pub proof fn lemma_nat_str(n: nat)
    ensures
        nat_str(n).len() > 0,
        all_digits(nat_str(n)),
        no_space(nat_str(n)),
        digits_value(nat_str(n)) == n,
    decreases n,
{
    if n < 10 {
        lemma_digit_roundtrip(n as int);
        assert(nat_str(n).drop_last() =~= Seq::<char>::empty());
        assert(digits_value(Seq::<char>::empty()) == 0);
        assert(digits_value(nat_str(n)) == n);
    } else {
        lemma_nat_str(n / 10);
        lemma_digit_roundtrip((n % 10) as int);
        let a = nat_str(n / 10);
        assert(nat_str(n).drop_last() =~= a);
        assert(digit_of(nat_str(n).last()) == Some((n % 10) as nat));
        assert(digits_value(nat_str(n)) == 10 * (n / 10) + n % 10);
        assert(10 * (n / 10) + n % 10 == n) by (nonlinear_arith);
        assert forall|i: int| 0 <= i < nat_str(n).len() implies (#[trigger] digit_of(nat_str(n)[i])) is Some
            && nat_str(n)[i] != ' ' by {
            if i < a.len() {
                assert(nat_str(n)[i] == a[i]);
            }
        }
    }
}

pub proof fn lemma_value_prefix(w: Seq<char>, i: int)
    requires
        0 <= i <= w.len(),
    ensures
        digits_value(w.take(i)) <= digits_value(w),
    decreases w.len() - i,
{
    if i < w.len() {
        lemma_value_prefix(w, i + 1);
        assert(w.take(i + 1).drop_last() =~= w.take(i));
    } else {
        assert(w.take(i) =~= w);
    }
}

/// Reads a decimal number.
fn parse_nat(w: &Vec<char>) -> (r: Option<usize>)
    ensures
        w@.len() > 0 && all_digits(w@) && digits_value(w@) <= usize::MAX ==> r == Some(
            digits_value(w@) as usize,
        ),
{
    if w.len() == 0 {
        return None;
    }
    let mut acc: usize = 0;
    let mut i: usize = 0;
    while i < w.len()
        invariant
            i <= w.len(),
            acc == digits_value(w@.take(i as int)),
        decreases w.len() - i,
    {
        assert(w@.take(i + 1).drop_last() =~= w@.take(i as int));
        let d = match char_digit(w[i]) {
            Some(d) => d,
            None => {
                return None;
            },
        };
        proof {
            lemma_value_prefix(w@, i + 1);
        }
        let m = match acc.checked_mul(10) {
            Some(m) => m,
            None => {
                return None;
            },
        };
        acc = match m.checked_add(d) {
            Some(a) => a,
            None => {
                return None;
            },
        };
        i += 1;
    }
    assert(w@.take(w.len() as int) =~= w@);
    Some(acc)
}

/// The value of a digit character.
fn char_digit(c: char) -> (r: Option<usize>)
    ensures
        r == match digit_of(c) {
            Some(d) => Some(d as usize),
            None => None,
        },
        r matches Some(d) ==> d < 10,
{
    if c == '0' {
        Some(0)
    } else if c == '1' {
        Some(1)
    } else if c == '2' {
        Some(2)
    } else if c == '3' {
        Some(3)
    } else if c == '4' {
        Some(4)
    } else if c == '5' {
        Some(5)
    } else if c == '6' {
        Some(6)
    } else if c == '7' {
        Some(7)
    } else if c == '8' {
        Some(8)
    } else if c == '9' {
        Some(9)
    } else {
        None
    }
}

/// Reads five bonus flags, `0` or `1` each.
fn parse_flags(w: &Vec<char>) -> (r: Option<[bool; 5]>)
    ensures
        forall|f: Seq<bool>| f.len() == 5 && w@ == #[trigger] flags_str(f) ==> (r matches Some(a) && a@ == f),
{
    if w.len() != 5 {
        return None;
    }
    let mut a: [bool; 5] = [false, false, false, false, false];
    let mut i: usize = 0;
    while i < 5
        invariant
            i <= 5,
            w@.len() == 5,
            forall|j: int| 0 <= j < i ==> a@[j] == (w@[j] == '1'),
            forall|j: int| i <= j < 5 ==> !a@[j],
        decreases 5 - i,
    {
        if w[i] == '1' {
            a[i] = true;
        } else if w[i] != '0' {
            return None;
        }
        i += 1;
    }
    assert forall|f: Seq<bool>| f.len() == 5 && w@ == #[trigger] flags_str(f) implies a@ == f by {
        assert(a@ =~= f);
    }
    Some(a)
}

/// Reads one digit per tile, each a valid tile type.
fn parse_tiles(w: &Vec<char>) -> (r: Option<Vec<Tile>>)
    ensures
        r matches Some(v) ==> valid_tiles(v@) && w@ == digits_str(v@),
        forall|s: Seq<Tile>| valid_tiles(s) && w@ == #[trigger] digits_str(s) ==> (r matches Some(v) && v@ == s),
{
    let mut v: Vec<Tile> = Vec::new();
    let mut i: usize = 0;
    while i < w.len()
        invariant
            i <= w.len(),
            v@.len() == i,
            valid_tiles(v@),
            forall|j: int| 0 <= j < i ==> digit_of(w@[j]) == Some(#[trigger] v@[j] as nat),
        decreases w.len() - i,
    {
        let d = match char_digit(w[i]) {
            Some(d) => d,
            None => {
                return None;
            },
        };
        if d >= 5 {
            return None;
        }
        v.push(d);
        i += 1;
    }
    assert forall|s: Seq<Tile>| valid_tiles(s) && w@ == #[trigger] digits_str(s) implies v@ == s by {
        assert forall|j: int| 0 <= j < s.len() implies v@[j] == s[j] by {
            lemma_digit_roundtrip(s[j] as int);
        }
        assert(v@ =~= s);
    }
    assert forall|j: int| 0 <= j < w@.len() implies w@[j] == #[trigger] digits_str(v@)[j] by {
        lemma_digit_inverse(w@[j]);
    }
    assert(w@ =~= digits_str(v@));
    Some(v)
}

/// A character with a digit value is the digit for that value.
pub proof fn lemma_digit_inverse(c: char)
    ensures
        digit_of(c) matches Some(d) ==> d < 10 && c == digit_char(d as int),
{
}

/// The characters of `s`.
fn chars_of(s: &str) -> (r: Vec<char>)
    ensures
        r@ == s@,
{
    let n = s.unicode_len();
    let mut v: Vec<char> = Vec::new();
    let mut i: usize = 0;
    while i < n
        invariant
            i <= n,
            n == s@.len(),
            v@ == s@.take(i as int),
        decreases n - i,
    {
        v.push(s.get_char(i));
        i += 1;
        assert(v@ =~= s@.take(i as int));
    }
    assert(s@.take(n as int) =~= s@);
    v
}

/// Splits the first `len` characters of `cs` at each space.
fn split_words(cs: &Vec<char>, len: usize) -> (r: Vec<Vec<char>>)
    requires
        len <= cs@.len(),
    ensures
        r@.len() > 0,
        join(words_of(r@)) == cs@.take(len as int),
        forall|k: int| 0 <= k < r@.len() ==> no_space(#[trigger] r@[k]@),
{
    let mut words: Vec<Vec<char>> = Vec::new();
    let mut cur: Vec<char> = Vec::new();
    let mut i: usize = 0;
    while i < len
        invariant
            i <= len,
            len <= cs@.len(),
            join(words_of(words@).push(cur@)) == cs@.take(i as int),
            no_space(cur@),
            forall|k: int| 0 <= k < words@.len() ==> no_space(#[trigger] words@[k]@),
        decreases len - i,
    {
        let c = cs[i];
        let ghost ws = words_of(words@);
        if c == ' ' {
            proof {
                lemma_join_push(ws.push(cur@), Seq::<char>::empty());
            }
            words.push(cur);
            cur = Vec::new();
            assert(words_of(words@) =~= ws.push(words@.last()@));
        } else {
            let ghost old_cur = cur@;
            cur.push(c);
            proof {
                lemma_join_push(ws, old_cur);
                lemma_join_push(ws, cur@);
            }
        }
        i += 1;
        assert(join(words_of(words@).push(cur@)) =~= cs@.take(i as int));
    }
    let ghost ws = words_of(words@);
    words.push(cur);
    assert(words_of(words@) =~= ws.push(words@.last()@));
    words
}

/// The last space of a join of space-free words sits right before its last word.
pub proof fn lemma_join_last(ws: Seq<Seq<char>>)
    requires
        ws.len() > 0,
        forall|k: int| 0 <= k < ws.len() ==> no_space(#[trigger] ws[k]),
    ensures
        join(ws).len() >= ws.last().len(),
        join(ws).subrange(join(ws).len() - ws.last().len(), join(ws).len() as int) == ws.last(),
        ws.len() > 1 ==> join(ws)[join(ws).len() - ws.last().len() - 1] == ' ',
        ws.len() > 1 ==> join(ws).subrange(0, join(ws).len() - ws.last().len() - 1) == join(ws.drop_last()),
        ws.len() == 1 ==> no_space(join(ws)),
{
    if ws.len() > 1 {
        let a = join(ws.drop_last());
        assert(join(ws) == a + seq![' '] + ws.last());
        assert(join(ws).subrange(join(ws).len() - ws.last().len(), join(ws).len() as int) =~= ws.last());
        assert(join(ws).subrange(0, join(ws).len() - ws.last().len() - 1) =~= a);
    } else {
        assert(join(ws) == ws[0]);
        assert(join(ws).subrange(0, join(ws).len() as int) =~= ws[0]);
    }
}

/// Splitting at spaces is unique: two lists of space-free words with the same join are equal.
pub proof fn lemma_split_unique(a: Seq<Seq<char>>, b: Seq<Seq<char>>)
    requires
        a.len() > 0,
        b.len() > 0,
        forall|k: int| 0 <= k < a.len() ==> no_space(#[trigger] a[k]),
        forall|k: int| 0 <= k < b.len() ==> no_space(#[trigger] b[k]),
        join(a) == join(b),
    ensures
        a == b,
    decreases a.len(),
{
    let s = join(a);
    lemma_join_last(a);
    lemma_join_last(b);
    let la = a.last().len();
    let lb = b.last().len();
    if a.len() == 1 && b.len() == 1 {
        assert(a =~= b);
    } else if a.len() == 1 {
        assert(s[s.len() - lb - 1] == ' ');
    } else if b.len() == 1 {
        assert(s[s.len() - la - 1] == ' ');
    } else if la < lb {
        assert(s[s.len() - la - 1] == ' ');
        assert(s.subrange(s.len() - lb, s.len() as int)[lb - la - 1] == ' ');
        assert(b.last()[lb - la - 1] == ' ');
    } else if lb < la {
        assert(s[s.len() - lb - 1] == ' ');
        assert(s.subrange(s.len() - la, s.len() as int)[la - lb - 1] == ' ');
        assert(a.last()[la - lb - 1] == ' ');
    } else {
        assert forall|k: int| 0 <= k < a.drop_last().len() implies no_space(#[trigger] a.drop_last()[k]) by {
            assert(a.drop_last()[k] == a[k]);
        }
        assert forall|k: int| 0 <= k < b.drop_last().len() implies no_space(#[trigger] b.drop_last()[k]) by {
            assert(b.drop_last()[k] == b[k]);
        }
        lemma_split_unique(a.drop_last(), b.drop_last());
        assert(a =~= a.drop_last().push(a.last()));
        assert(b =~= b.drop_last().push(b.last()));
    }
}

/// The cells that one character of a grid field stands for: `-` a filled cell, a digit that
/// many empty cells, anything else none.
pub open spec fn tok_mask(c: char) -> Seq<bool> {
    if c == '-' {
        seq![true]
    } else {
        match digit_of(c) {
            Some(d) => Seq::new(d, |k: int| false),
            None => seq![],
        }
    }
}

/// The filled/empty cells that a grid field stands for, in reading order.
pub open spec fn mask_of(cs: Seq<char>) -> Seq<bool>
    decreases cs.len(),
{
    if cs.len() == 0 {
        seq![]
    } else {
        mask_of(cs.drop_last()) + tok_mask(cs.last())
    }
}

pub open spec fn row_mask(row: Seq<Option<Tile>>, i: int) -> Seq<bool> {
    Seq::new((5 - i) as nat, |k: int| row[i + k] is Some)
}

pub open spec fn rows_mask(p: Seq<Seq<Option<Tile>>>, n: int) -> Seq<bool>
    decreases n,
{
    if n <= 0 {
        seq![]
    } else {
        rows_mask(p, n - 1) + row_mask(p[n - 1], 0)
    }
}

/// Grid cells hold only the tile type of their position.
pub open spec fn placed_ok(p: Seq<Seq<Option<Tile>>>) -> bool {
    &&& p.len() == 5
    &&& forall|r: int| 0 <= r < 5 ==> (#[trigger] p[r]).len() == 5
    &&& forall|r: int, c: int|
        0 <= r < 5 && 0 <= c < 5 && (#[trigger] p[r][c]) is Some ==> p[r][c] == Some(
            crate::board::type_at(r, c) as Tile,
        )
}

pub open spec fn holds_ok(h: Seq<Seq<Option<Tile>>>) -> bool {
    &&& h.len() == 5
    &&& forall|i: int| 0 <= i < 5 ==> crate::board::hold_row_wf(#[trigger] h[i], i)
}

pub proof fn lemma_mask_concat(a: Seq<char>, b: Seq<char>)
    ensures
        mask_of(a + b) == mask_of(a) + mask_of(b),
    decreases b.len(),
{
    if b.len() == 0 {
        assert(a + b =~= a);
        assert(mask_of(a) + mask_of(b) =~= mask_of(a));
    } else {
        assert((a + b).drop_last() =~= a + b.drop_last());
        lemma_mask_concat(a, b.drop_last());
        assert(mask_of(a + b) =~= mask_of(a) + mask_of(b));
    }
}

pub proof fn lemma_mask_cells(row: Seq<Option<Tile>>, i: int, run: int)
    requires
        0 <= i <= 5,
        0 <= run <= i,
    ensures
        mask_of(enc_cells(row, i, run)) == Seq::new(run as nat, |k: int| false) + row_mask(row, i),
    decreases 5 - i,
{
    assert(mask_of(Seq::<char>::empty()) =~= Seq::<bool>::empty());
    if run > 0 {
        lemma_digit_roundtrip(run);
        assert(seq![digit_char(run)].drop_last() =~= Seq::<char>::empty());
        assert(tok_mask(digit_char(run)) =~= Seq::new(run as nat, |k: int| false));
        assert(mask_of(run_str(run)) =~= Seq::new(run as nat, |k: int| false));
    } else {
        assert(mask_of(run_str(run)) =~= Seq::<bool>::empty());
    }
    if i >= 5 {
        assert(mask_of(enc_cells(row, i, run)) =~= Seq::new(run as nat, |k: int| false) + row_mask(row, i));
    } else if row[i] is Some {
        lemma_mask_cells(row, i + 1, 0);
        lemma_mask_concat(run_str(run) + seq!['-'], enc_cells(row, i + 1, 0));
        lemma_mask_concat(run_str(run), seq!['-']);
        assert(seq!['-'].drop_last() =~= Seq::<char>::empty());
        assert(mask_of(enc_cells(row, i, run)) =~= Seq::new(run as nat, |k: int| false) + row_mask(row, i));
    } else {
        lemma_mask_cells(row, i + 1, run + 1);
        assert(mask_of(enc_cells(row, i, run)) =~= Seq::new(run as nat, |k: int| false) + row_mask(row, i));
    }
}

pub proof fn lemma_mask_grid(p: Seq<Seq<Option<Tile>>>, n: int)
    requires
        1 <= n <= 5,
    ensures
        mask_of(grid_str(p, n)) == rows_mask(p, n),
        rows_mask(p, n).len() == 5 * n,
    decreases n,
{
    lemma_mask_cells(p[n - 1], 0, 0);
    assert(Seq::new(0nat, |k: int| false) + row_mask(p[n - 1], 0) =~= row_mask(p[n - 1], 0));
    assert(mask_of(Seq::<char>::empty()) =~= Seq::<bool>::empty());
    assert(rows_mask(p, 0) =~= Seq::<bool>::empty());
    if n == 1 {
        assert(rows_mask(p, 1) =~= row_mask(p[0], 0));
    } else {
        lemma_mask_grid(p, n - 1);
        lemma_mask_concat(grid_str(p, n - 1) + seq!['/'], enc_cells(p[n - 1], 0, 0));
        lemma_mask_concat(grid_str(p, n - 1), seq!['/']);
        assert(seq!['/'].drop_last() =~= Seq::<char>::empty());
        assert(mask_of(seq!['/']) =~= Seq::<bool>::empty());
        assert(mask_of(grid_str(p, n)) =~= rows_mask(p, n));
    }
}

pub proof fn lemma_rows_mask_index(p: Seq<Seq<Option<Tile>>>, n: int, r: int, c: int)
    requires
        0 <= r < n,
        0 <= c < 5,
    ensures
        rows_mask(p, n).len() == 5 * n,
        rows_mask(p, n)[5 * r + c] == (p[r][c] is Some),
    decreases n,
{
    if n > 0 {
        if r < n - 1 {
            lemma_rows_mask_index(p, n - 1, r, c);
        } else {
            lemma_rows_mask_len(p, n - 1);
        }
    }
}

pub proof fn lemma_rows_mask_len(p: Seq<Seq<Option<Tile>>>, n: int)
    requires
        n >= 0,
    ensures
        rows_mask(p, n).len() == 5 * n,
    decreases n,
{
    if n > 0 {
        lemma_rows_mask_len(p, n - 1);
    }
}

/// The staging row holding `n` tiles of type `t`.
fn staged_row(t: Tile, n: usize) -> (r: [Option<Tile>; 5])
    ensures
        r@ == crate::board::staged(t, n as int),
{
    let mut row: [Option<Tile>; 5] = [None, None, None, None, None];
    let mut j: usize = 0;
    while j < 5
        invariant
            j <= 5,
            forall|k: int| 0 <= k < j ==> row@[k] == (if k < n { Some(t) } else { None }),
            forall|k: int| j <= k < 5 ==> row@[k] is None,
        decreases 5 - j,
    {
        if j < n {
            row[j] = Some(t);
        }
        j += 1;
    }
    assert(row@ =~= crate::board::staged(t, n as int));
    row
}

/// Reads the staging part of a board record.
fn parse_holds(w: &Vec<char>) -> (r: Option<Grid>)
    ensures
        r matches Some(x) ==> holds_ok(grid_view(x)),
        forall|h: Seq<Seq<Option<Tile>>>| holds_ok(h) && w@ == #[trigger] holds_str(h) ==> (r matches Some(x)
            && grid_view(x) == h),
{
    if w.len() != 10 {
        return None;
    }
    let empty: [Option<Tile>; 5] = [None, None, None, None, None];
    let mut x: Grid = [empty, empty, empty, empty, empty];
    let mut i: usize = 0;
    while i < 5
        invariant
            i <= 5,
            w@.len() == 10,
            forall|k: int| 0 <= k < i ==> crate::board::hold_row_wf(#[trigger] x[k]@, k),
            forall|k: int, h: Seq<Seq<Option<Tile>>>|
                0 <= k < i && holds_ok(h) && w@ == #[trigger] holds_str(h) ==> x[k]@ == #[trigger] h[k],
        decreases 5 - i,
    {
        let t = match char_digit(w[2 * i]) {
            Some(t) => t,
            None => {
                return None;
            },
        };
        let n = match char_digit(w[2 * i + 1]) {
            Some(n) => n,
            None => {
                return None;
            },
        };
        if t >= 5 || n > i + 1 {
            return None;
        }
        let t2 = if n == 0 {
            0
        } else {
            t
        };
        x[i] = staged_row(t2, n);
        proof {
            crate::board::lemma_hold_len_staged(t2, n as int);
            assert forall|h: Seq<Seq<Option<Tile>>>| holds_ok(h) && w@ == #[trigger] holds_str(h) implies x[i as int]@
                == h[i as int] by {
                let row = h[i as int];
                assert(crate::board::hold_row_wf(row, i as int));
                assert(w@[2 * i] == holds_str(h)[2 * i]);
                assert(w@[2 * i + 1] == holds_str(h)[2 * i + 1]);
                assert((2 * i) / 2 == i as int);
                assert((2 * i + 1) / 2 == i as int);
                lemma_digit_roundtrip(crate::board::hold_kind(row) as int);
                lemma_digit_roundtrip(crate::board::hold_len(row) as int);
                if n == 0 {
                    assert(row =~= crate::board::staged(t2, 0));
                }
            }
        }
        i += 1;
    }
    proof {
        assert forall|h: Seq<Seq<Option<Tile>>>| holds_ok(h) && w@ == #[trigger] holds_str(h) implies grid_view(x)
            == h by {
            assert(grid_view(x) =~= h);
        }
    }
    Some(x)
}

/// Reads the grid part of a board record.
fn parse_grid(w: &Vec<char>) -> (r: Option<Grid>)
    ensures
        r matches Some(x) ==> placed_ok(grid_view(x)),
        forall|p: Seq<Seq<Option<Tile>>>| placed_ok(p) && w@ == #[trigger] grid_str(p, 5) ==> (r matches Some(x)
            && grid_view(x) == p),
{
    let empty: [Option<Tile>; 5] = [None, None, None, None, None];
    let mut x: Grid = [empty, empty, empty, empty, empty];
    let mut pos: usize = 0;
    let mut i: usize = 0;
    while i < w.len()
        invariant
            i <= w.len(),
            pos <= 25,
            pos == mask_of(w@.take(i as int)).len(),
            forall|r: int, c: int|
                0 <= r < 5 && 0 <= c < 5 ==> #[trigger] x[r][c] == if 5 * r + c < pos && mask_of(
                    w@.take(i as int),
                )[5 * r + c] {
                    Some(crate::board::type_at(r, c) as Tile)
                } else {
                    None
                },
        decreases w.len() - i,
    {
        let ghost before = mask_of(w@.take(i as int));
        assert(w@.take(i + 1).drop_last() =~= w@.take(i as int));
        let c = w[i];
        let step: usize = if c == '-' {
            1
        } else {
            match char_digit(c) {
                Some(d) => d,
                None => 0,
            }
        };
        if step > 25 - pos {
            proof {
                assert forall|p: Seq<Seq<Option<Tile>>>| placed_ok(p) && w@ == #[trigger] grid_str(p, 5) implies false by {
                    lemma_mask_grid(p, 5);
                    assert(w@ =~= w@.take(i + 1) + w@.skip(i + 1));
                    lemma_mask_concat(w@.take(i + 1), w@.skip(i + 1));
                }
            }
            return None;
        }
        if c == '-' {
            let r = pos / 5;
            let col = pos % 5;
            let t = Board::get_tile_type_at_pos(r, col);
            x[r][col] = Some(t);
        }
        pos = pos + step;
        i += 1;
        assert(mask_of(w@.take(i as int)) =~= before + tok_mask(c));
    }
    assert(w@.take(w.len() as int) =~= w@);
    if pos != 25 {
        proof {
            assert forall|p: Seq<Seq<Option<Tile>>>| placed_ok(p) && w@ == #[trigger] grid_str(p, 5) implies false by {
                lemma_mask_grid(p, 5);
            }
        }
        return None;
    }
    proof {
        assert forall|p: Seq<Seq<Option<Tile>>>| placed_ok(p) && w@ == #[trigger] grid_str(p, 5) implies grid_view(x)
            == p by {
            lemma_mask_grid(p, 5);
            assert forall|r: int, c: int| 0 <= r < 5 && 0 <= c < 5 implies x[r][c] == p[r][c] by {
                lemma_rows_mask_index(p, 5, r, c);
            }
            assert forall|r: int| 0 <= r < 5 implies grid_view(x)[r] =~= p[r] by {}
            assert(grid_view(x) =~= p);
        }
    }
    Some(x)
}

pub open spec fn all_words_no_space(ws: Seq<Seq<char>>) -> bool {
    forall|k: int| 0 <= k < ws.len() ==> no_space(#[trigger] ws[k])
}

/// Characters of a grid field: digits, `-` and `/`.
pub open spec fn grid_char(c: char) -> bool {
    c == '-' || c == '/' || digit_of(c) is Some
}

pub proof fn lemma_cells_chars(row: Seq<Option<Tile>>, i: int, run: int)
    requires
        0 <= i <= 5,
        0 <= run <= i,
    ensures
        forall|k: int| 0 <= k < enc_cells(row, i, run).len() ==> grid_char(#[trigger] enc_cells(row, i, run)[k]),
        (i < 5 || run > 0) ==> enc_cells(row, i, run).len() >= 1,
    decreases 5 - i,
{
    if run > 0 {
        lemma_digit_roundtrip(run);
    }
    if i < 5 {
        if row[i] is Some {
            lemma_cells_chars(row, i + 1, 0);
            let a = run_str(run) + seq!['-'];
            let b = enc_cells(row, i + 1, 0);
            assert forall|k: int| 0 <= k < enc_cells(row, i, run).len() implies grid_char(
                #[trigger] enc_cells(row, i, run)[k],
            ) by {
                if k >= a.len() {
                    assert(enc_cells(row, i, run)[k] == b[k - a.len()]);
                } else if k < run_str(run).len() {
                    assert(enc_cells(row, i, run)[k] == run_str(run)[k]);
                }
            }
        } else {
            lemma_cells_chars(row, i + 1, run + 1);
        }
    }
}

pub proof fn lemma_grid_chars(p: Seq<Seq<Option<Tile>>>, n: int)
    requires
        1 <= n <= 5,
    ensures
        forall|k: int| 0 <= k < grid_str(p, n).len() ==> grid_char(#[trigger] grid_str(p, n)[k]),
        grid_str(p, n).len() >= 2 * n - 1,
    decreases n,
{
    lemma_cells_chars(p[n - 1], 0, 0);
    if n > 1 {
        lemma_grid_chars(p, n - 1);
        let a = grid_str(p, n - 1) + seq!['/'];
        let b = enc_cells(p[n - 1], 0, 0);
        assert forall|k: int| 0 <= k < grid_str(p, n).len() implies grid_char(#[trigger] grid_str(p, n)[k]) by {
            if k >= a.len() {
                assert(grid_str(p, n)[k] == b[k - a.len()]);
            } else if k < grid_str(p, n - 1).len() {
                assert(grid_str(p, n)[k] == grid_str(p, n - 1)[k]);
            }
        }
    }
}

pub proof fn lemma_board_words(b: BoardModel)
    ensures
        all_words_no_space(board_words(b)),
        board_words(b).len() == 8,
        board_words(b)[0] != seq!['|'],
{
    lemma_grid_chars(b.placed, 5);
    lemma_nat_str(b.score);
    lemma_nat_str(b.penalties);
    let w = board_words(b);
    assert forall|k: int| 0 <= k < 8 implies no_space(#[trigger] w[k]) by {
        if k == 0 {
            assert forall|j: int| 0 <= j < w[0].len() implies #[trigger] w[0][j] != ' ' by {
                assert(grid_char(grid_str(b.placed, 5)[j]));
            }
        } else if k == 1 {
            assert forall|j: int| 0 <= j < w[1].len() implies #[trigger] w[1][j] != ' ' by {
                assert(j / 2 == j / 2);
            }
        }
    }
    assert(w[0].len() >= 9);
}

pub proof fn lemma_boards_words(bs: Seq<BoardModel>, n: int)
    requires
        0 <= n <= bs.len(),
    ensures
        boards_words(bs, n).len() == 8 * n,
        all_words_no_space(boards_words(bs, n)),
        forall|j: int, f: int|
            0 <= j < n && 0 <= f < 8 ==> boards_words(bs, n)[8 * j + f] == #[trigger] board_words(bs[j])[f],
    decreases n,
{
    if n > 0 {
        lemma_boards_words(bs, n - 1);
        lemma_board_words(bs[n - 1]);
        let a = boards_words(bs, n - 1);
        let w = boards_words(bs, n);
        assert forall|k: int| 0 <= k < w.len() implies no_space(#[trigger] w[k]) by {
            if k < a.len() {
                assert(w[k] == a[k]);
            } else {
                assert(w[k] == board_words(bs[n - 1])[k - a.len()]);
            }
        }
        assert forall|j: int, f: int| 0 <= j < n && 0 <= f < 8 implies w[8 * j + f] == #[trigger] board_words(bs[j])[f] by {
            if j < n - 1 {
                assert(w[8 * j + f] == a[8 * j + f]);
            }
        }
    }
}

pub proof fn lemma_no_space_concat(a: Seq<Seq<char>>, b: Seq<Seq<char>>)
    requires
        all_words_no_space(a),
        all_words_no_space(b),
    ensures
        all_words_no_space(a + b),
{
    assert forall|k: int| 0 <= k < (a + b).len() implies no_space(#[trigger] (a + b)[k]) by {
        if k < a.len() {
            assert((a + b)[k] == a[k]);
        } else {
            assert((a + b)[k] == b[k - a.len()]);
        }
    }
}

pub proof fn lemma_digits_no_space(s: Seq<Tile>)
    requires
        valid_tiles(s),
    ensures
        no_space(digits_str(s)),
        no_space(bowl_str(s)),
{
    assert forall|j: int| 0 <= j < digits_str(s).len() implies #[trigger] digits_str(s)[j] != ' ' by {
        lemma_digit_roundtrip(s[j] as int);
    }
}

pub proof fn lemma_state_words(m: GameModel)
    requires
        m.wf(),
    ensures
        all_words_no_space(state_words(m)),
        state_words(m).len() == 8 * m.boards.len() + m.bowls.len() + 6,
{
    let n = m.boards.len() as int;
    lemma_boards_words(m.boards, n);
    let bw = Seq::new(m.bowls.len(), |k: int| bowl_str(m.bowls[k]));
    assert forall|k: int| 0 <= k < bw.len() implies no_space(#[trigger] bw[k]) by {
        lemma_digits_no_space(m.bowls[k]);
    }
    lemma_nat_str(m.active as nat);
    match m.first {
        Some(p) => lemma_nat_str(p as nat),
        None => {},
    }
    lemma_digits_no_space(m.bag);
    let bar: Seq<Seq<char>> = seq![seq!['|']];
    let tail: Seq<Seq<char>> = seq![
        seq!['|'],
        digits_str(m.bag),
        seq!['|'],
        nat_str(m.active as nat),
        first_str(m.first),
    ];
    assert(all_words_no_space(bar));
    assert forall|k: int| 0 <= k < tail.len() implies no_space(#[trigger] tail[k]) by {}
    lemma_no_space_concat(boards_words(m.boards, n), bar);
    lemma_no_space_concat(boards_words(m.boards, n) + bar, bw);
    lemma_no_space_concat(boards_words(m.boards, n) + bar + bw, tail);
}

fn is_mark(w: &Vec<char>, c: char) -> (r: bool)
    ensures
        r == (w@ == seq![c]),
{
    if w.len() == 1 && w[0] == c {
        assert(w@ =~= seq![c]);
        true
    } else {
        false
    }
}

/// The eight words starting at `i` are the record of board `m`.
pub open spec fn board_at(ws: Seq<Seq<char>>, i: int, m: BoardModel) -> bool {
    &&& ws[i] == grid_str(m.placed, 5)
    &&& ws[i + 1] == holds_str(m.holds)
    &&& ws[i + 2] == flags_str(m.bonus_rows)
    &&& ws[i + 3] == flags_str(m.bonus_cols)
    &&& ws[i + 4] == flags_str(m.bonus_types)
    &&& ws[i + 5] == nat_str(m.score)
    &&& ws[i + 6] == nat_str(m.penalties)
    &&& ws[i + 7] == seq![';']
}

/// Reads one board record from the eight words starting at `i`.
fn parse_board(words: &Vec<Vec<char>>, i: usize) -> (r: Option<Board>)
    requires
        i + 8 <= words@.len(),
    ensures
        r matches Some(b) ==> b@.wf(),
        forall|m: BoardModel|
            m.wf() && m.score <= usize::MAX && m.penalties <= usize::MAX && #[trigger] board_at(
                words_of(words@),
                i as int,
                m,
            ) ==> (r matches Some(b) && b@ == m),
{
    let ghost ws = words_of(words@);
    let count = words.len();
    assert(i + 8 <= count);
    let placed = parse_grid(&words[i]);
    let holds = parse_holds(&words[i + 1]);
    let rows = parse_flags(&words[i + 2]);
    let columns = parse_flags(&words[i + 3]);
    let tile_types = parse_flags(&words[i + 4]);
    let score = parse_nat(&words[i + 5]);
    let penalties = parse_nat(&words[i + 6]);
    let semi = is_mark(&words[i + 7], ';');
    proof {
        assert forall|m: BoardModel|
            m.wf() && m.score <= usize::MAX && m.penalties <= usize::MAX && #[trigger] board_at(ws, i as int, m)
            implies (placed matches Some(x) && grid_view(x) == m.placed) && (holds matches Some(x)
            && grid_view(x) == m.holds) && (rows matches Some(x) && x@ == m.bonus_rows) && (
        columns matches Some(x) && x@ == m.bonus_cols) && (tile_types matches Some(x) && x@
            == m.bonus_types) && score == Some(m.score as usize) && penalties == Some(
            m.penalties as usize,
        ) && semi by {
            assert(words@[i as int]@ == ws[i as int]);
            assert(words@[i + 1]@ == ws[i + 1]);
            assert(words@[i + 2]@ == ws[i + 2]);
            assert(words@[i + 3]@ == ws[i + 3]);
            assert(words@[i + 4]@ == ws[i + 4]);
            assert(words@[i + 5]@ == ws[i + 5]);
            assert(words@[i + 6]@ == ws[i + 6]);
            assert(words@[i + 7]@ == ws[i + 7]);
            assert(placed_ok(m.placed));
            assert(holds_ok(m.holds));
            lemma_nat_str(m.score);
            lemma_nat_str(m.penalties);
        }
    }
    match (placed, holds, rows, columns, tile_types, score, penalties) {
        (Some(placed), Some(holds), Some(rows), Some(columns), Some(tile_types), Some(score), Some(penalties)) => {
            if !semi {
                return None;
            }
            let b = Board {
                holds,
                placed,
                bonuses: BonusTypes { rows, columns, tile_types },
                penalties,
                score,
            };
            proof {
                assert forall|m: BoardModel|
                    m.wf() && m.score <= usize::MAX && m.penalties <= usize::MAX && #[trigger] board_at(
                        ws,
                        i as int,
                        m,
                    ) implies b@ == m by {}
            }
            Some(b)
        },
        _ => None,
    }
}

/// Reads one display pool: `-` when empty, otherwise one digit per tile, in increasing order.
fn parse_bowl(w: &Vec<char>) -> (r: Option<Bowl>)
    ensures
        r matches Some(b) ==> valid_tiles(b@) && sorted_tiles(b@) && w@ == bowl_str(b@),
        forall|s: Seq<Tile>|
            valid_tiles(s) && sorted_tiles(s) && w@ == #[trigger] bowl_str(s) ==> (r matches Some(b) && b@ == s),
{
    if is_mark(w, '-') {
        proof {
            assert forall|s: Seq<Tile>| valid_tiles(s) && w@ == #[trigger] bowl_str(s) implies s.len() == 0 by {
                if s.len() > 0 {
                    lemma_digit_roundtrip(s[0] as int);
                    assert(w@[0] == digit_char(s[0] as int));
                }
            }
        }
        let b = Bowl::new();
        assert(bowl_str(b@) =~= w@);
        return Some(b);
    }
    if w.len() == 0 {
        return None;
    }
    let v = match parse_tiles(w) {
        Some(v) => v,
        None => {
            return None;
        },
    };
    let mut i: usize = 1;
    while i < v.len()
        invariant
            1 <= i <= v@.len(),
            v@.len() == w@.len(),
            forall|a: int, b: int| 0 <= a < b < i ==> #[trigger] v@[a] <= #[trigger] v@[b],
            forall|s: Seq<Tile>| valid_tiles(s) && w@ == #[trigger] digits_str(s) ==> v@ == s,
            valid_tiles(v@) && w@ == digits_str(v@),
            w@ != seq!['-'],
        decreases v.len() - i,
    {
        if v[i - 1] > v[i] {
            proof {
                assert forall|s: Seq<Tile>|
                    valid_tiles(s) && sorted_tiles(s) && w@ == #[trigger] bowl_str(s) implies false by {
                    assert(s.len() > 0);
                    assert(w@ == digits_str(s));
                    assert(v@ == s);
                    assert(s[i - 1] <= s[i as int]);
                }
            }
            return None;
        }
        i += 1;
    }
    Some(Bowl::from_tiles(v))
}

/// The words are those of the canonical line of game `m`.
pub open spec fn words_encode(ws: Seq<Seq<char>>, m: GameModel) -> bool {
    m.wf() && state_words(m) == ws
}

/// The text is the canonical line of `m`, with or without its final newline.
pub open spec fn fen_matches(text: Seq<char>, m: GameModel) -> bool {
    text == encode_state(m) || text == join(state_words(m))
}

/// A canonical line, without its newline, does not end with one.
pub proof fn lemma_line_end(m: GameModel)
    requires
        m.wf(),
    ensures
        join(state_words(m)).len() > 0,
        join(state_words(m)).last() != '\n',
{
    let ws = state_words(m);
    lemma_state_words(m);
    lemma_join_last(ws);
    let last = ws.last();
    assert(last == first_str(m.first));
    match m.first {
        Some(p) => {
            lemma_nat_str(p as nat);
            assert(digit_of(last[last.len() - 1]) is Some);
        },
        None => {},
    }
    let j = join(ws);
    assert(j.subrange(j.len() - last.len(), j.len() as int)[last.len() - 1] == j.last());
}

/// Splits a line into its words, leaving out a final newline if there is one.
fn split_fen(azul_fen: &str) -> (r: Option<(Vec<Vec<char>>, Vec<char>, usize)>)
    ensures
        r matches Some((words, cs, n)) ==> cs@ == azul_fen@ && n <= cs@.len() && join(words_of(words@))
            == cs@.take(n as int) && (n == cs@.len() || (n + 1 == cs@.len() && cs@[n as int] == '\n')),
        forall|m: GameModel|
            m.wf() && #[trigger] fen_matches(azul_fen@, m) ==> (r matches Some((words, _, _)) && words_encode(
                words_of(words@),
                m,
            )),
{
    let cs = chars_of(azul_fen);
    if cs.len() == 0 {
        proof {
            assert forall|m: GameModel| m.wf() && #[trigger] fen_matches(azul_fen@, m) implies false by {
                lemma_line_end(m);
            }
        }
        return None;
    }
    let body_len = if cs[cs.len() - 1] == '\n' {
        cs.len() - 1
    } else {
        cs.len()
    };
    let words = split_words(&cs, body_len);
    let ghost ws = words_of(words@);
    proof {
        assert forall|m: GameModel| m.wf() && #[trigger] fen_matches(azul_fen@, m) implies words_encode(ws, m) by {
            lemma_state_words(m);
            lemma_line_end(m);
            if azul_fen@ == encode_state(m) {
                assert(cs@.take(body_len as int) =~= join(state_words(m)));
            } else {
                assert(cs@.take(body_len as int) =~= join(state_words(m)));
            }
            assert forall|k: int| 0 <= k < ws.len() implies no_space(#[trigger] ws[k]) by {
                assert(ws[k] == words@[k]@);
            }
            lemma_split_unique(ws, state_words(m));
        }
    }
    Some((words, cs, body_len))
}

pub proof fn lemma_board_at(ws: Seq<Seq<char>>, m: GameModel, j: int)
    requires
        words_encode(ws, m),
        0 <= j < m.boards.len(),
    ensures
        board_at(ws, 8 * j, m.boards[j]),
        ws[8 * j] != seq!['|'],
{
    let n = m.boards.len() as int;
    lemma_state_words(m);
    lemma_boards_words(m.boards, n);
    lemma_board_words(m.boards[j]);
    let bw = board_words(m.boards[j]);
    let all = boards_words(m.boards, n);
    assert(ws[8 * j + 0] == all[8 * j + 0]);
    assert(ws[8 * j + 1] == all[8 * j + 1]);
    assert(ws[8 * j + 2] == all[8 * j + 2]);
    assert(ws[8 * j + 3] == all[8 * j + 3]);
    assert(ws[8 * j + 4] == all[8 * j + 4]);
    assert(ws[8 * j + 5] == all[8 * j + 5]);
    assert(ws[8 * j + 6] == all[8 * j + 6]);
    assert(ws[8 * j + 7] == all[8 * j + 7]);
    assert(all[8 * j + 0] == bw[0]);
    assert(all[8 * j + 1] == bw[1]);
    assert(all[8 * j + 2] == bw[2]);
    assert(all[8 * j + 3] == bw[3]);
    assert(all[8 * j + 4] == bw[4]);
    assert(all[8 * j + 5] == bw[5]);
    assert(all[8 * j + 6] == bw[6]);
    assert(all[8 * j + 7] == bw[7]);
}

/// Facts about the words of a canonical line that the readers below rely on.
pub proof fn lemma_words_layout(ws: Seq<Seq<char>>, m: GameModel)
    requires
        words_encode(ws, m),
    ensures
        ws.len() == 8 * m.boards.len() + m.bowls.len() + 6,
        forall|j: int|
            0 <= j < m.boards.len() ==> #[trigger] board_at(ws, 8 * j, m.boards[j]) && ws[8 * j] != seq!['|'],
        ws[(8 * m.boards.len()) as int] == seq!['|'],
        forall|k: int|
            0 <= k < m.bowls.len() ==> ws[8 * m.boards.len() + 1 + k] == bowl_str(#[trigger] m.bowls[k])
                && ws[8 * m.boards.len() + 1 + k] != seq!['|'],
        ws[(8 * m.boards.len() + 1 + m.bowls.len()) as int] == seq!['|'],
        ws[(8 * m.boards.len() + 2 + m.bowls.len()) as int] == digits_str(m.bag),
        ws[(8 * m.boards.len() + 3 + m.bowls.len()) as int] == seq!['|'],
        ws[(8 * m.boards.len() + 4 + m.bowls.len()) as int] == nat_str(m.active as nat),
        ws[(8 * m.boards.len() + 5 + m.bowls.len()) as int] == first_str(m.first),
{
    let n = m.boards.len() as int;
    lemma_boards_words(m.boards, n);
    let a = boards_words(m.boards, n);
    let bar: Seq<Seq<char>> = seq![seq!['|']];
    let bw = Seq::new(m.bowls.len(), |k: int| bowl_str(m.bowls[k]));
    let tail: Seq<Seq<char>> = seq![
        seq!['|'],
        digits_str(m.bag),
        seq!['|'],
        nat_str(m.active as nat),
        first_str(m.first),
    ];
    assert(ws == a + bar + bw + tail);
    assert(ws[8 * n] == bar[0]);
    assert forall|k: int| 0 <= k < m.bowls.len() implies ws[8 * n + 1 + k] == bowl_str(#[trigger] m.bowls[k])
        && ws[8 * n + 1 + k] != seq!['|'] by {
        assert(ws[8 * n + 1 + k] == bw[k]);
        let t = m.bowls[k];
        if t.len() > 0 {
            lemma_digit_roundtrip(t[0] as int);
            assert(bowl_str(t)[0] == digit_char(t[0] as int));
        }
        assert(bowl_str(t)[0] != seq!['|'][0]);
    }
    let base = 8 * n + 1 + m.bowls.len();
    assert(ws[base + 0] == tail[0]);
    assert(ws[base + 1] == tail[1]);
    assert(ws[base + 2] == tail[2]);
    assert(ws[base + 3] == tail[3]);
    assert(ws[base + 4] == tail[4]);
    assert forall|j: int| 0 <= j < n implies #[trigger] board_at(ws, 8 * j, m.boards[j]) && ws[8 * j] != seq!['|'] by {
        lemma_board_at(ws, m, j);
    }
}

/// Reads the board records, up to the first `|`; returns them and the index after the `|`.
fn parse_boards_part(words: &Vec<Vec<char>>) -> (r: Option<(Vec<Board>, usize)>)
    ensures
        r matches Some((bs, i)) ==> i <= words@.len() && forall|j: int| 0 <= j < bs@.len() ==> (#[trigger] bs@[j])@.wf() && bs@[j]@.score <= usize::MAX && bs@[j]@.penalties <= usize::MAX,
        forall|m: GameModel|
            #[trigger] words_encode(words_of(words@), m) ==> (r matches Some((bs, i)) && bs@.map_values(
                |b: Board| b@,
            ) == m.boards && i == 8 * m.boards.len() + 1),
{
    let ghost ws = words_of(words@);
    let n = words.len();
    let mut boards: Vec<Board> = Vec::new();
    let mut i: usize = 0;
    while i < n && !is_mark(&words[i], '|')
        invariant
            n == words@.len(),
            ws == words_of(words@),
            i == 8 * boards@.len(),
            i <= n,
            forall|j: int| 0 <= j < boards@.len() ==> (#[trigger] boards@[j])@.wf() && boards@[j]@.score <= usize::MAX && boards@[j]@.penalties <= usize::MAX,
            forall|m: GameModel|
                #[trigger] words_encode(ws, m) ==> boards@.len() <= m.boards.len() && forall|j: int|
                    0 <= j < boards@.len() ==> (#[trigger] boards@[j])@ == m.boards[j],
        decreases n - i,
    {
        proof {
            assert forall|m: GameModel| #[trigger] words_encode(ws, m) implies boards@.len() < m.boards.len() by {
                lemma_words_layout(ws, m);
                assert(words@[i as int]@ == ws[i as int]);
                if boards@.len() < m.boards.len() {
                    let j = boards@.len() as int;
                    assert(board_at(ws, 8 * j, m.boards[j]));
                }
            }
        }
        if n - i < 8 {
            proof {
                assert forall|m: GameModel| #[trigger] words_encode(ws, m) implies false by {
                    lemma_words_layout(ws, m);
                }
            }
            return None;
        }
        let b = parse_board(words, i);
        proof {
            assert forall|m: GameModel| #[trigger] words_encode(ws, m) implies (b matches Some(x) && x@ == m.boards[boards@.len() as int]) by {
                lemma_words_layout(ws, m);
                let j = boards@.len() as int;
                assert(board_at(ws, 8 * j, m.boards[j]));
            }
        }
        match b {
            Some(b) => {
                boards.push(b);
            },
            None => {
                return None;
            },
        }
        i += 8;
    }
    proof {
        assert forall|m: GameModel| #[trigger] words_encode(ws, m) implies boards@.len() == m.boards.len() by {
            lemma_words_layout(ws, m);
            if boards@.len() < m.boards.len() {
                let j = boards@.len() as int;
                assert(board_at(ws, 8 * j, m.boards[j]));
                assert(words@[i as int]@ == ws[i as int]);
            }
        }
        assert forall|m: GameModel| #[trigger] words_encode(ws, m) implies boards@.map_values(|b: Board| b@) == m.boards by {
            assert(boards@.map_values(|b: Board| b@) =~= m.boards);
        }
    }
    if i >= n {
        proof {
            assert forall|m: GameModel| #[trigger] words_encode(ws, m) implies false by {
                lemma_words_layout(ws, m);
            }
        }
        return None;
    }
    Some((boards, i + 1))
}

/// Reads the display pools from word `start` up to the next `|`; returns them and the index
/// of that `|`.
fn parse_bowls_part(words: &Vec<Vec<char>>, start: usize) -> (r: Option<(Vec<Bowl>, usize)>)
    requires
        start <= words@.len(),
    ensures
        r matches Some((ws, i)) ==> i < words@.len() && forall|k: int| 0 <= k < ws@.len() ==> valid_tiles((#[trigger] ws@[k])@) && sorted_tiles(ws@[k]@),
        forall|m: GameModel|
            #[trigger] words_encode(words_of(words@), m) && start == 8 * m.boards.len() + 1 ==> (r matches Some((bw, i))
                && bw@.map_values(|w: Bowl| w@) == m.bowls && i == start + m.bowls.len()),
{
    let ghost ws = words_of(words@);
    let n = words.len();
    let mut bowls: Vec<Bowl> = Vec::new();
    let mut i: usize = start;
    while i < n && !is_mark(&words[i], '|')
        invariant
            n == words@.len(),
            ws == words_of(words@),
            i == start + bowls@.len(),
            i <= n,
            forall|k: int| 0 <= k < bowls@.len() ==> valid_tiles((#[trigger] bowls@[k])@) && sorted_tiles(bowls@[k]@),
            forall|m: GameModel|
                #[trigger] words_encode(ws, m) && start == 8 * m.boards.len() + 1 ==> bowls@.len() <= m.bowls.len()
                    && forall|k: int| 0 <= k < bowls@.len() ==> (#[trigger] bowls@[k])@ == m.bowls[k],
        decreases n - i,
    {
        let w = parse_bowl(&words[i]);
        proof {
            assert forall|m: GameModel| #[trigger] words_encode(ws, m) && start == 8 * m.boards.len() + 1 implies bowls@.len()
                < m.bowls.len() && (w matches Some(x) && x@ == m.bowls[bowls@.len() as int]) by {
                lemma_words_layout(ws, m);
                assert(words@[i as int]@ == ws[i as int]);
                if bowls@.len() < m.bowls.len() {
                    assert(ws[i as int] == bowl_str(m.bowls[bowls@.len() as int]));
                }
            }
        }
        match w {
            Some(w) => {
                bowls.push(w);
            },
            None => {
                return None;
            },
        }
        i += 1;
    }
    proof {
        assert forall|m: GameModel| #[trigger] words_encode(ws, m) && start == 8 * m.boards.len() + 1 implies bowls@.len()
            == m.bowls.len() by {
            lemma_words_layout(ws, m);
            if bowls@.len() < m.bowls.len() {
                assert(words@[i as int]@ == ws[i as int]);
            }
        }
        assert forall|m: GameModel| #[trigger] words_encode(ws, m) && start == 8 * m.boards.len() + 1 implies bowls@.map_values(|w: Bowl| w@) == m.bowls by {
            assert(bowls@.map_values(|w: Bowl| w@) =~= m.bowls);
        }
    }
    if i >= n {
        proof {
            assert forall|m: GameModel| #[trigger] words_encode(ws, m) && start == 8 * m.boards.len() + 1 implies false by {
                lemma_words_layout(ws, m);
            }
        }
        return None;
    }
    Some((bowls, i))
}

/// Reads the last five words, from the `|` at `i`: the bag, `|`, the active player and the
/// token holder.
fn parse_tail(words: &Vec<Vec<char>>, i: usize) -> (r: Option<(Vec<Tile>, usize, Option<usize>)>)
    requires
        i < words@.len(),
    ensures
        r matches Some((items, _, _)) ==> valid_tiles(items@),
        forall|m: GameModel|
            #[trigger] words_encode(words_of(words@), m) && i == 8 * m.boards.len() + 1 + m.bowls.len() ==> (r matches Some((items, a, f))
                && items@ == m.bag && a == m.active && f == m.first),
{
    let ghost ws = words_of(words@);
    let n = words.len();
    if n - i != 5 || !is_mark(&words[i], '|') || !is_mark(&words[i + 2], '|') {
        proof {
            assert forall|m: GameModel| #[trigger] words_encode(ws, m) && i == 8 * m.boards.len() + 1 + m.bowls.len() implies false by {
                lemma_words_layout(ws, m);
                assert(words@[i as int]@ == ws[i as int]);
                assert(words@[i + 2]@ == ws[i + 2]);
            }
        }
        return None;
    }
    let items = parse_tiles(&words[i + 1]);
    let active = parse_nat(&words[i + 3]);
    let dash = is_mark(&words[i + 4], '-');
    let first_num = parse_nat(&words[i + 4]);
    proof {
        assert forall|m: GameModel| #[trigger] words_encode(ws, m) && i == 8 * m.boards.len() + 1 + m.bowls.len() implies (items matches Some(v)
            && v@ == m.bag) && active == Some(m.active) && (match m.first {
            Some(p) => !dash && first_num == Some(p),
            None => dash,
        }) by {
            lemma_words_layout(ws, m);
            assert(words@[i + 1]@ == ws[i + 1]);
            assert(words@[i + 3]@ == ws[i + 3]);
            assert(words@[i + 4]@ == ws[i + 4]);
            assert(valid_tiles(m.bag));
            lemma_nat_str(m.active as nat);
            match m.first {
                Some(p) => {
                    lemma_nat_str(p as nat);
                    if dash {
                        assert(digit_of(ws[i + 4][0]) is Some);
                    }
                },
                None => {},
            }
        }
    }
    let first = if dash {
        None
    } else {
        match first_num {
            Some(p) => Some(p),
            None => {
                return None;
            },
        }
    };
    match (items, active) {
        (Some(items), Some(active)) => Some((items, active, first)),
        _ => None,
    }
}

impl GameState {
    /// Reads a game from its canonical text form. Exactly the canonical forms of well-formed
    /// games are accepted, and each gives back the game it encodes.
    pub fn from_azul_fen(azul_fen: &str) -> (r: Result<GameState, ParseGameStateError>)
        ensures
            r matches Ok(g) ==> g@.wf() && fen_matches(azul_fen@, g@),
            forall|m: GameModel| m.wf() && #[trigger] fen_matches(azul_fen@, m) ==> (r matches Ok(g) && g@ == m),
    {
        let (words, cs, body_len) = match split_fen(azul_fen) {
            Some(w) => w,
            None => {
                return Err(ParseGameStateError);
            },
        };
        let ghost ws = words_of(words@);
        let (boards, i) = match parse_boards_part(&words) {
            Some(x) => x,
            None => {
                return Err(ParseGameStateError);
            },
        };
        let (bowls, j) = match parse_bowls_part(&words, i) {
            Some(x) => x,
            None => {
                return Err(ParseGameStateError);
            },
        };
        let (items, active, first) = match parse_tail(&words, j) {
            Some(x) => x,
            None => {
                return Err(ParseGameStateError);
            },
        };
        let players = boards.len();
        let valid_first = match first {
            Some(p) => p < players,
            None => true,
        };
        if players == 0 || active >= players || !valid_first || bowls.len() < 2 || (bowls.len() - 2)
            / 2 != players || bowls.len() % 2 != 0 {
            return Err(ParseGameStateError);
        }
        let ghost bviews = boards@;
        let ghost wviews = bowls@;
        let game = GameState::builder().active_player(active).boards(boards).bowls(bowls).bag(
            Bag::from_items(items),
        ).first_token_owner(first).build();
        proof {
            assert forall|k: int| 0 <= k < game@.boards.len() implies (#[trigger] game@.boards[k]).wf()
                && game@.boards[k].score <= usize::MAX && game@.boards[k].penalties <= usize::MAX by {
                assert(game@.boards[k] == bviews[k]@);
            }
            assert forall|k: int| 0 <= k < game@.bowls.len() implies valid_tiles(#[trigger] game@.bowls[k])
                && sorted_tiles(game@.bowls[k]) by {
                assert(game@.bowls[k] == wviews[k]@);
            }
            assert(game@.wf());
            assert forall|m: GameModel| m.wf() && #[trigger] fen_matches(azul_fen@, m) implies game@ == m by {
                assert(words_encode(ws, m));
            }
        }
        let text = game.get_azul_fen();
        let back = chars_of(text.as_str());
        assert(back@ == join(state_words(game@)) + seq!['\n']);
        assert(forall|m: GameModel| m.wf() && #[trigger] fen_matches(azul_fen@, m) ==> back@ == cs@.take(body_len as int) + seq!['\n']);
        if back.len() == 0 || back.len() - 1 != body_len {
            return Err(ParseGameStateError);
        }
        let mut k: usize = 0;
        while k < body_len
            invariant
                k <= body_len,
                body_len <= cs@.len(),
                back@.len() == body_len + 1,
                forall|m: GameModel| m.wf() && #[trigger] fen_matches(azul_fen@, m) ==> back@ == cs@.take(body_len as int) + seq!['\n'],
                forall|j: int| 0 <= j < k ==> back@[j] == cs@[j],
            decreases body_len - k,
        {
            if back[k] != cs[k] {
                return Err(ParseGameStateError);
            }
            k += 1;
        }
        assert(join(state_words(game@)) =~= cs@.take(body_len as int));
        if body_len == cs.len() {
            assert(cs@.take(body_len as int) =~= cs@);
        } else {
            assert(cs@ =~= cs@.take(body_len as int) + seq!['\n']);
        }
        Ok(game)
    }
}

/// Returned for move text that is not six decimal digits.
#[derive(Debug, Clone, Copy, PartialEq, Eq, Structural)]
pub struct ParseMoveError;

/// The value of the two digits of `s` at `i` and `i + 1`.
pub open spec fn two_digits(s: Seq<char>, i: int) -> nat {
    10 * digits_value(seq![s[i]]) + digits_value(seq![s[i + 1]])
}

/// The move that six digits stand for: pool, tile type, then row, two digits each, where row
/// `00` is the floor and `NN` wall row `NN - 1`.
pub open spec fn move_of(s: Seq<char>) -> Move {
    let row = two_digits(s, 4);
    Move {
        bowl: two_digits(s, 0) as usize,
        tile_type: two_digits(s, 2) as usize,
        row: if row == 0 {
            Row::Floor
        } else {
            Row::Wall((row - 1) as usize)
        },
    }
}

/// Reads a move written as six digits: two for the pool, two for the tile type, two for the
/// row (`00` for the floor, `NN` for wall row `NN - 1`).
pub fn parse_move(input: &str) -> (r: Result<Move, ParseMoveError>)
    ensures
        r is Ok <==> input@.len() == 6 && all_digits(input@),
        r matches Ok(m) ==> m == move_of(input@),
{
    let cs = chars_of(input);
    if cs.len() != 6 {
        return Err(ParseMoveError);
    }
    let mut d: Vec<usize> = Vec::new();
    let mut i: usize = 0;
    while i < 6
        invariant
            i <= 6,
            cs@ == input@,
            cs@.len() == 6,
            d@.len() == i,
            forall|j: int| 0 <= j < i ==> #[trigger] digit_of(cs@[j]) == Some(d@[j] as nat) && d@[j] < 10,
        decreases 6 - i,
    {
        match char_digit(cs[i]) {
            Some(x) => d.push(x),
            None => {
                return Err(ParseMoveError);
            },
        }
        i += 1;
    }
    let row = d[4] * 10 + d[5];
    let m = Move {
        bowl: d[0] * 10 + d[1],
        tile_type: d[2] * 10 + d[3],
        row: if row == 0 {
            Row::Floor
        } else {
            Row::Wall(row - 1)
        },
    };
    proof {
        assert forall|j: int| 0 <= j < 6 implies digits_value(#[trigger] seq![input@[j]]) == d@[j] by {
            assert(seq![input@[j]].drop_last() =~= Seq::<char>::empty());
            assert(digits_value(Seq::<char>::empty()) == 0);
            assert(seq![input@[j]].last() == input@[j]);
            assert(digit_of(input@[j]) == Some(d@[j] as nat));
        }
        assert(digits_value(seq![input@[0]]) == d@[0]);
        assert(digits_value(seq![input@[1]]) == d@[1]);
        assert(digits_value(seq![input@[2]]) == d@[2]);
        assert(digits_value(seq![input@[3]]) == d@[3]);
        assert(digits_value(seq![input@[4]]) == d@[4]);
        assert(digits_value(seq![input@[5]]) == d@[5]);
    }
    Ok(m)
}

impl Bowl {
    /// Reads a display pool from its text form: `-` when empty, otherwise one digit per tile.
    pub fn from_bowl_fen(bowl_fen: &str) -> (r: Result<Bowl, ParseGameStateError>)
        ensures
            r matches Ok(b) ==> valid_tiles(b@) && sorted_tiles(b@) && bowl_fen@ == bowl_str(b@),
            forall|s: Seq<Tile>|
                valid_tiles(s) && sorted_tiles(s) && bowl_fen@ == #[trigger] bowl_str(s) ==> (r matches Ok(b)
                    && b@ == s),
    {
        let cs = chars_of(bowl_fen);
        match parse_bowl(&cs) {
            Some(b) => Ok(b),
            None => Err(ParseGameStateError),
        }
    }
}

impl Board {
    /// Reads a board from the seven fields of its record (without the closing `;`).
    pub fn from_board_fen(board_fen: &str) -> (r: Result<Board, ParseGameStateError>)
        ensures
            r matches Ok(b) ==> b@.wf() && board_fen@ == join(board_words(b@).take(7)),
            forall|m: BoardModel|
                m.wf() && m.score <= usize::MAX && m.penalties <= usize::MAX && board_fen@ == #[trigger] join(
                    board_words(m).take(7),
                ) ==> (r matches Ok(b) && b@ == m),
    {
        let cs = chars_of(board_fen);
        let mut words = split_words(&cs, cs.len());
        let ghost ws = words_of(words@);
        proof {
            assert(cs@.take(cs@.len() as int) =~= cs@);
            assert forall|m: BoardModel|
                m.wf() && m.score <= usize::MAX && m.penalties <= usize::MAX && board_fen@ == #[trigger] join(
                    board_words(m).take(7),
                ) implies ws == board_words(m).take(7) by {
                lemma_board_words(m);
                assert forall|k: int| 0 <= k < 7 implies no_space(#[trigger] board_words(m).take(7)[k]) by {
                    assert(board_words(m).take(7)[k] == board_words(m)[k]);
                }
                assert forall|k: int| 0 <= k < ws.len() implies no_space(#[trigger] ws[k]) by {
                    assert(ws[k] == words@[k]@);
                }
                lemma_split_unique(ws, board_words(m).take(7));
            }
        }
        if words.len() != 7 {
            return Err(ParseGameStateError);
        }
        let mut semi: Vec<char> = Vec::new();
        semi.push(';');
        words.push(semi);
        assert(words_of(words@) =~= ws.push(seq![';']));
        proof {
            assert forall|m: BoardModel|
                m.wf() && m.score <= usize::MAX && m.penalties <= usize::MAX && board_fen@ == #[trigger] join(
                    board_words(m).take(7),
                ) implies board_at(words_of(words@), 0, m) by {
                assert(board_words(m) =~= board_words(m).take(7).push(seq![';']));
                assert(words_of(words@) =~= board_words(m));
            }
        }
        let b = match parse_board(&words, 0) {
            Some(b) => b,
            None => {
                return Err(ParseGameStateError);
            },
        };
        let text = b.board_fen();
        let back = chars_of(text.as_str());
        proof {
            let w = board_words(b@);
            assert(w =~= w.take(7).push(seq![';']));
            lemma_join_push(w.take(7), seq![';']);
            assert(back@ =~= join(w.take(7)) + seq![' ', ';']);
            assert forall|m: BoardModel|
                m.wf() && m.score <= usize::MAX && m.penalties <= usize::MAX && board_fen@ == #[trigger] join(
                    board_words(m).take(7),
                ) implies back@ == cs@ + seq![' ', ';'] by {
                assert(b@ == m);
            }
        }
        if back.len() < 2 || back.len() - 2 != cs.len() {
            return Err(ParseGameStateError);
        }
        let n = cs.len();
        let mut k: usize = 0;
        while k < n
            invariant
                k <= n,
                n == cs@.len(),
                back@.len() == n + 2,
                forall|j: int| 0 <= j < k ==> back@[j] == cs@[j],
                forall|m: BoardModel|
                    m.wf() && m.score <= usize::MAX && m.penalties <= usize::MAX && board_fen@ == #[trigger] join(
                        board_words(m).take(7),
                    ) ==> back@ == cs@ + seq![' ', ';'],
            decreases n - k,
        {
            if back[k] != cs[k] {
                return Err(ParseGameStateError);
            }
            k += 1;
        }
        if back[n] != ' ' || back[n + 1] != ';' {
            return Err(ParseGameStateError);
        }
        proof {
            let w = board_words(b@);
            assert(join(w.take(7)) =~= back@.take(n as int));
            assert(cs@ =~= back@.take(n as int));
        }
        Ok(b)
    }
}

/// Values that can be written in the canonical text form.
pub trait ToAzulFEN {
    spec fn fen_ready(&self) -> bool;

    spec fn fen_text(&self) -> Seq<char>;

    fn to_azul_fen(&self) -> (r: String)
        requires
            self.fen_ready(),
        ensures
            r@ == self.fen_text(),
    ;
}

/// Values that can be read back from the canonical text form.
pub trait FromAzulFEN: Sized {
    /// Whether `text` is the canonical text of `v`.
    spec fn is_fen_of(text: Seq<char>, v: Self) -> bool;

    /// Whether two values have the same content.
    spec fn same_content(a: Self, b: Self) -> bool;

    /// Accepts exactly the canonical texts, and gives back the value each one stands for.
    fn from_azul_fen(fen: &str) -> (r: Result<Self, ParseGameStateError>)
        ensures
            r matches Ok(v) ==> Self::is_fen_of(fen@, v),
            forall|v: Self| #[trigger] Self::is_fen_of(fen@, v) ==> (r matches Ok(w) && Self::same_content(w, v)),
    ;
}

impl ToAzulFEN for GameState {
    open spec fn fen_ready(&self) -> bool {
        self@.wf()
    }

    open spec fn fen_text(&self) -> Seq<char> {
        encode_state(self@)
    }

    fn to_azul_fen(&self) -> (r: String) {
        self.get_azul_fen()
    }
}

impl FromAzulFEN for GameState {
    open spec fn is_fen_of(text: Seq<char>, v: GameState) -> bool {
        v@.wf() && fen_matches(text, v@)
    }

    open spec fn same_content(a: GameState, b: GameState) -> bool {
        a@ == b@
    }

    fn from_azul_fen(fen: &str) -> (r: Result<GameState, ParseGameStateError>) {
        let r = GameState::from_azul_fen(fen);
        assert forall|v: GameState| #[trigger] Self::is_fen_of(fen@, v) implies (r matches Ok(w) && w@ == v@) by {
            assert(fen_matches(fen@, v@));
        }
        r
    }
}

impl FromAzulFEN for Board {
    open spec fn is_fen_of(text: Seq<char>, v: Board) -> bool {
        v@.wf() && text == join(board_words(v@).take(7))
    }

    open spec fn same_content(a: Board, b: Board) -> bool {
        a@ == b@
    }

    fn from_azul_fen(fen: &str) -> (r: Result<Board, ParseGameStateError>) {
        let r = Board::from_board_fen(fen);
        assert forall|v: Board| #[trigger] Self::is_fen_of(fen@, v) implies (r matches Ok(w) && w@ == v@) by {
            assert(fen@ == join(board_words(v@).take(7)));
        }
        r
    }
}

impl FromAzulFEN for Bowl {
    open spec fn is_fen_of(text: Seq<char>, v: Bowl) -> bool {
        valid_tiles(v@) && sorted_tiles(v@) && text == bowl_str(v@)
    }

    open spec fn same_content(a: Bowl, b: Bowl) -> bool {
        a@ == b@
    }

    fn from_azul_fen(fen: &str) -> (r: Result<Bowl, ParseGameStateError>) {
        let r = Bowl::from_bowl_fen(fen);
        assert forall|v: Bowl| #[trigger] Self::is_fen_of(fen@, v) implies (r matches Ok(w) && w@ == v@) by {
            assert(fen@ == bowl_str(v@));
        }
        r
    }
}

} // verus!
