use crate::engine::{cache, Engine, Eval, Evaluation, Mode, Ratio, State};
use vstd::prelude::*;

verus! {

#[derive(Debug, Clone, Copy, PartialEq, Eq, Hash, Structural)]
pub enum Player {
    X,
    O,
}

impl Player {
    pub open spec fn other(self) -> Player {
        match self {
            Player::X => Player::O,
            Player::O => Player::X,
        }
    }

    /// The opponent.
    pub fn not(self) -> (r: Player)
        ensures
            r == self.other(),
    {
        match self {
            Player::X => Player::O,
            Player::O => Player::X,
        }
    }
}

#[derive(Debug, Clone, Copy, PartialEq, Eq, Hash, Structural)]
pub enum Field {
    Player(Player),
    Empty,
}

/// A 3x3 board, cell `(x, y)` at index `3 * x + y`, and the player to move.
#[derive(Debug, Clone, Copy, PartialEq, Eq, Hash)]
pub struct Board {
    fields: [Field; 9],
    player: Player,
}

/// Index of cell `(x, y)`.
pub open spec fn idx(x: int, y: int) -> int {
    3 * x + y
}

/// Whether the cells at `a`, `b` and `c` all hold `p`.
pub open spec fn line(cells: Seq<Field>, p: Player, a: int, b: int, c: int) -> bool {
    cells[a] == Field::Player(p) && cells[b] == Field::Player(p) && cells[c] == Field::Player(p)
}

/// Whether `p` holds a full row, column or diagonal.
pub open spec fn wins(cells: Seq<Field>, p: Player) -> bool {
    ||| line(cells, p, 0, 1, 2)
    ||| line(cells, p, 3, 4, 5)
    ||| line(cells, p, 6, 7, 8)
    ||| line(cells, p, 0, 3, 6)
    ||| line(cells, p, 1, 4, 7)
    ||| line(cells, p, 2, 5, 8)
    ||| line(cells, p, 0, 4, 8)
    ||| line(cells, p, 2, 4, 6)
}

/// Number of empty cells among the first `n`.
pub open spec fn count_empty(cells: Seq<Field>, n: nat) -> nat
    decreases n,
{
    if n == 0 {
        0
    } else {
        count_empty(cells, (n - 1) as nat) + if cells[n - 1] == Field::Empty {
            1nat
        } else {
            0nat
        }
    }
}

/// The empty cells among the first `n`, as `(x, y)`, row by row.
pub open spec fn empties(cells: Seq<Field>, n: nat) -> Seq<(usize, usize)>
    decreases n,
{
    if n == 0 {
        Seq::empty()
    } else if cells[n - 1] == Field::Empty {
        empties(cells, (n - 1) as nat).push((((n - 1) / 3) as usize, ((n - 1) % 3) as usize))
    } else {
        empties(cells, (n - 1) as nat)
    }
}

/// Two-bit code of a cell.
pub open spec fn field_code(f: Field) -> u64 {
    match f {
        Field::Empty => 0,
        Field::Player(Player::X) => 1,
        Field::Player(Player::O) => 2,
    }
}

/// One-bit code of the player to move.
pub open spec fn player_code(p: Player) -> u64 {
    match p {
        Player::X => 0,
        Player::O => 1,
    }
}

/// The character that shows a cell.
pub open spec fn symbol(f: Field) -> char {
    match f {
        Field::Player(Player::X) => 'X',
        Field::Player(Player::O) => 'O',
        Field::Empty => ' ',
    }
}

/// Three lines of three symbols, each ended by a newline.
pub open spec fn rendered(cells: Seq<Field>) -> Seq<char> {
    Seq::new(
        12,
        |k: int|
            if k % 4 == 3 {
                '\n'
            } else {
                symbol(cells[3 * (k / 4) + k % 4])
            },
    )
}

proof fn lemma_empties(cells: Seq<Field>, n: nat, d: (usize, usize))
    requires
        n <= 9,
        cells.len() == 9,
        empties(cells, n).contains(d),
    ensures
        d.0 < 3,
        d.1 < 3,
        idx(d.0 as int, d.1 as int) < n,
        cells[idx(d.0 as int, d.1 as int)] == Field::Empty,
    decreases n,
{
    if n > 0 {
        let k = (n - 1) as int;
        let prev = empties(cells, (n - 1) as nat);
        let j = choose|j: int| 0 <= j < empties(cells, n).len() && empties(cells, n)[j] == d;
        if cells[k] == Field::Empty {
            let last = ((k / 3) as usize, (k % 3) as usize);
            assert(empties(cells, n) == prev.push(last));
            if j < prev.len() {
                assert(prev[j] == d);
                lemma_empties(cells, (n - 1) as nat, d);
            } else {
                assert(d == last);
                assert(k / 3 < 3 && k % 3 < 3 && 3 * (k / 3) + k % 3 == k) by (nonlinear_arith)
                    requires
                        0 <= k < 9,
                ;
            }
        } else {
            assert(prev[j] == d);
            lemma_empties(cells, (n - 1) as nat, d);
        }
    }
}

/// The memo key of a board: two bits per cell, then one bit for the player to move.
pub open spec fn key_of(c: Seq<Field>, p: Player) -> u64 {
    field_code(c[0]) | (field_code(c[1]) << 2u64) | (field_code(c[2]) << 4u64) | (field_code(c[3])
        << 6u64) | (field_code(c[4]) << 8u64) | (field_code(c[5]) << 10u64) | (field_code(c[6])
        << 12u64) | (field_code(c[7]) << 14u64) | (field_code(c[8]) << 16u64) | (player_code(p)
        << 18u64)
}

proof fn lemma_key_fields(c0: u64, c1: u64, c2: u64, c3: u64, c4: u64, c5: u64, c6: u64, c7: u64, c8: u64, p: u64)
    requires
        c0 < 4 && c1 < 4 && c2 < 4 && c3 < 4 && c4 < 4 && c5 < 4 && c6 < 4 && c7 < 4 && c8 < 4,
        p < 2,
    ensures
        ({
            let k = c0 | (c1 << 2u64) | (c2 << 4u64) | (c3 << 6u64) | (c4 << 8u64) | (c5 << 10u64)
                | (c6 << 12u64) | (c7 << 14u64) | (c8 << 16u64) | (p << 18u64);
            &&& k & 3 == c0
            &&& (k >> 2u64) & 3 == c1
            &&& (k >> 4u64) & 3 == c2
            &&& (k >> 6u64) & 3 == c3
            &&& (k >> 8u64) & 3 == c4
            &&& (k >> 10u64) & 3 == c5
            &&& (k >> 12u64) & 3 == c6
            &&& (k >> 14u64) & 3 == c7
            &&& (k >> 16u64) & 3 == c8
            &&& (k >> 18u64) & 1 == p
        }),
{
    assert({
        let k = c0 | (c1 << 2u64) | (c2 << 4u64) | (c3 << 6u64) | (c4 << 8u64) | (c5 << 10u64)
            | (c6 << 12u64) | (c7 << 14u64) | (c8 << 16u64) | (p << 18u64);
        &&& k & 3 == c0
        &&& (k >> 2u64) & 3 == c1
        &&& (k >> 4u64) & 3 == c2
        &&& (k >> 6u64) & 3 == c3
        &&& (k >> 8u64) & 3 == c4
        &&& (k >> 10u64) & 3 == c5
        &&& (k >> 12u64) & 3 == c6
        &&& (k >> 14u64) & 3 == c7
        &&& (k >> 16u64) & 3 == c8
        &&& (k >> 18u64) & 1 == p
    }) by (bit_vector)
        requires
            c0 < 4 && c1 < 4 && c2 < 4 && c3 < 4 && c4 < 4 && c5 < 4 && c6 < 4 && c7 < 4 && c8
                < 4,
            p < 2,
    ;
}

proof fn lemma_count_update(c: Seq<Field>, n: nat, t: int, f: Field)
    requires
        n <= c.len(),
        0 <= t < c.len(),
        c[t] == Field::Empty,
        f != Field::Empty,
    ensures
        t < n ==> count_empty(c.update(t, f), n) + 1 == count_empty(c, n),
        t >= n ==> count_empty(c.update(t, f), n) == count_empty(c, n),
    decreases n,
{
    if n > 0 {
        lemma_count_update(c, (n - 1) as nat, t, f);
    }
}

proof fn lemma_code_injective(f: Field, g: Field)
    requires
        field_code(f) == field_code(g),
    ensures
        f == g,
{
}

proof fn lemma_key_decodes(c: Seq<Field>, p: Player)
    requires
        c.len() == 9,
    ensures
        forall|i: int|
            0 <= i < 9 ==> #[trigger] field_code(c[i]) == (key_of(c, p) >> (2 * i) as u64) & 3,
        player_code(p) == (key_of(c, p) >> 18u64) & 1,
{
    lemma_key_fields(
        field_code(c[0]),
        field_code(c[1]),
        field_code(c[2]),
        field_code(c[3]),
        field_code(c[4]),
        field_code(c[5]),
        field_code(c[6]),
        field_code(c[7]),
        field_code(c[8]),
        player_code(p),
    );
    assert forall|i: int| 0 <= i < 9 implies #[trigger] field_code(c[i]) == (key_of(c, p) >> (2
        * i) as u64) & 3 by {
        if i == 0 {
            let k = key_of(c, p);
            assert((k >> 0u64) == k) by (bit_vector);
        } else if i == 1 {
        } else if i == 2 {
        } else if i == 3 {
        } else if i == 4 {
        } else if i == 5 {
        } else if i == 6 {
        } else if i == 7 {
        } else {
        }
    }
}

fn field_code_exec(f: Field) -> (r: u64)
    ensures
        r == field_code(f),
{
    match f {
        Field::Empty => 0,
        Field::Player(Player::X) => 1,
        Field::Player(Player::O) => 2,
    }
}

impl Board {
    pub closed spec fn cells(&self) -> Seq<Field> {
        self.fields@
    }

    pub closed spec fn to_move(&self) -> Player {
        self.player
    }

    /// The player to move.
    pub fn player(&self) -> (r: Player)
        ensures
            r == self.to_move(),
    {
        self.player
    }

    /// The empty board, X to move.
    pub fn new() -> (r: Board)
        ensures
            r.cells() == Seq::new(9, |i: int| Field::Empty),
            r.to_move() == Player::X,
    {
        let r = Board { fields: [Field::Empty;9], player: Player::X };
        assert(r.cells() =~= Seq::new(9, |i: int| Field::Empty));
        r
    }

    /// Puts `field` into cell `(x, y)`.
    pub fn set(&mut self, x: usize, y: usize, field: Field)
        requires
            x < 3,
            y < 3,
        ensures
            final(self).cells() == old(self).cells().update(idx(x as int, y as int), field),
            final(self).to_move() == old(self).to_move(),
    {
        self.fields[3 * x + y] = field;
    }

    /// The content of cell `(x, y)`.
    pub fn get(&self, x: usize, y: usize) -> (r: Field)
        requires
            x < 3,
            y < 3,
        ensures
            r == self.cells()[idx(x as int, y as int)],
    {
        self.fields[3 * x + y]
    }

    /// Whether no cell is empty.
    pub fn is_full(&self) -> (r: bool)
        ensures
            r == (forall|i: int| 0 <= i < 9 ==> self.cells()[i] != Field::Empty),
            r == (count_empty(self.cells(), 9) == 0),
    {
        let mut i: usize = 0;
        while i < 9
            invariant
                0 <= i <= 9,
                self.fields@.len() == 9,
                forall|j: int| 0 <= j < i ==> self.fields@[j] != Field::Empty,
                count_empty(self.fields@, i as nat) == 0,
            decreases 9 - i,
        {
            if self.fields[i] == Field::Empty {
                proof {
                    lemma_count_positive(self.fields@, i as nat, 9);
                }
                return false;
            }
            i = i + 1;
        }
        true
    }

    fn holds_line(&self, p: Player, a: usize, b: usize, c: usize) -> (r: bool)
        requires
            a < 9 && b < 9 && c < 9,
        ensures
            r == line(self.cells(), p, a as int, b as int, c as int),
    {
        self.fields[a] == Field::Player(p) && self.fields[b] == Field::Player(p) && self.fields[c]
            == Field::Player(p)
    }

    /// Whether `player` holds a full row, column or diagonal.
    pub fn is_winner(&self, player: Player) -> (r: bool)
        ensures
            r == wins(self.cells(), player),
    {
        self.holds_line(player, 0, 1, 2) || self.holds_line(player, 3, 4, 5) || self.holds_line(
            player,
            6,
            7,
            8,
        ) || self.holds_line(player, 0, 3, 6) || self.holds_line(player, 1, 4, 7)
            || self.holds_line(player, 2, 5, 8) || self.holds_line(player, 0, 4, 8)
            || self.holds_line(player, 2, 4, 6)
    }

    /// The player with a full line, X first.
    pub fn winner(&self) -> (r: Option<Player>)
        ensures
            r == (if wins(self.cells(), Player::X) {
                Some(Player::X)
            } else if wins(self.cells(), Player::O) {
                Some(Player::O)
            } else {
                None
            }),
    {
        if self.is_winner(Player::X) {
            Some(Player::X)
        } else if self.is_winner(Player::O) {
            Some(Player::O)
        } else {
            None
        }
    }
}

proof fn lemma_count_positive(c: Seq<Field>, i: nat, n: nat)
    requires
        i < n <= c.len(),
        c[i as int] == Field::Empty,
    ensures
        count_empty(c, n) > 0,
    decreases n,
{
    if n - 1 > i {
        lemma_count_positive(c, i, (n - 1) as nat);
    }
}

impl State for Board {
    type Decision = (usize, usize);

    open spec fn spec_key(&self) -> u64 {
        key_of(self.cells(), self.to_move())
    }

    open spec fn rank(&self) -> nat {
        count_empty(self.cells(), 9)
    }

    open spec fn spec_decisions(&self) -> Seq<(usize, usize)> {
        empties(self.cells(), 9)
    }

    closed spec fn spec_successor(&self, d: (usize, usize)) -> Board {
        Board {
            fields: vstd::array::spec_array_update(
                self.fields,
                idx(d.0 as int, d.1 as int),
                Field::Player(self.player),
            ),
            player: self.player.other(),
        }
    }

    proof fn lemma_key_injective(a: Board, b: Board) {
        let ca = a.fields@;
        let cb = b.fields@;
        lemma_key_decodes(ca, a.player);
        lemma_key_decodes(cb, b.player);
        assert forall|i: int| 0 <= i < 9 implies ca[i] == cb[i] by {
            lemma_code_injective(ca[i], cb[i]);
        }
        assert(a.fields =~= b.fields);
    }

    proof fn lemma_rank_decreases(s: Board, d: (usize, usize)) {
        lemma_empties(s.fields@, 9, d);
        let t = idx(d.0 as int, d.1 as int);
        lemma_count_update(s.fields@, 9, t, Field::Player(s.player));
        assert(s.spec_successor(d).fields@ == s.fields@.update(t, Field::Player(s.player)));
    }

    fn copy_decision(d: &(usize, usize)) -> (r: (usize, usize)) {
        *d
    }

    fn key(&self) -> (r: u64) {
        let c = &self.fields;
        let p: u64 = match self.player {
            Player::X => 0,
            Player::O => 1,
        };
        field_code_exec(c[0]) | (field_code_exec(c[1]) << 2u64) | (field_code_exec(c[2]) << 4u64)
            | (field_code_exec(c[3]) << 6u64) | (field_code_exec(c[4]) << 8u64) | (field_code_exec(
            c[5],
        ) << 10u64) | (field_code_exec(c[6]) << 12u64) | (field_code_exec(c[7]) << 14u64) | (
        field_code_exec(c[8]) << 16u64) | (p << 18u64)
    }

    fn decisions(&self) -> (r: Vec<(usize, usize)>) {
        let mut r: Vec<(usize, usize)> = Vec::new();
        let mut i: usize = 0;
        while i < 9
            invariant
                0 <= i <= 9,
                self.fields@.len() == 9,
                r@ == empties(self.fields@, i as nat),
            decreases 9 - i,
        {
            if self.fields[i] == Field::Empty {
                r.push((i / 3, i % 3));
            }
            i = i + 1;
        }
        r
    }

    fn successor(&self, d: &(usize, usize)) -> (r: Board) {
        proof {
            lemma_empties(self.fields@, 9, *d);
        }
        let mut b = *self;
        b.fields[3 * d.0 + d.1] = Field::Player(self.player);
        b.player = self.player.not();
        assert(b.fields =~= self.spec_successor(*d).fields);
        b
    }
}

/// Scores boards from one player's side: a win is worth 100, a loss -100, a draw 0.
#[derive(Debug, Clone, Copy, PartialEq, Eq, Structural)]
pub struct Scorer {
    pub player: Player,
}

impl Eval<Board> for Scorer {
    open spec fn spec_evaluate(&self, b: Board) -> Evaluation {
        if wins(b.cells(), self.player) {
            Evaluation::Value(100)
        } else if wins(b.cells(), self.player.other()) {
            Evaluation::Value(-100i64)
        } else if count_empty(b.cells(), 9) == 0 {
            Evaluation::Value(0)
        } else if b.to_move() == self.player {
            Evaluation::Mode(Mode::Maximize)
        } else {
            Evaluation::Mode(Mode::Minimize)
        }
    }

    fn evaluate(&self, b: &Board) -> (r: Evaluation) {
        if b.is_winner(self.player) {
            Evaluation::Value(100)
        } else if b.is_winner(self.player.not()) {
            Evaluation::Value(-100i64)
        } else if b.is_full() {
            Evaluation::Value(0)
        } else if b.player == self.player {
            Evaluation::Mode(Mode::Maximize)
        } else {
            Evaluation::Mode(Mode::Minimize)
        }
    }
}

/// A search session playing for `player`, blending at 99/100.
pub fn eval(player: Player) -> (r: Engine<Board, Scorer>)
    ensures
        r.wf(),
        r.spec_oracle() == (Scorer { player }),
        r.spec_ratio().spec_num() == 99,
        r.spec_ratio().spec_den() == 100,
{
    let q = Ratio::new(99, 100).unwrap();
    cache(Scorer { player }, q)
}

/// The board as three lines of `X`, `O` or blank, each ended by a newline.
pub fn display(board: Board) -> (r: String)
    ensures
        r@ == rendered(board.cells()),
{
    let mut r = String::new();
    let mut k: usize = 0;
    while k < 12
        invariant
            0 <= k <= 12,
            board.fields@.len() == 9,
            r@ == rendered(board.cells()).take(k as int),
        decreases 12 - k,
    {
        proof {
            reveal_strlit("X");
            reveal_strlit("O");
            reveal_strlit(" ");
            reveal_strlit("\n");
        }
        let ghost prev = r@;
        if k % 4 == 3 {
            r.append("\n");
        } else {
            match board.fields[3 * (k / 4) + k % 4] {
                Field::Player(Player::X) => r.append("X"),
                Field::Player(Player::O) => r.append("O"),
                Field::Empty => r.append(" "),
            }
        }
        assert(r@ == prev.push(rendered(board.cells())[k as int]));
        assert(r@ =~= rendered(board.cells()).take(k + 1));
        k = k + 1;
    }
    assert(r@ =~= rendered(board.cells()));
    r
}

} // verus!
