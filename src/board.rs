use vstd::prelude::*;
use crate::cell::{Cell, CellValue, digit, display_char, lemma_digit_value, lemma_push_ascending, strictly_ascending};

verus! {

/// A 9x9 sudoku board, and whether its solving should be reported step by step.
#[derive(Debug, Default, Clone, PartialEq, Eq)]
pub struct SudokuBoard {
    cells: [[Cell; 9]; 9],
    pub verbose: bool,
}

/// Whether `g` has 9 rows of 9 values each.
pub open spec fn is_grid(g: Seq<Seq<CellValue>>) -> bool {
    g.len() == 9 && forall|r: int| 0 <= r < 9 ==> #[trigger] g[r].len() == 9
}

/// The row of the `k`-th square (row-major, 0..9) of the box holding row `r`.
pub open spec fn box_row(r: int, k: int) -> int {
    r / 3 * 3 + k / 3
}

/// The column of the `k`-th square (row-major, 0..9) of the box holding column `c`.
pub open spec fn box_col(c: int, k: int) -> int {
    c / 3 * 3 + k % 3
}

/// Whether `v` stands at the `k`-th square of the row, of the column or of the 3x3 box of (r, c).
pub open spec fn unit_has(g: Seq<Seq<CellValue>>, r: int, c: int, k: int, v: CellValue) -> bool {
    g[r][k] == v || g[k][c] == v || g[box_row(r, k)][box_col(c, k)] == v
}

/// Whether `v` stands somewhere in the row, the column or the 3x3 box of square (r, c),
/// that square included.
pub open spec fn seen(g: Seq<Seq<CellValue>>, r: int, c: int, v: CellValue) -> bool {
    exists|k: int| 0 <= k < 9 && #[trigger] unit_has(g, r, c, k, v)
}

/// The naive candidates of (r, c): the digits that stand nowhere in its row, column or box.
pub open spec fn naive(g: Seq<Seq<CellValue>>, r: int, c: int, v: CellValue) -> bool {
    !(v is Empty) && !seen(g, r, c, v)
}

/// Whether `v` is a naive candidate of the `k`-th square, other than (r, c) itself, of the row,
/// of the column or of the box of (r, c).
pub open spec fn peer_naive(g: Seq<Seq<CellValue>>, r: int, c: int, k: int, v: CellValue) -> bool {
    ||| (k != c && naive(g, r, k, v))
    ||| (k != r && naive(g, k, c, v))
    ||| ((box_row(r, k) != r || box_col(c, k) != c) && naive(g, box_row(r, k), box_col(c, k), v))
}

/// Whether `v` is a naive candidate of some peer of (r, c): another square of its row, of its
/// column, or of its box. A square of the box that shares the row or the column of (r, c) is
/// reached twice, which changes nothing: the peers are the twenty squares other than (r, c)
/// that share a row, a column or a box with it.
pub open spec fn peer_allows(g: Seq<Seq<CellValue>>, r: int, c: int, v: CellValue) -> bool {
    exists|k: int| 0 <= k < 9 && #[trigger] peer_naive(g, r, c, k, v)
}

/// A naive candidate of (r, c) that no peer can take: it is forced into (r, c).
pub open spec fn exclusive(g: Seq<Seq<CellValue>>, r: int, c: int, v: CellValue) -> bool {
    naive(g, r, c, v) && !peer_allows(g, r, c, v)
}

/// Whether some value is forced into (r, c).
pub open spec fn has_exclusive(g: Seq<Seq<CellValue>>, r: int, c: int) -> bool {
    exists|v: CellValue| #[trigger] exclusive(g, r, c, v)
}

/// Whether two different values are both forced into (r, c): the board cannot be completed.
pub open spec fn conflict(g: Seq<Seq<CellValue>>, r: int, c: int) -> bool {
    exists|v: CellValue, w: CellValue| v != w && #[trigger] exclusive(g, r, c, v) && #[trigger] exclusive(g, r, c, w)
}

/// The candidates of (r, c): the forced value where there is one, else the naive candidates.
pub open spec fn candidate(g: Seq<Seq<CellValue>>, r: int, c: int, v: CellValue) -> bool {
    if has_exclusive(g, r, c) {
        exclusive(g, r, c, v)
    } else {
        naive(g, r, c, v)
    }
}

/// Whether `v` is the one and only candidate of (r, c).
pub open spec fn single_candidate(g: Seq<Seq<CellValue>>, r: int, c: int, v: CellValue) -> bool {
    candidate(g, r, c, v) && forall|w: CellValue| #[trigger] candidate(g, r, c, w) ==> w == v
}

/// Whether the elimination rules can do nothing more at (r, c): no value is forced twice over,
/// and there is no single candidate to place.
pub open spec fn stuck(g: Seq<Seq<CellValue>>, r: int, c: int) -> bool {
    !conflict(g, r, c) && forall|v: CellValue| !#[trigger] single_candidate(g, r, c, v)
}

/// Whether every empty square of `g` is stuck: a fixed point of solving.
pub open spec fn stalled(g: Seq<Seq<CellValue>>) -> bool {
    forall|r: int, c: int|
        0 <= r < 9 && 0 <= c < 9 && (#[trigger] g[r][c] is Empty) ==> stuck(g, r, c)
}

/// Whether no square of `g` is empty.
pub open spec fn solved(g: Seq<Seq<CellValue>>) -> bool {
    forall|r: int, c: int| 0 <= r < 9 && 0 <= c < 9 ==> !(#[trigger] g[r][c] is Empty)
}

/// `g` with `v` written at (r, c).
pub open spec fn place(g: Seq<Seq<CellValue>>, r: int, c: int, v: CellValue) -> Seq<Seq<CellValue>> {
    g.update(r, g[r].update(c, v))
}

/// `g` after writing each (row, column, value) of `steps`, in order.
pub open spec fn after_steps(g: Seq<Seq<CellValue>>, steps: Seq<(usize, usize, CellValue)>) -> Seq<
    Seq<CellValue>,
>
    decreases steps.len(),
{
    if steps.len() == 0 {
        g
    } else {
        let (r, c, v) = steps.last();
        place(after_steps(g, steps.drop_last()), r as int, c as int, v)
    }
}

/// Whether each of `steps`, taken in order from `g`, writes into an empty square the single
/// candidate that square has at that moment.
pub open spec fn steps_sound(g: Seq<Seq<CellValue>>, steps: Seq<(usize, usize, CellValue)>) -> bool
    decreases steps.len(),
{
    if steps.len() == 0 {
        true
    } else {
        let (r, c, v) = steps.last();
        let h = after_steps(g, steps.drop_last());
        &&& steps_sound(g, steps.drop_last())
        &&& r < 9 && c < 9
        &&& h[r as int][c as int] is Empty
        &&& single_candidate(h, r as int, c as int, v)
    }
}

/// The number of empty squares in `s`.
pub open spec fn count_empty(s: Seq<CellValue>) -> nat
    decreases s.len(),
{
    if s.len() == 0 {
        0
    } else {
        count_empty(s.drop_last()) + if s.last() is Empty {
            1nat
        } else {
            0nat
        }
    }
}

/// The number of empty squares in `g`.
pub open spec fn grid_empty(g: Seq<Seq<CellValue>>) -> nat
    decreases g.len(),
{
    if g.len() == 0 {
        0
    } else {
        grid_empty(g.drop_last()) + count_empty(g.last())
    }
}

/// The lines of `s`: the pieces between its newline characters, one more than there are newlines.
pub open spec fn split_lines(s: Seq<char>) -> Seq<Seq<char>>
    decreases s.len(),
{
    if s.len() == 0 {
        seq![Seq::empty()]
    } else {
        let prev = split_lines(s.drop_last());
        if s.last() == '\n' {
            prev.push(Seq::empty())
        } else {
            prev.update(prev.len() - 1, prev.last().push(s.last()))
        }
    }
}

/// The value a character of a puzzle text stands for: a digit from 1 to 9 for itself, anything
/// else (`0` and `_` included) for an empty square.
pub open spec fn char_value(ch: char) -> CellValue {
    if ch == '1' {
        CellValue::One
    } else if ch == '2' {
        CellValue::Two
    } else if ch == '3' {
        CellValue::Three
    } else if ch == '4' {
        CellValue::Four
    } else if ch == '5' {
        CellValue::Five
    } else if ch == '6' {
        CellValue::Six
    } else if ch == '7' {
        CellValue::Seven
    } else if ch == '8' {
        CellValue::Eight
    } else if ch == '9' {
        CellValue::Nine
    } else {
        CellValue::Empty
    }
}

/// The grid a puzzle text describes: square (r, c) is given by character c of line r, where
/// both exist; lines past the ninth and characters past the ninth of a line are not read.
/// (A carriage return before a newline is a non-digit, so it changes nothing.)
pub open spec fn parse_grid(s: Seq<char>) -> Seq<Seq<CellValue>> {
    let lines = split_lines(s);
    Seq::new(
        9,
        |r: int|
            Seq::new(
                9,
                |c: int|
                    if r < lines.len() && c < lines[r].len() {
                        char_value(lines[r][c])
                    } else {
                        CellValue::Empty
                    },
            ),
    )
}

proof fn lemma_split_lines_nonempty(s: Seq<char>)
    ensures
        split_lines(s).len() >= 1,
    decreases s.len(),
{
    if s.len() > 0 {
        lemma_split_lines_nonempty(s.drop_last());
    }
}

/// The border above the first row.
pub const TOP: &'static str = "┌───────┬───────┬───────┐\n";

/// The border between two bands of three rows.
pub const MIDDLE: &'static str = "├───────┼───────┼───────┤\n";

/// The border below the last row.
pub const BOTTOM: &'static str = "└───────┴───────┴───────┘\n";

/// The text of the first `n` squares of a row: a bar and a space open each group of three
/// squares, and each square is written as its character followed by a space.
pub open spec fn cells_text(row: Seq<CellValue>, n: int) -> Seq<char>
    decreases n,
{
    if n <= 0 {
        Seq::empty()
    } else {
        cells_text(row, n - 1) + (if (n - 1) % 3 == 0 {
            "│ "@
        } else {
            Seq::empty()
        }) + seq![display_char(row[n - 1])] + " "@
    }
}

/// The text of a row: its nine squares, then a closing bar and a newline.
pub open spec fn row_text(row: Seq<CellValue>) -> Seq<char> {
    cells_text(row, 9) + "│\n"@
}

/// The text of the first `n` rows of `g`, with a border after the third and the sixth.
pub open spec fn rows_text(g: Seq<Seq<CellValue>>, n: int) -> Seq<char>
    decreases n,
{
    if n <= 0 {
        Seq::empty()
    } else {
        rows_text(g, n - 1) + row_text(g[n - 1]) + if n == 3 || n == 6 {
            MIDDLE@
        } else {
            Seq::empty()
        }
    }
}

/// The boxed text of a board: the top border, the nine rows, the bottom border.
pub open spec fn render(g: Seq<Seq<CellValue>>) -> Seq<char> {
    TOP@ + rows_text(g, 9) + BOTTOM@
}

/// The puzzle text of a row: the characters of its nine squares.
pub open spec fn line_text(row: Seq<CellValue>) -> Seq<char> {
    Seq::new(9, |c: int| display_char(row[c]))
}

/// The puzzle text of the first `n` rows of `g`, each followed by a newline.
pub open spec fn lines_text(g: Seq<Seq<CellValue>>, n: int) -> Seq<char>
    decreases n,
{
    if n <= 0 {
        Seq::empty()
    } else {
        lines_text(g, n - 1) + line_text(g[n - 1]) + seq!['\n']
    }
}

/// The message of a board that solving left with empty squares.
pub const UNSOLVED: &'static str = "Could not solve the board";

/// The message of a board on which two values were forced into one square.
pub const CONFLICT: &'static str = "More than one exclusive possibility for a square";

/// What solving `before` into `after` through `steps`, with result `res`, guarantees.
pub open spec fn solve_outcome(
    before: Seq<Seq<CellValue>>,
    after: Seq<Seq<CellValue>>,
    steps: Seq<(usize, usize, CellValue)>,
    res: Result<usize, (usize, &'static str)>,
) -> bool {
    &&& steps_sound(before, steps)
    &&& after == after_steps(before, steps)
    &&& (res is Ok <==> solved(after))
    &&& res matches Err((n, m)) ==> (m@ == UNSOLVED@ && stalled(after)) || (m@ == CONFLICT@ && exists|
        r: int,
        c: int,
    | 0 <= r < 9 && 0 <= c < 9 && after[r][c] is Empty && #[trigger] conflict(after, r, c))
    &&& res is Ok ==> stalled(after)
    &&& (match res {
        Ok(n) => n,
        Err((n, _)) => n,
    }) >= steps.len()
    &&& stalled(before) ==> steps.len() == 0 && after == before && (res is Ok || res->Err_0.1@
        == UNSOLVED@)
    &&& solved(before) ==> res == Ok::<usize, (usize, &'static str)>(0)
}

/// Filling an empty square leaves one empty square fewer.
proof fn lemma_count_empty_fill(s: Seq<CellValue>, i: int, v: CellValue)
    requires
        0 <= i < s.len(),
        s[i] is Empty,
        !(v is Empty),
    ensures
        count_empty(s.update(i, v)) + 1 == count_empty(s),
    decreases s.len(),
{
    if i == s.len() - 1 {
        assert(s.update(i, v).drop_last() == s.drop_last());
    } else {
        assert(s.update(i, v).drop_last() == s.drop_last().update(i, v));
        lemma_count_empty_fill(s.drop_last(), i, v);
    }
}

proof fn lemma_count_empty_bound(s: Seq<CellValue>)
    ensures
        count_empty(s) <= s.len(),
    decreases s.len(),
{
    if s.len() > 0 {
        lemma_count_empty_bound(s.drop_last());
    }
}

/// Filling an empty square of a grid leaves one empty square fewer.
proof fn lemma_grid_empty_fill(g: Seq<Seq<CellValue>>, r: int, c: int, v: CellValue)
    requires
        0 <= r < g.len(),
        0 <= c < g[r].len(),
        g[r][c] is Empty,
        !(v is Empty),
    ensures
        grid_empty(place(g, r, c, v)) + 1 == grid_empty(g),
    decreases g.len(),
{
    let h = place(g, r, c, v);
    if r == g.len() - 1 {
        assert(h.drop_last() == g.drop_last());
        lemma_count_empty_fill(g[r], c, v);
    } else {
        assert(h.drop_last() == place(g.drop_last(), r, c, v));
        lemma_grid_empty_fill(g.drop_last(), r, c, v);
    }
}

proof fn lemma_grid_empty_bound(g: Seq<Seq<CellValue>>)
    requires
        forall|r: int| 0 <= r < g.len() ==> #[trigger] g[r].len() == 9,
    ensures
        grid_empty(g) <= 9 * g.len(),
    decreases g.len(),
{
    if g.len() > 0 {
        lemma_grid_empty_bound(g.drop_last());
        lemma_count_empty_bound(g.last());
    }
}

/// The value a character of a puzzle text stands for.
fn char_to_value(ch: char) -> (v: CellValue)
    ensures
        v == char_value(ch),
{
    match ch {
        '1' => CellValue::One,
        '2' => CellValue::Two,
        '3' => CellValue::Three,
        '4' => CellValue::Four,
        '5' => CellValue::Five,
        '6' => CellValue::Six,
        '7' => CellValue::Seven,
        '8' => CellValue::Eight,
        '9' => CellValue::Nine,
        _ => CellValue::Empty,
    }
}

/// Appending text without a newline extends the last line.
proof fn lemma_split_lines_extend(p: Seq<char>, t: Seq<char>)
    requires
        forall|i: int| 0 <= i < t.len() ==> t[i] != '\n',
    ensures
        split_lines(p + t) == split_lines(p).update(
            split_lines(p).len() - 1,
            split_lines(p).last() + t,
        ),
    decreases t.len(),
{
    lemma_split_lines_nonempty(p);
    if t.len() == 0 {
        assert(p + t =~= p);
        assert(split_lines(p).last() + t =~= split_lines(p).last());
        assert(split_lines(p).update(split_lines(p).len() - 1, split_lines(p).last())
            =~= split_lines(p));
    } else {
        let t0 = t.drop_last();
        lemma_split_lines_extend(p, t0);
        assert((p + t).drop_last() =~= p + t0);
        assert((p + t).last() == t.last());
        assert(t[t.len() - 1] != '\n');
        let prev = split_lines(p + t0);
        assert(split_lines(p + t) == prev.update(prev.len() - 1, prev.last().push(t.last())));
        assert(prev.len() == split_lines(p).len());
        assert(prev.last() == split_lines(p).last() + t0);
        assert((split_lines(p).last() + t0).push(t.last()) =~= split_lines(p).last() + t);
        assert(split_lines(p + t) =~= split_lines(p).update(
            split_lines(p).len() - 1,
            split_lines(p).last() + t,
        ));
    }
}

/// The lines of the puzzle text of the first `n` rows: the rows' texts, then an empty line.
proof fn lemma_split_lines_text(g: Seq<Seq<CellValue>>, n: int)
    requires
        is_grid(g),
        0 <= n <= 9,
    ensures
        split_lines(lines_text(g, n)) == Seq::new(n as nat, |r: int| line_text(g[r])).push(
            Seq::empty(),
        ),
    decreases n,
{
    if n == 0 {
        assert(split_lines(Seq::<char>::empty()) =~= Seq::new(0, |r: int| line_text(g[r])).push(
            Seq::empty(),
        ));
    } else {
        let p = lines_text(g, n - 1);
        let t = line_text(g[n - 1]);
        lemma_split_lines_text(g, n - 1);
        assert forall|i: int| 0 <= i < t.len() implies t[i] != '\n' by {
            lemma_digit_value(g[n - 1][i]);
        }
        lemma_split_lines_extend(p, t);
        assert((p + t + seq!['\n']).drop_last() =~= p + t);
        assert(Seq::<char>::empty() + t =~= t);
        assert(split_lines(lines_text(g, n)) =~= Seq::new(n as nat, |r: int| line_text(g[r])).push(
            Seq::empty(),
        ));
    }
}

/// Writing a board as puzzle text and reading that text back gives the same squares: an empty
/// square is written `_`, which reads back as empty.
pub proof fn lemma_puzzle_text_round_trip(g: Seq<Seq<CellValue>>)
    requires
        is_grid(g),
    ensures
        parse_grid(lines_text(g, 9)) == g,
{
    lemma_split_lines_text(g, 9);
    let lines = split_lines(lines_text(g, 9));
    assert forall|r: int| 0 <= r < 9 implies #[trigger] parse_grid(lines_text(g, 9))[r] =~= g[r] by {
        assert(lines[r] == line_text(g[r]));
        assert forall|c: int| 0 <= c < 9 implies parse_grid(lines_text(g, 9))[r][c] == g[r][c] by {
            assert(lines[r][c] == display_char(g[r][c]));
        }
    }
    assert(parse_grid(lines_text(g, 9)) =~= g);
}

/// Solving again a board that solving left solved, or stuck without a conflict, fills nothing,
/// leaves the board as it was, and gives the same kind of result.
pub proof fn lemma_solve_again(
    g0: Seq<Seq<CellValue>>,
    g1: Seq<Seq<CellValue>>,
    steps1: Seq<(usize, usize, CellValue)>,
    res1: Result<usize, (usize, &'static str)>,
    g2: Seq<Seq<CellValue>>,
    steps2: Seq<(usize, usize, CellValue)>,
    res2: Result<usize, (usize, &'static str)>,
)
    requires
        solve_outcome(g0, g1, steps1, res1),
        solve_outcome(g1, g2, steps2, res2),
        res1 is Ok || res1->Err_0.1@ == UNSOLVED@,
    ensures
        steps2.len() == 0,
        g2 == g1,
        res2 is Ok <==> res1 is Ok,
        res2 is Err ==> res2->Err_0.1@ == UNSOLVED@,
{
    reveal_strlit("Could not solve the board");
    reveal_strlit("More than one exclusive possibility for a square");
    assert(UNSOLVED@ != CONFLICT@) by {
        assert(UNSOLVED@.len() != CONFLICT@.len());
    }
    assert(stalled(g1));
}

impl View for SudokuBoard {
    type V = Seq<Seq<CellValue>>;

    closed spec fn view(&self) -> Seq<Seq<CellValue>> {
        Seq::new(9, |r: int| Seq::new(9, |c: int| self.cells[r][c].value))
    }
}

impl SudokuBoard {
    /// Whether solving is to be reported step by step.
    pub closed spec fn is_verbose(&self) -> bool {
        self.verbose
    }

    /// The view of every board is a 9x9 grid.
    pub proof fn lemma_view_is_grid(&self)
        ensures
            is_grid(self@),
    {
    }

    /// The value at row `r`, column `c`.
    pub fn value(&self, r: usize, c: usize) -> (v: CellValue)
        requires
            r < 9,
            c < 9,
        ensures
            v == self@[r as int][c as int],
    {
        self.cells[r][c].value
    }

    /// The board that a puzzle text describes (see `parse_grid`), not verbose.
    pub fn parse(input: &str) -> (b: SudokuBoard)
        ensures
            b@ == parse_grid(input@),
            !b.is_verbose(),
    {
        let mut board = SudokuBoard { cells: [[Cell { value: CellValue::Empty }; 9]; 9], verbose: false };
        let mut row: usize = 0;
        let mut col: usize = 0;
        assert(board@ =~= parse_grid(input@.take(0))) by {
            assert(input@.take(0).len() == 0);
            assert forall|r: int| 0 <= r < 9 implies #[trigger] board@[r] =~= parse_grid(input@.take(0))[r] by {
                assert forall|c: int| 0 <= c < 9 implies board@[r][c] == parse_grid(input@.take(0))[r][c] by {
                    assert(board@[r][c] == board.cells[r][c].value);
                }
            }
        }
        for ch in it: input.chars()
            invariant
                !board.is_verbose(),
                it.seq() == input@,
                row as int == if split_lines(input@.take(it.index())).len() - 1 < 9 {
                    split_lines(input@.take(it.index())).len() - 1
                } else {
                    9
                },
                col as int == if split_lines(input@.take(it.index())).last().len() < 9 {
                    split_lines(input@.take(it.index())).last().len() as int
                } else {
                    9
                },
                board@ == parse_grid(input@.take(it.index())),
        {
            let ghost pre = input@.take(it.index());
            let ghost post = input@.take(it.index() + 1);
            assert(post.drop_last() == pre);
            assert(post.last() == ch);
            proof {
                lemma_split_lines_nonempty(pre);
            }
            let ghost lines = split_lines(pre);
            let ghost board0 = board@;
            if ch == '\n' {
                if row < 9 {
                    row = row + 1;
                }
                col = 0;
                assert(board@ =~= parse_grid(post)) by {
                    assert forall|r: int| 0 <= r < 9 implies #[trigger] board@[r] =~= parse_grid(post)[r] by {
                        assert forall|c: int| 0 <= c < 9 implies board@[r][c] == parse_grid(post)[r][c] by {
                            assert(board@[r][c] == parse_grid(pre)[r][c]);
                        }
                    }
                }
            } else {
                let v = char_to_value(ch);
                if row < 9 && col < 9 {
                    board.set_value(row, col, v);
                }
                if col < 9 {
                    col = col + 1;
                }
                assert(board@ =~= parse_grid(post)) by {
                    assert forall|r: int| 0 <= r < 9 implies #[trigger] board@[r] =~= parse_grid(post)[r] by {
                        assert forall|c: int| 0 <= c < 9 implies board@[r][c] == parse_grid(post)[r][c] by {
                            if r == lines.len() - 1 && c == lines.last().len() {
                            } else {
                                assert(board@[r][c] == board0[r][c]);
                            }
                        }
                    }
                }
            }
        }
        assert(input@.take(input@.len() as int) == input@);
        board
    }

    /// The board as boxed text (see `render`).
    pub fn to_string(&self) -> (text: String)
        ensures
            text@ == render(self@),
    {
        let mut text = String::from_str(TOP);
        let mut r: usize = 0;
        while r < 9
            invariant
                r <= 9,
                text@ == TOP@ + rows_text(self@, r as int),
            decreases 9 - r,
        {
            let mut c: usize = 0;
            while c < 9
                invariant
                    r < 9,
                    c <= 9,
                    text@ == TOP@ + rows_text(self@, r as int) + cells_text(self@[r as int], c as int),
                decreases 9 - c,
            {
                let ghost before = text@;
                let ghost sep = if c % 3 == 0 { "│ "@ } else { Seq::<char>::empty() };
                if c % 3 == 0 {
                    text.append("│ ");
                }
                assert(text@ == before + sep);
                let v = self.cells[r][c].value;
                assert(v == self@[r as int][c as int]);
                text.append(v.symbol());
                text.append(" ");
                assert(text@ =~= TOP@ + rows_text(self@, r as int) + cells_text(self@[r as int], c + 1));
                c = c + 1;
            }
            text.append("│\n");
            if r == 2 || r == 5 {
                text.append(MIDDLE);
            }
            assert(text@ =~= TOP@ + rows_text(self@, r + 1));
            r = r + 1;
        }
        text.append(BOTTOM);
        text
    }

    /// The board as puzzle text, the form that `parse` reads: nine lines of nine characters,
    /// `_` for an empty square.
    pub fn puzzle_text(&self) -> (text: String)
        ensures
            text@ == lines_text(self@, 9),
    {
        proof {
            reveal_strlit("\n");
        }
        let mut text = String::new();
        let mut r: usize = 0;
        while r < 9
            invariant
                r <= 9,
                text@ == lines_text(self@, r as int),
            decreases 9 - r,
        {
            let mut c: usize = 0;
            while c < 9
                invariant
                    r < 9,
                    c <= 9,
                    text@ == lines_text(self@, r as int) + line_text(self@[r as int]).take(c as int),
                decreases 9 - c,
            {
                let v = self.cells[r][c].value;
                assert(v == self@[r as int][c as int]);
                text.append(v.symbol());
                assert(text@ =~= lines_text(self@, r as int) + line_text(self@[r as int]).take(c + 1));
                c = c + 1;
            }
            let ghost before = text@;
            text.append("\n");
            proof {
                reveal_strlit("\n");
            }
            assert("\n"@ =~= seq!['\n']);
            assert(text@ == before + seq!['\n']);
            assert(line_text(self@[r as int]).take(9) =~= line_text(self@[r as int]));
            assert(text@ =~= lines_text(self@, r + 1));
            r = r + 1;
        }
        text
    }

    /// Writes `v` at row `r`, column `c`.
    pub fn set_value(&mut self, r: usize, c: usize, v: CellValue)
        requires
            r < 9,
            c < 9,
        ensures
            final(self)@ == place(old(self)@, r as int, c as int, v),
            final(self).is_verbose() == old(self).is_verbose(),
    {
        self.cells[r][c].value = v;
        let ghost g = place(old(self)@, r as int, c as int, v);
        assert forall|i: int| 0 <= i < 9 implies #[trigger] self@[i] =~= g[i] by {
            assert forall|j: int| 0 <= j < 9 implies self@[i][j] == g[i][j] by {
                assert(self@[i][j] == self.cells[i][j].value);
                assert(old(self)@[i][j] == old(self).cells[i][j].value);
            }
        }
        assert(self@ =~= g);
    }

    /// Whether no square of the board is empty.
    pub fn is_solved(&self) -> (res: bool)
        ensures
            res == solved(self@),
    {
        let mut r: usize = 0;
        while r < 9
            invariant
                r <= 9,
                forall|i: int, j: int| 0 <= i < r && 0 <= j < 9 ==> !(#[trigger] self@[i][j] is Empty),
            decreases 9 - r,
        {
            let mut c: usize = 0;
            while c < 9
                invariant
                    r < 9,
                    c <= 9,
                    forall|i: int, j: int|
                        0 <= i < 9 && 0 <= j < 9 && (i < r || (i == r && j < c)) ==> !(
                        #[trigger] self@[i][j] is Empty),
                decreases 9 - c,
            {
                if self.cells[r][c].value.is_empty() {
                    assert(self@[r as int][c as int] is Empty);
                    return false;
                }
                c = c + 1;
            }
            r = r + 1;
        }
        true
    }

    /// Fills the board by elimination, and returns the steps taken with the result.
    ///
    /// Passes go over the squares in row-major order until one fills nothing. In a pass, each
    /// empty square is checked (which counts one check) and, where it has a single candidate,
    /// filled with it at once. The result is `Ok` with the number of checks where no square is
    /// left empty; else `Err` with that number and `UNSOLVED`. Where two values are forced into
    /// one square, solving stops there with `Err` and `CONFLICT`.
    pub fn solve_with_steps(&mut self) -> (out: (
        Result<usize, (usize, &'static str)>,
        Vec<(usize, usize, CellValue)>,
    ))
        ensures
            solve_outcome(old(self)@, final(self)@, out.1@, out.0),
            final(self).is_verbose() == old(self).is_verbose(),
            stalled(old(self)@) ==> *final(self) == *old(self),
    {
        let ghost start = self@;
        let mut steps: Vec<(usize, usize, CellValue)> = Vec::new();
        let mut changed = true;
        let mut count: usize = 0;
        proof {
            lemma_grid_empty_bound(start);
        }
        while changed
            invariant
                is_grid(start),
                is_grid(self@),
                self.verbose == old(self).verbose,
                start == old(self)@,
                grid_empty(start) <= 81,
                steps_sound(start, steps@),
                self@ == after_steps(start, steps@),
                count + 81 * (grid_empty(self@) + if changed {
                    1int
                } else {
                    0int
                }) <= 81 * (grid_empty(start) + 1),
                !changed ==> stalled(self@),
                stalled(start) ==> steps@.len() == 0,
                solved(start) ==> count == 0,
                count >= steps@.len(),
            decreases grid_empty(self@) + if changed {
                1int
            } else {
                0int
            },
        {
            changed = false;
            let ghost pass_start = self@;
            let ghost count_start = count;
            let mut r: usize = 0;
            while r < 9
                invariant
                    r <= 9,
                    is_grid(start),
                    is_grid(self@),
                    self.verbose == old(self).verbose,
                    start == old(self)@,
                    grid_empty(start) <= 81,
                    steps_sound(start, steps@),
                    self@ == after_steps(start, steps@),
                    count_start + 81 * (grid_empty(pass_start) + 1) <= 81 * (grid_empty(start) + 1),
                    count <= count_start + 9 * r,
                    !changed ==> self@ == pass_start,
                    changed ==> grid_empty(self@) < grid_empty(pass_start),
                    !changed ==> forall|i: int, j: int|
                        0 <= i < r && 0 <= j < 9 && (#[trigger] self@[i][j] is Empty) ==> stuck(
                            self@,
                            i,
                            j,
                        ),
                    stalled(start) ==> steps@.len() == 0 && !changed,
                    solved(start) ==> count == 0 && steps@.len() == 0 && !changed,
                    count >= steps@.len(),
                decreases 9 - r,
            {
                let mut c: usize = 0;
                while c < 9
                    invariant
                        r < 9,
                        c <= 9,
                        is_grid(start),
                        is_grid(self@),
                        self.verbose == old(self).verbose,
                        start == old(self)@,
                        grid_empty(start) <= 81,
                        steps_sound(start, steps@),
                        self@ == after_steps(start, steps@),
                        count_start + 81 * (grid_empty(pass_start) + 1) <= 81 * (grid_empty(start)
                            + 1),
                        count <= count_start + 9 * r + c,
                        !changed ==> self@ == pass_start,
                        changed ==> grid_empty(self@) < grid_empty(pass_start),
                        !changed ==> forall|i: int, j: int|
                            0 <= i < 9 && 0 <= j < 9 && (i < r || (i == r && j < c)) && (
                            #[trigger] self@[i][j] is Empty) ==> stuck(self@, i, j),
                        stalled(start) ==> steps@.len() == 0 && !changed,
                        solved(start) ==> count == 0 && steps@.len() == 0 && !changed,
                        count >= steps@.len(),
                    decreases 9 - c,
                {
                    if self.cells[r][c].value.is_empty() {
                        assert(self@[r as int][c as int] is Empty);
                        let possibilities = self.possible_values(r, c);
                        count = count + 1;
                        match possibilities {
                            None => {
                                assert(conflict(self@, r as int, c as int));
                                return (Err((count, CONFLICT)), steps);
                            },
                            Some(vs) => {
                                if vs.len() == 1 {
                                    let v = vs[0];
                                    assert(vs@.contains(v));
                                    assert forall|w: CellValue|
                                        #[trigger] candidate(self@, r as int, c as int, w)
                                            implies w == v by {
                                        assert(vs@.contains(w));
                                    }
                                    assert(single_candidate(self@, r as int, c as int, v));
                                    proof {
                                        lemma_grid_empty_fill(self@, r as int, c as int, v);
                                    }
                                    let ghost old_steps = steps@;
                                    self.set_value(r, c, v);
                                    steps.push((r, c, v));
                                    assert(steps@.drop_last() == old_steps);
                                    assert(self@ == after_steps(start, steps@));
                                    assert(steps_sound(start, steps@));
                                    assert(is_grid(self@));
                                    changed = true;
                                } else {
                                    assert forall|w: CellValue|
                                        !#[trigger] single_candidate(self@, r as int, c as int, w) by {
                                        if single_candidate(self@, r as int, c as int, w) {
                                            assert(vs@.contains(w));
                                            if vs.len() > 1 {
                                                assert(vs@.contains(vs@[0]));
                                                assert(vs@.contains(vs@[1]));
                                            }
                                        }
                                    }
                                    assert(stuck(self@, r as int, c as int));
                                }
                            },
                        }
                    }
                    c = c + 1;
                }
                r = r + 1;
            }
        }
        proof {
            if stalled(start) {
                SudokuBoard::lemma_view_determines(*self, *old(self));
            }
        }
        if self.is_solved() {
            (Ok(count), steps)
        } else {
            (Err((count, UNSOLVED)), steps)
        }
    }

    /// Fills the board by elimination; see `solve_with_steps`, whose result this is.
    pub fn solve(&mut self) -> (res: Result<usize, (usize, &'static str)>)
        ensures
            exists|steps: Seq<(usize, usize, CellValue)>|
                solve_outcome(old(self)@, final(self)@, steps, res),
            final(self).is_verbose() == old(self).is_verbose(),
            stalled(old(self)@) ==> *final(self) == *old(self),
    {
        let (res, steps) = self.solve_with_steps();
        res
    }

    /// Whether `v` stands in the row, the column or the box of (r, c).
    fn seen_in_units(&self, r: usize, c: usize, v: CellValue) -> (res: bool)
        requires
            r < 9,
            c < 9,
        ensures
            res == seen(self@, r as int, c as int, v),
    {
        let br = r / 3 * 3;
        let bc = c / 3 * 3;
        let mut k: usize = 0;
        while k < 9
            invariant
                r < 9,
                c < 9,
                k <= 9,
                br == r / 3 * 3,
                bc == c / 3 * 3,
                forall|j: int| 0 <= j < k ==> !#[trigger] unit_has(self@, r as int, c as int, j, v),
            decreases 9 - k,
        {
            assert(self@[r as int][k as int] == self.cells[r as int][k as int].value);
            assert(self@[k as int][c as int] == self.cells[k as int][c as int].value);
            assert(self@[br + k / 3][bc + k % 3] == self.cells[br + k / 3][bc + k % 3].value);
            if self.cells[r][k].value == v || self.cells[k][c].value == v || self.cells[br + k
                / 3][bc + k % 3].value == v {
                assert(unit_has(self@, r as int, c as int, k as int, v));
                return true;
            }
            k = k + 1;
        }
        false
    }

    /// Whether `v` is a naive candidate of a peer of (r, c).
    fn peers_allow(&self, r: usize, c: usize, v: CellValue) -> (res: bool)
        requires
            r < 9,
            c < 9,
            !(v is Empty),
        ensures
            res == peer_allows(self@, r as int, c as int, v),
    {
        let br = r / 3 * 3;
        let bc = c / 3 * 3;
        let mut k: usize = 0;
        while k < 9
            invariant
                r < 9,
                c < 9,
                k <= 9,
                br == r / 3 * 3,
                bc == c / 3 * 3,
                !(v is Empty),
                forall|j: int| 0 <= j < k ==> !#[trigger] peer_naive(self@, r as int, c as int, j, v),
            decreases 9 - k,
        {
            if k != c && !self.seen_in_units(r, k, v) {
                assert(naive(self@, r as int, k as int, v));
                assert(peer_naive(self@, r as int, c as int, k as int, v));
                return true;
            }
            if k != r && !self.seen_in_units(k, c, v) {
                assert(peer_naive(self@, r as int, c as int, k as int, v));
                return true;
            }
            let sr = br + k / 3;
            let sc = bc + k % 3;
            if (sr != r || sc != c) && !self.seen_in_units(sr, sc, v) {
                assert(peer_naive(self@, r as int, c as int, k as int, v));
                return true;
            }
            k = k + 1;
        }
        false
    }

    /// The candidates of the square at row `r`, column `c`: the value that no peer can take
    /// where there is one, else every digit that is not yet in its row, column or box.
    /// `None` where two values are each forced into this square, which no completion allows.
    pub fn possible_values(&self, r: usize, c: usize) -> (res: Option<Vec<CellValue>>)
        requires
            r < 9,
            c < 9,
        ensures
            res is None <==> conflict(self@, r as int, c as int),
            res matches Some(vs) ==> {
                &&& strictly_ascending(vs@)
                &&& forall|v: CellValue| #[trigger]
                    vs@.contains(v) <==> candidate(self@, r as int, c as int, v)
                &&& forall|i: int|
                    0 <= i < vs.len() ==> !(#[trigger] vs@[i] is Empty) && !seen(
                        self@,
                        r as int,
                        c as int,
                        vs@[i],
                    )
            },
    {
        let ghost g = self@;
        let mut naive_vals: Vec<CellValue> = Vec::new();
        let mut forced: Vec<CellValue> = Vec::new();
        for d in 1..10u8
            invariant
                r < 9,
                c < 9,
                g == self@,
                strictly_ascending(naive_vals@),
                strictly_ascending(forced@),
                forall|k: int| 0 <= k < naive_vals@.len() ==> digit(#[trigger] naive_vals@[k]) < d,
                forall|k: int| 0 <= k < forced@.len() ==> digit(#[trigger] forced@[k]) < d,
                forall|v: CellValue| #[trigger]
                    naive_vals@.contains(v) <==> (digit(v) < d && naive(g, r as int, c as int, v)),
                forall|v: CellValue| #[trigger]
                    forced@.contains(v) <==> (digit(v) < d && exclusive(g, r as int, c as int, v)),
        {
            let v = CellValue::from(d);
            assert(digit(v) == d);
            if !self.seen_in_units(r, c, v) {
                proof {
                    lemma_push_ascending(naive_vals@, v);
                }
                naive_vals.push(v);
                if !self.peers_allow(r, c, v) {
                    proof {
                        lemma_push_ascending(forced@, v);
                    }
                    forced.push(v);
                }
            }
            assert forall|w: CellValue| digit(w) == d implies w == v by {
                lemma_digit_value(w);
            }
        }
        assert forall|v: CellValue| naive(g, r as int, c as int, v) implies digit(v) < 10 by {
            lemma_digit_value(v);
        }
        assert forall|vs: Vec<CellValue>, i: int|
            0 <= i < vs.len() && (forall|v: CellValue| #[trigger]
                vs@.contains(v) <==> candidate(g, r as int, c as int, v)) implies !(
        #[trigger] vs@[i] is Empty) && !seen(g, r as int, c as int, vs@[i]) by {
            assert(vs@.contains(vs@[i]));
        }
        if forced.len() == 0 {
            assert forall|v: CellValue| !exclusive(g, r as int, c as int, v) by {
                lemma_digit_value(v);
                if exclusive(g, r as int, c as int, v) {
                    assert(forced@.contains(v));
                }
            }
            Some(naive_vals)
        } else if forced.len() == 1 {
            assert(forced@.contains(forced@[0]));
            assert forall|v: CellValue, w: CellValue|
                v != w && exclusive(g, r as int, c as int, v) implies !exclusive(g, r as int, c as int, w) by {
                if exclusive(g, r as int, c as int, w) {
                    assert(forced@.contains(v));
                    assert(forced@.contains(w));
                }
            }
            Some(forced)
        } else {
            assert(forced@.contains(forced@[0]));
            assert(forced@.contains(forced@[1]));
            assert(exclusive(g, r as int, c as int, forced@[0]));
            assert(exclusive(g, r as int, c as int, forced@[1]));
            None
        }
    }
}

impl SudokuBoard {
    /// Two boards with the same squares and the same verbosity are the same board.
    pub proof fn lemma_view_determines(b1: SudokuBoard, b2: SudokuBoard)
        requires
            b1@ == b2@,
            b1.is_verbose() == b2.is_verbose(),
        ensures
            b1 == b2,
    {
        assert forall|r: int| 0 <= r < 9 implies #[trigger] b1.cells[r] == b2.cells[r] by {
            assert forall|c: int| 0 <= c < 9 implies b1.cells[r][c] == b2.cells[r][c] by {
                assert(b1@[r][c] == b1.cells[r][c].value);
                assert(b2@[r][c] == b2.cells[r][c].value);
                assert(b1@[r][c] == b2@[r][c]);
            }
            assert(b1.cells[r] =~= b2.cells[r]);
        }
        assert(b1.cells =~= b2.cells);
    }
}

impl<'a> From<&'a str> for SudokuBoard {
    fn from(input: &'a str) -> (b: SudokuBoard) {
        let b = SudokuBoard::parse(input);
        proof {
            SudokuBoard::lemma_view_determines(
                b,
                choose|x: SudokuBoard| x@ == parse_grid(input@) && !x.is_verbose(),
            );
        }
        b
    }
}

impl<'a> vstd::std_specs::convert::FromSpecImpl<&'a str> for SudokuBoard {
    open spec fn obeys_from_spec() -> bool {
        true
    }

    /// The board that `parse` gives for the same text.
    open spec fn from_spec(input: &'a str) -> SudokuBoard {
        choose|b: SudokuBoard| b@ == parse_grid(input@) && !b.is_verbose()
    }
}

} // verus!
