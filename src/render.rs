use vstd::prelude::*;
use vstd::string::*;
use crate::board::Board;
use crate::cell::Ownership;

verus! {

/// The character that shows who holds a cell.
pub open spec fn glyph(o: Ownership) -> char {
    match o {
        Ownership::Player1 => '0',
        Ownership::Player2 => '1',
        Ownership::Unowned => '_',
    }
}

/// `n` copies of `c`.
pub open spec fn repeat(c: char, n: nat) -> Seq<char>
    decreases n,
{
    if n == 0 {
        seq![]
    } else {
        repeat(c, (n - 1) as nat).push(c)
    }
}

proof fn lemma_repeat_add(c: char, a: nat, b: nat)
    ensures
        repeat(c, a) + repeat(c, b) == repeat(c, a + b),
    decreases b,
{
    if b == 0 {
        assert(repeat(c, a) + repeat(c, 0) =~= repeat(c, a));
    } else {
        lemma_repeat_add(c, a, (b - 1) as nat);
        assert(repeat(c, a) + repeat(c, b) =~= (repeat(c, a) + repeat(c, (b - 1) as nat)).push(c));
    }
}

impl Board {
    /// The first `n` cells of row `y`, each as its glyph and two spaces.
    pub open spec fn row_cells(&self, y: int, n: nat) -> Seq<char>
        decreases n,
    {
        if n == 0 {
            seq![]
        } else {
            self.row_cells(y, (n - 1) as nat) + seq![glyph(self.owner(n - 1, y)), ' ', ' ']
        }
    }

    /// The `k`-th line of cells counted from the top: row `dim_y - 1 - k`,
    /// indented by `2 * k` spaces and framed by bars.
    pub open spec fn row_line(&self, k: nat) -> Seq<char> {
        repeat(' ', 2 * k) + seq!['|', ' ', ' '] + self.row_cells(self.dim_y - 1 - k, self.dim_x as nat) + seq!['|', '\n']
    }

    /// The first `n` lines of cells from the top.
    pub open spec fn row_lines(&self, n: nat) -> Seq<char>
        decreases n,
    {
        if n == 0 {
            seq![]
        } else {
            self.row_lines((n - 1) as nat) + self.row_line((n - 1) as nat)
        }
    }

    /// The text diagram of the board: a border of `4 * dim_x` dashes, the
    /// rows from top to bottom each shifted two spaces further right, and a
    /// bottom border shifted as far as a further row would be.
    pub open spec fn render(&self) -> Seq<char> {
        repeat('-', 4 * self.dim_x as nat) + seq!['\n'] + self.row_lines(self.dim_y as nat) + repeat(' ', 2 * self.dim_y as nat)
            + repeat('-', 4 * self.dim_x as nat) + seq!['\n']
    }
}

/// Appends `n` copies of the one character of `piece`.
fn append_repeat(result: &mut String, piece: &str, n: usize)
    requires
        piece@.len() == 1,
    ensures
        final(result)@ == old(result)@ + repeat(piece@[0], n as nat),
{
    let ghost start = result@;
    let mut i: usize = 0;
    while i < n
        invariant
            i <= n,
            piece@.len() == 1,
            result@ == start + repeat(piece@[0], i as nat),
        decreases n - i,
    {
        result.append(piece);
        assert(piece@ =~= seq![piece@[0]]);
        assert(start + repeat(piece@[0], (i + 1) as nat) =~= start + repeat(piece@[0], i as nat) + piece@);
        i += 1;
    }
}

/// Appends the border of `4 * dim_x` dashes.
fn append_border(result: &mut String, dim_x: usize)
    ensures
        final(result)@ == old(result)@ + repeat('-', 4 * dim_x as nat),
{
    let ghost start = result@;
    let dash = "-";
    proof {
        reveal_strlit("-");
    }
    let mut i: usize = 0;
    while i < dim_x
        invariant
            i <= dim_x,
            dash@ == seq!['-'],
            result@ == start + repeat('-', 4 * i as nat),
        decreases dim_x - i,
    {
        append_repeat(result, dash, 4);
        proof {
            lemma_repeat_add('-', 4 * i as nat, 4);
            assert(start + repeat('-', 4 * i as nat) + repeat('-', 4) =~= start + (repeat('-', 4 * i as nat) + repeat('-', 4)));
        }
        i += 1;
    }
}

impl Board {
    /// The text diagram of the board, as [`Board::render`] describes it.
    pub fn to_string(&self) -> (r: String)
        requires
            self.wf(),
        ensures
            r@ == self.render(),
    {
        proof {
            reveal_strlit("\n");
            reveal_strlit(" ");
            reveal_strlit("|  ");
            reveal_strlit("|\n");
            reveal_strlit("  ");
            reveal_strlit("0");
            reveal_strlit("1");
            reveal_strlit("_");
            assert("\n"@ =~= seq!['\n']);
            assert(" "@ =~= seq![' ']);
            assert("|  "@ =~= seq!['|', ' ', ' ']);
            assert("|\n"@ =~= seq!['|', '\n']);
            assert("  "@ =~= seq![' ', ' ']);
            assert("0"@ =~= seq!['0']);
            assert("1"@ =~= seq!['1']);
            assert("_"@ =~= seq!['_']);
        }
        let mut result = String::new();
        append_border(&mut result, self.dim_x);
        result.append("\n");
        let ghost head = result@;
        let mut offset: usize = 0;
        let mut k: usize = 0;
        while k < self.dim_y
            invariant
                self.wf(),
                k <= self.dim_y,
                offset == 2 * k,
                "\n"@ == seq!['\n'],
                " "@ == seq![' '],
                "|  "@ == seq!['|', ' ', ' '],
                "|\n"@ == seq!['|', '\n'],
                "  "@ == seq![' ', ' '],
                "0"@ == seq!['0'],
                "1"@ == seq!['1'],
                "_"@ == seq!['_'],
                result@ == head + self.row_lines(k as nat),
            decreases self.dim_y - k,
        {
            let ghost line_start = result@;
            let y = self.dim_y - 1 - k;
            append_repeat(&mut result, " ", offset);
            result.append("|  ");
            let ghost cells_start = result@;
            let mut x: usize = 0;
            while x < self.dim_x
                invariant
                    self.wf(),
                    x <= self.dim_x,
                    y < self.dim_y,
                    "\n"@ == seq!['\n'],
                    " "@ == seq![' '],
                    "|  "@ == seq!['|', ' ', ' '],
                    "|\n"@ == seq!['|', '\n'],
                    "  "@ == seq![' ', ' '],
                    "0"@ == seq!['0'],
                    "1"@ == seq!['1'],
                    "_"@ == seq!['_'],
                    result@ == cells_start + self.row_cells(y as int, x as nat),
                decreases self.dim_x - x,
            {
                match self.cells[x][y].ownership {
                    Ownership::Player1 => result.append("0"),
                    Ownership::Player2 => result.append("1"),
                    Ownership::Unowned => result.append("_"),
                }
                result.append("  ");
                proof {
                    assert(result@ =~= cells_start + self.row_cells(y as int, (x + 1) as nat));
                }
                x += 1;
            }
            result.append("|\n");
            proof {
                assert(result@ =~= line_start + self.row_line(k as nat));
                assert(self.row_lines((k + 1) as nat) == self.row_lines(k as nat) + self.row_line(k as nat));
                assert(result@ =~= head + self.row_lines((k + 1) as nat));
            }
            offset += 2;
            k += 1;
        }
        append_repeat(&mut result, " ", offset);
        append_border(&mut result, self.dim_x);
        result.append("\n");
        proof {
            assert(result@ =~= self.render());
        }
        result
    }
}

} // verus!
