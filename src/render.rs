use vstd::prelude::*;
use vstd::string::StringExecFns;

use crate::game::{cells_view, Table, Tile};

verus! {

/// The text of one decimal digit.
pub open spec fn digit_text(d: nat) -> Seq<char> {
    if d == 0 {
        "0"@
    } else if d == 1 {
        "1"@
    } else if d == 2 {
        "2"@
    } else if d == 3 {
        "3"@
    } else if d == 4 {
        "4"@
    } else if d == 5 {
        "5"@
    } else if d == 6 {
        "6"@
    } else if d == 7 {
        "7"@
    } else if d == 8 {
        "8"@
    } else {
        "9"@
    }
}

/// The decimal text of `n`, without leading zeros.
pub open spec fn decimal(n: nat) -> Seq<char>
    decreases n,
{
    if n < 10 {
        digit_text(n)
    } else {
        decimal(n / 10) + digit_text(n % 10)
    }
}

/// `k` spaces.
pub open spec fn spaces(k: nat) -> Seq<char>
    decreases k,
{
    if k == 0 {
        Seq::empty()
    } else {
        spaces((k - 1) as nat) + " "@
    }
}

/// Width of the text of one cell.
pub const CELL_WIDTH: usize = 6;

/// `s` centred in `CELL_WIDTH` columns; an odd leftover space goes to the
/// right. Text at least that wide is left as it is.
pub open spec fn centred(s: Seq<char>) -> Seq<char> {
    if s.len() >= CELL_WIDTH {
        s
    } else {
        let pad = (CELL_WIDTH - s.len()) as nat;
        spaces(pad / 2) + s + spaces((pad - pad / 2) as nat)
    }
}

/// The text of a cell: the tile's value centred, or blanks.
pub open spec fn cell_text(c: Option<nat>) -> Seq<char> {
    match c {
        Some(v) => centred(decimal(v)),
        None => spaces(CELL_WIDTH as nat),
    }
}

/// The rule line drawn above and below every row.
pub open spec fn rule_text() -> Seq<char> {
    "-----------------------------\n"@
}

/// Row `r` of grid `g`: the cells separated by vertical bars.
pub open spec fn row_text(g: Seq<Option<nat>>, r: int) -> Seq<char> {
    "|"@ + cell_text(g[4 * r]) + "|"@ + cell_text(g[4 * r + 1]) + "|"@ + cell_text(g[4 * r + 2]) + "|"@
        + cell_text(g[4 * r + 3]) + "|\n"@
}

/// The first `n` rows of grid `g`, each followed by a rule line, after a
/// first rule line.
pub open spec fn rows_text(g: Seq<Option<nat>>, n: int) -> Seq<char>
    decreases n,
{
    if n <= 0 {
        rule_text()
    } else {
        rows_text(g, n - 1) + row_text(g, n - 1) + rule_text()
    }
}

/// The whole grid as text.
pub open spec fn grid_text(g: Seq<Option<nat>>) -> Seq<char> {
    rows_text(g, 4)
}

fn digit_str(d: u32) -> (r: &'static str)
    requires
        d < 10,
    ensures
        r@ == digit_text(d as nat),
{
    match d {
        0 => "0",
        1 => "1",
        2 => "2",
        3 => "3",
        4 => "4",
        5 => "5",
        6 => "6",
        7 => "7",
        8 => "8",
        _ => "9",
    }
}

fn push_decimal(s: &mut String, n: u32)
    ensures
        final(s)@ == old(s)@ + decimal(n as nat),
    decreases n,
{
    if n >= 10 {
        push_decimal(s, n / 10);
    }
    s.append(digit_str(n % 10));
    proof {
        if n >= 10 {
            assert(final(s)@ =~= old(s)@ + decimal(n as nat));
        }
    }
}

fn decimal_len(n: u32) -> (r: usize)
    ensures
        r == decimal(n as nat).len(),
    decreases n,
{
    proof {
        reveal_strlit("0");
        reveal_strlit("1");
        reveal_strlit("2");
        reveal_strlit("3");
        reveal_strlit("4");
        reveal_strlit("5");
        reveal_strlit("6");
        reveal_strlit("7");
        reveal_strlit("8");
        reveal_strlit("9");
    }
    if n >= 10 {
        let k = decimal_len(n / 10);
        proof {
            reveal_with_fuel(pow10, 11);
            lemma_decimal_len_bound((n / 10) as nat, 10);
        }
        k + 1
    } else {
        1
    }
}

/// Ten to the power `k`.
spec fn pow10(k: nat) -> nat
    decreases k,
{
    if k == 0 {
        1
    } else {
        10 * pow10((k - 1) as nat)
    }
}

proof fn lemma_decimal_len_bound(n: nat, k: nat)
    requires
        k >= 1,
        n < pow10(k),
    ensures
        decimal(n).len() <= k,
    decreases n,
{
    reveal_strlit("0");
    reveal_strlit("1");
    reveal_strlit("2");
    reveal_strlit("3");
    reveal_strlit("4");
    reveal_strlit("5");
    reveal_strlit("6");
    reveal_strlit("7");
    reveal_strlit("8");
    reveal_strlit("9");
    if n >= 10 {
        assert(k >= 2) by {
            if k == 1 {
                assert(pow10(1) == 10 * pow10(0));
            }
        }
        let p = pow10((k - 1) as nat);
        assert(pow10(k) == 10 * p);
        assert(n / 10 < p) by (nonlinear_arith)
            requires
                n < 10 * p,
        ;
        lemma_decimal_len_bound(n / 10, (k - 1) as nat);
    }
}

fn push_spaces(s: &mut String, k: usize)
    ensures
        final(s)@ == old(s)@ + spaces(k as nat),
{
    let mut i: usize = 0;
    while i < k
        invariant
            0 <= i <= k,
            s@ == old(s)@ + spaces(i as nat),
        decreases k - i,
    {
        s.append(" ");
        assert(s@ =~= old(s)@ + spaces((i + 1) as nat));
        i = i + 1;
    }
}

fn push_cell(s: &mut String, c: Option<Tile>)
    ensures
        final(s)@ == old(s)@ + cell_text(cells_view(seq![c])[0]),
{
    match c {
        Some(t) => {
            let v = t.value();
            let len = decimal_len(v);
            if len >= CELL_WIDTH {
                push_decimal(s, v);
            } else {
                let pad = CELL_WIDTH - len;
                push_spaces(s, pad / 2);
                push_decimal(s, v);
                push_spaces(s, pad - pad / 2);
            }
            assert(final(s)@ =~= old(s)@ + cell_text(cells_view(seq![c])[0]));
        },
        None => {
            push_spaces(s, CELL_WIDTH);
        },
    }
}

impl Tile {
    /// The value as decimal text, centred in the width of a cell.
    pub fn render(&self) -> (r: String)
        ensures
            r@ == centred(decimal(self.spec_value())),
    {
        let mut s = String::new();
        push_cell(&mut s, Some(*self));
        assert(s@ =~= centred(decimal(self.spec_value())));
        s
    }
}

impl Table {
    /// The table as text: each row of cells between vertical bars, with a
    /// rule line of dashes above the first row and below every row.
    pub fn render(&self) -> (r: String)
        ensures
            r@ == grid_text(self@),
    {
        let cells = self.cells();
        let mut s = String::from_str("-----------------------------\n");
        let mut row: usize = 0;
        while row < 4
            invariant
                0 <= row <= 4,
                cells_view(cells@) == self@,
                s@ == rows_text(self@, row as int),
            decreases 4 - row,
        {
            let ghost start = s@;
            let mut j: usize = 0;
            while j < 4
                invariant
                    0 <= j <= 4,
                    row < 4,
                    cells_view(cells@) == self@,
                    s@ == start + row_prefix(self@, row as int, j as int),
                decreases 4 - j,
            {
                let ghost before = s@;
                s.append("|");
                push_cell(&mut s, cells[row * 4 + j]);
                assert(cells_view(seq![cells[row * 4 + j]])[0] == self@[4 * row + j]);
                assert(s@ =~= start + row_prefix(self@, row as int, j as int + 1));
                j = j + 1;
            }
            proof {
                reveal_with_fuel(row_prefix, 5);
                assert(row_text(self@, row as int) =~= row_prefix(self@, row as int, 4) + "|\n"@);
            }
            s.append("|\n");
            s.append("-----------------------------\n");
            assert(s@ =~= rows_text(self@, row as int + 1));
            row = row + 1;
        }
        s
    }
}

/// The text of the first `j` cells of row `r`, each after a bar.
spec fn row_prefix(g: Seq<Option<nat>>, r: int, j: int) -> Seq<char>
    decreases j,
{
    if j <= 0 {
        Seq::empty()
    } else {
        row_prefix(g, r, j - 1) + "|"@ + cell_text(g[4 * r + j - 1])
    }
}

} // verus!
