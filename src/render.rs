use vstd::prelude::*;
use itertools::Itertools;
use crate::board::{cell_of, Game};

verus! {

/// The character of a decimal digit.
pub open spec fn digit(d: int) -> char {
    seq!['0', '1', '2', '3', '4', '5', '6', '7', '8', '9'][d]
}

/// The decimal digits of `n`, most significant first, without leading zeros.
pub open spec fn decimal(n: nat) -> Seq<char>
    decreases n,
{
    if n < 10 {
        seq![digit(n as int)]
    } else {
        decimal(n / 10).push(digit((n % 10) as int))
    }
}

/// `parts` with `sep` between each two neighbours.
pub open spec fn joined(parts: Seq<Seq<char>>, sep: Seq<char>) -> Seq<char>
    decreases parts.len(),
{
    if parts.len() == 0 {
        Seq::empty()
    } else if parts.len() == 1 {
        parts[0]
    } else {
        joined(parts.drop_last(), sep) + sep + parts.last()
    }
}

/// The text of one cell: its color in decimal, or a blank when empty.
pub open spec fn cell_text(o: Option<usize>) -> Seq<char> {
    match o {
        Some(c) => decimal(c as nat),
        None => seq![' '],
    }
}

/// The texts of the cells of row `y`, left to right.
pub open spec fn row_cells(g: Seq<Seq<Option<usize>>>, y: int) -> Seq<Seq<char>> {
    Seq::new(g.len(), |x: int| cell_text(g[x][y]))
}

/// The board as text: rows top to bottom joined by newlines, the cells of a
/// row joined by spaces.
pub open spec fn render(g: Seq<Seq<Option<usize>>>) -> Seq<char> {
    joined(Seq::new(g.len(), |y: int| joined(row_cells(g, y), seq![' '])), seq!['\n'])
}

/// The views of a vector of strings.
pub open spec fn texts(v: Seq<String>) -> Seq<Seq<char>> {
    v.map_values(|s: String| s@)
}

/// Relies on usize's `to_string`: its decimal digits.
#[verifier::external_body]
fn decimal_text(n: usize) -> (r: String)
    ensures
        r@ == decimal(n as nat),
{
    n.to_string()
}

/// Relies on itertools::Itertools::join: the parts with `sep` between each
/// two neighbours, the empty string for no parts.
#[verifier::external_body]
fn join_texts(parts: &Vec<String>, sep: &str) -> (r: String)
    ensures
        r@ == joined(texts(parts@), sep@),
{
    parts.iter().join(sep)
}

impl Game {
    /// A diagnostic rendering of the board: each present tile as its color,
    /// each empty cell as a blank.
    pub fn to_string(&self) -> (r: String)
        requires
            self.wf(),
        ensures
            r@ == render(self.grid()),
    {
        let n = self.size;
        let mut rows: Vec<String> = Vec::new();
        let mut y: usize = 0;
        while y < n
            invariant
                self.wf(),
                n == self.size,
                y <= n,
                rows@.len() == y,
                texts(rows@) == Seq::new(y as nat, |j: int| joined(row_cells(self.grid(), j), seq![' '])),
            decreases n - y,
        {
            let mut cells: Vec<String> = Vec::new();
            let mut x: usize = 0;
            while x < n
                invariant
                    self.wf(),
                    n == self.size,
                    y < n,
                    x <= n,
                    cells@.len() == x,
                    texts(cells@) == row_cells(self.grid(), y as int).subrange(0, x as int),
                decreases n - x,
            {
                let t = self.tile(x, y);
                let text = if t.enabled {
                    decimal_text(t.color)
                } else {
                    proof {
                        reveal_strlit(" ");
                        assert(" "@ =~= seq![' ']);
                    }
                    " ".to_owned()
                };
                let ghost before = cells@;
                proof {
                    assert(text@ == cell_text(self.grid()[x as int][y as int]));
                }
                cells.push(text);
                proof {
                    assert(cells@ == before.push(text));
                    assert(texts(cells@)[x as int] == text@);
                    assert forall|i: int| 0 <= i < x implies #[trigger] texts(cells@)[i] == texts(before)[i] by {
                        assert(cells@[i] == before[i]);
                    }
                    assert(texts(cells@) =~= row_cells(self.grid(), y as int).subrange(0, x + 1));
                }
                x = x + 1;
            }
            proof {
                assert(texts(cells@) =~= row_cells(self.grid(), y as int));
            }
            let line = join_texts(&cells, " ");
            let ghost before = rows@;
            rows.push(line);
            proof {
                assert(rows@ == before.push(line));
                assert(texts(rows@)[y as int] == line@);
                assert forall|i: int| 0 <= i < y implies #[trigger] texts(rows@)[i] == texts(before)[i] by {
                    assert(rows@[i] == before[i]);
                }
                reveal_strlit(" ");
                assert(" "@ =~= seq![' ']);
                assert(texts(rows@) =~= Seq::new((y + 1) as nat, |j: int| joined(row_cells(self.grid(), j), seq![' '])));
            }
            y = y + 1;
        }
        let r = join_texts(&rows, "\n");
        proof {
            reveal_strlit("\n");
            assert("\n"@ =~= seq!['\n']);
            assert(texts(rows@) =~= Seq::new(self.grid().len(), |j: int| joined(row_cells(self.grid(), j), seq![' '])));
        }
        r
    }
}

} // verus!
