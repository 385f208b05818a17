use vstd::prelude::*;
use crate::board::{grid_wf, Game, Tile, MAX_SIZE};

verus! {

/// A cell `(x, y)` lies on the grid.
pub open spec fn in_bounds(g: Seq<Seq<Option<usize>>>, c: (int, int)) -> bool {
    0 <= c.0 < g.len() && 0 <= c.1 < g[c.0].len()
}

/// Cell `c` holds a tile of the same color as the tile at the start cell `s`.
pub open spec fn same_tile(g: Seq<Seq<Option<usize>>>, s: (int, int), c: (int, int)) -> bool {
    &&& in_bounds(g, s)
    &&& in_bounds(g, c)
    &&& g[c.0][c.1] is Some
    &&& g[c.0][c.1] == g[s.0][s.1]
}

/// Two cells share an edge.
pub open spec fn adjacent(a: (int, int), b: (int, int)) -> bool {
    ||| a.0 == b.0 && (a.1 == b.1 + 1 || b.1 == a.1 + 1)
    ||| a.1 == b.1 && (a.0 == b.0 + 1 || b.0 == a.0 + 1)
}

/// A set that holds the start cell when it has a tile, and with each of its
/// cells every neighbour holding a tile of the start color.
pub open spec fn closed(g: Seq<Seq<Option<usize>>>, s: (int, int), t: Set<(int, int)>) -> bool {
    &&& same_tile(g, s, s) ==> t.contains(s)
    &&& forall|a: (int, int), b: (int, int)|
        #![trigger t.contains(a), adjacent(a, b)]
        t.contains(a) && adjacent(a, b) && same_tile(g, s, b) ==> t.contains(b)
}

/// Cell `c` belongs to the group of `s`: the 4-connected tiles of the start
/// color reachable from `s`, that is, the least closed set.
pub open spec fn in_group(g: Seq<Seq<Option<usize>>>, s: (int, int), c: (int, int)) -> bool {
    forall|t: Set<(int, int)>| #[trigger] closed(g, s, t) ==> t.contains(c)
}

/// Group membership of every cell of the grid.
pub open spec fn group_marks(g: Seq<Seq<Option<usize>>>, s: (int, int)) -> Seq<Seq<bool>> {
    Seq::new(g.len(), |x: int| Seq::new(g[x].len(), |y: int| in_group(g, s, (x, y))))
}

/// The number of `true` entries of a column.
pub open spec fn count_col(c: Seq<bool>) -> nat
    decreases c.len(),
{
    if c.len() == 0 {
        0
    } else {
        count_col(c.drop_last()) + if c.last() {
            1nat
        } else {
            0nat
        }
    }
}

/// The number of `true` entries of a grid.
pub open spec fn count_grid(m: Seq<Seq<bool>>) -> nat
    decreases m.len(),
{
    if m.len() == 0 {
        0
    } else {
        count_grid(m.drop_last()) + count_col(m.last())
    }
}

/// The number of tiles in the group of `s`.
pub open spec fn group_size(g: Seq<Seq<Option<usize>>>, s: (int, int)) -> nat {
    count_grid(group_marks(g, s))
}

/// The grid with the group of `s` removed.
pub open spec fn remove_group(g: Seq<Seq<Option<usize>>>, s: (int, int)) -> Seq<Seq<Option<usize>>> {
    Seq::new(
        g.len(),
        |x: int|
            Seq::new(
                g[x].len(),
                |y: int|
                    if in_group(g, s, (x, y)) {
                        None
                    } else {
                        g[x][y]
                    },
            ),
    )
}

/// A click at `s` removes something: its group reaches `min` tiles.
pub open spec fn click_ok(g: Seq<Seq<Option<usize>>>, s: (int, int), min: int) -> bool {
    group_size(g, s) >= min
}

/// The grid right after a click at `s`, before the collapse.
pub open spec fn click_result(g: Seq<Seq<Option<usize>>>, s: (int, int), min: int) -> Seq<
    Seq<Option<usize>>,
> {
    if click_ok(g, s, min) {
        remove_group(g, s)
    } else {
        g
    }
}

proof fn lemma_count_col_set(c: Seq<bool>, y: int)
    requires
        0 <= y < c.len(),
        !c[y],
    ensures
        count_col(c.update(y, true)) == count_col(c) + 1,
    decreases c.len(),
{
    let u = c.update(y, true);
    if y == c.len() - 1 {
        assert(u.drop_last() == c.drop_last());
    } else {
        assert(u.drop_last() == c.drop_last().update(y, true));
        lemma_count_col_set(c.drop_last(), y);
    }
}

proof fn lemma_count_grid_set(m: Seq<Seq<bool>>, x: int, y: int)
    requires
        0 <= x < m.len(),
        0 <= y < m[x].len(),
        !m[x][y],
    ensures
        count_grid(m.update(x, m[x].update(y, true))) == count_grid(m) + 1,
    decreases m.len(),
{
    let u = m.update(x, m[x].update(y, true));
    if x == m.len() - 1 {
        assert(u.drop_last() == m.drop_last());
        lemma_count_col_set(m[x], y);
    } else {
        assert(u.drop_last() == m.drop_last().update(x, m[x].update(y, true)));
        lemma_count_grid_set(m.drop_last(), x, y);
    }
}

proof fn lemma_count_col_bound(c: Seq<bool>)
    ensures
        count_col(c) <= c.len(),
    decreases c.len(),
{
    if c.len() > 0 {
        lemma_count_col_bound(c.drop_last());
    }
}

proof fn lemma_count_grid_bound(m: Seq<Seq<bool>>, n: int)
    requires
        n >= 0,
        forall|x: int| 0 <= x < m.len() ==> (#[trigger] m[x]).len() == n,
    ensures
        count_grid(m) <= m.len() * n,
    decreases m.len(),
{
    if m.len() > 0 {
        lemma_count_grid_bound(m.drop_last(), n);
        lemma_count_col_bound(m.last());
        let k = m.len() as int;
        assert((k - 1) * n + n == k * n) by (nonlinear_arith);
    }
}

/// Every cell of the square grid `g` holds a tile of color `c`.
pub open spec fn uniform(g: Seq<Seq<Option<usize>>>, c: usize) -> bool {
    &&& grid_wf(g, g.len() as int)
    &&& forall|x: int, y: int| 0 <= x < g.len() && 0 <= y < g.len() ==> #[trigger] g[x][y] == Some(c)
}

proof fn lemma_reach_col(g: Seq<Seq<Option<usize>>>, c: usize, s: (int, int), t: Set<(int, int)>, x: int, y0: int, y: int)
    requires
        uniform(g, c),
        closed(g, s, t),
        in_bounds(g, s),
        0 <= x < g.len(),
        0 <= y0 < g.len(),
        0 <= y < g.len(),
        t.contains((x, y0)),
    ensures
        t.contains((x, y)),
    decreases if y >= y0 { y - y0 } else { y0 - y },
{
    if y > y0 {
        lemma_reach_col(g, c, s, t, x, y0, y - 1);
        assert(adjacent((x, y - 1), (x, y)));
        assert(same_tile(g, s, (x, y)));
    } else if y < y0 {
        lemma_reach_col(g, c, s, t, x, y0, y + 1);
        assert(adjacent((x, y + 1), (x, y)));
        assert(same_tile(g, s, (x, y)));
    }
}

proof fn lemma_reach_row(g: Seq<Seq<Option<usize>>>, c: usize, s: (int, int), t: Set<(int, int)>, x0: int, x: int, y: int)
    requires
        uniform(g, c),
        closed(g, s, t),
        in_bounds(g, s),
        0 <= x0 < g.len(),
        0 <= x < g.len(),
        0 <= y < g.len(),
        t.contains((x0, y)),
    ensures
        t.contains((x, y)),
    decreases if x >= x0 { x - x0 } else { x0 - x },
{
    if x > x0 {
        lemma_reach_row(g, c, s, t, x0, x - 1, y);
        assert(adjacent((x - 1, y), (x, y)));
        assert(same_tile(g, s, (x, y)));
    } else if x < x0 {
        lemma_reach_row(g, c, s, t, x0, x + 1, y);
        assert(adjacent((x + 1, y), (x, y)));
        assert(same_tile(g, s, (x, y)));
    }
}

proof fn lemma_count_col_full(c: Seq<bool>)
    requires
        forall|y: int| 0 <= y < c.len() ==> #[trigger] c[y],
    ensures
        count_col(c) == c.len(),
    decreases c.len(),
{
    if c.len() > 0 {
        lemma_count_col_full(c.drop_last());
    }
}

proof fn lemma_count_grid_full(m: Seq<Seq<bool>>, n: int)
    requires
        n >= 0,
        forall|x: int| 0 <= x < m.len() ==> (#[trigger] m[x]).len() == n,
        forall|x: int, y: int| 0 <= x < m.len() && 0 <= y < n ==> #[trigger] m[x][y],
    ensures
        count_grid(m) == m.len() * n,
    decreases m.len(),
{
    if m.len() > 0 {
        lemma_count_grid_full(m.drop_last(), n);
        lemma_count_col_full(m.last());
        let k = m.len() as int;
        assert((k - 1) * n + n == k * n) by (nonlinear_arith);
    }
}

/// On a board filled with one color, the group of any cell is the whole board.
pub proof fn lemma_uniform_group(g: Seq<Seq<Option<usize>>>, c: usize, s: (int, int))
    requires
        uniform(g, c),
        in_bounds(g, s),
    ensures
        group_size(g, s) == g.len() * g.len(),
        forall|x: int, y: int|
            0 <= x < g.len() && 0 <= y < g.len() ==> #[trigger] remove_group(g, s)[x][y] is None,
{
    let n = g.len() as int;
    assert forall|x: int, y: int| 0 <= x < n && 0 <= y < n implies #[trigger] in_group(g, s, (x, y)) by {
        assert forall|t: Set<(int, int)>| #[trigger] closed(g, s, t) implies t.contains((x, y)) by {
            assert(same_tile(g, s, s));
            lemma_reach_col(g, c, s, t, s.0, s.1, y);
            lemma_reach_row(g, c, s, t, s.0, x, y);
        }
    }
    let m = group_marks(g, s);
    assert forall|x: int, y: int| 0 <= x < n && 0 <= y < n implies #[trigger] m[x][y] by {
        assert(in_group(g, s, (x, y)));
    }
    lemma_count_grid_full(m, n);
}

/// The marks of a flood fill, column by column.
pub open spec fn mview(marks: &Vec<Vec<bool>>) -> Seq<Seq<bool>> {
    marks@.map_values(|c: Vec<bool>| c@)
}

/// Every neighbour of `(a, b)` that holds a tile of the start color is marked.
pub open spec fn nbrs_done(
    g: Seq<Seq<Option<usize>>>,
    s: (int, int),
    m: Seq<Seq<bool>>,
    a: int,
    b: int,
) -> bool {
    forall|d: (int, int)|
        #![trigger adjacent((a, b), d)]
        adjacent((a, b), d) && same_tile(g, s, d) ==> m[d.0][d.1]
}

/// What holds of a flood fill between steps: marked cells are in the group,
/// pending cells are marked, and a marked cell that is neither pending nor
/// `cur` has all its matching neighbours marked.
pub open spec fn fill_inv(
    g: Seq<Seq<Option<usize>>>,
    s: (int, int),
    m: Seq<Seq<bool>>,
    st: Seq<(usize, usize)>,
    cur: (int, int),
) -> bool {
    let n = g.len() as int;
    &&& grid_wf(g, n)
    &&& m.len() == n
    &&& forall|x: int| 0 <= x < n ==> (#[trigger] m[x]).len() == n
    &&& forall|a: int, b: int|
        0 <= a < n && 0 <= b < n && #[trigger] m[a][b] ==> in_group(g, s, (a, b))
    &&& forall|i: int|
        0 <= i < st.len() ==> (#[trigger] st[i]).0 < n && st[i].1 < n && m[st[i].0 as int][st[i].1 as int]
    &&& same_tile(g, s, s) ==> m[s.0][s.1]
    &&& forall|a: int, b: int|
        0 <= a < n && 0 <= b < n && #[trigger] m[a][b] ==> st.contains((a as usize, b as usize)) || (a, b) == cur
            || nbrs_done(g, s, m, a, b)
}

/// Sets one mark.
fn set_mark(marks: &mut Vec<Vec<bool>>, x: usize, y: usize)
    requires
        x < old(marks)@.len(),
        y < old(marks)@[x as int]@.len(),
    ensures
        mview(final(marks)) == mview(old(marks)).update(x as int, mview(old(marks))[x as int].update(y as int, true)),
{
    marks[x].set(y, true);
    proof {
        let m0 = mview(old(marks));
        assert(mview(marks)[x as int] =~= m0[x as int].update(y as int, true));
        assert(mview(marks) =~= m0.update(x as int, m0[x as int].update(y as int, true)));
    }
}

proof fn lemma_count_zero(m: Seq<Seq<bool>>)
    requires
        forall|x: int, y: int| 0 <= x < m.len() && 0 <= y < m[x].len() ==> !(#[trigger] m[x][y]),
    ensures
        count_grid(m) == 0,
    decreases m.len(),
{
    if m.len() > 0 {
        lemma_count_zero(m.drop_last());
        lemma_count_col_zero(m.last());
    }
}

proof fn lemma_count_col_zero(c: Seq<bool>)
    requires
        forall|y: int| 0 <= y < c.len() ==> !(#[trigger] c[y]),
    ensures
        count_col(c) == 0,
    decreases c.len(),
{
    if c.len() > 0 {
        lemma_count_col_zero(c.drop_last());
    }
}

/// An `n` by `n` grid of marks, none set.
fn blank_marks(n: usize) -> (r: Vec<Vec<bool>>)
    ensures
        mview(&r).len() == n,
        forall|x: int| 0 <= x < n ==> (#[trigger] mview(&r)[x]).len() == n,
        forall|x: int, y: int| 0 <= x < n && 0 <= y < n ==> !(#[trigger] mview(&r)[x][y]),
{
    let mut r: Vec<Vec<bool>> = Vec::new();
    let mut x: usize = 0;
    while x < n
        invariant
            x <= n,
            r@.len() == x,
            forall|i: int| 0 <= i < x ==> (#[trigger] r@[i])@.len() == n,
            forall|i: int, j: int| 0 <= i < x && 0 <= j < n ==> !(#[trigger] r@[i]@[j]),
        decreases n - x,
    {
        let mut col: Vec<bool> = Vec::new();
        let mut y: usize = 0;
        while y < n
            invariant
                y <= n,
                col@.len() == y,
                forall|j: int| 0 <= j < y ==> !(#[trigger] col@[j]),
            decreases n - y,
        {
            col.push(false);
            y = y + 1;
        }
        r.push(col);
        x = x + 1;
    }
    r
}

impl Game {
    /// Marks `(a, b)` and makes it pending when it holds a tile of the start
    /// color and is not marked yet; `(cx, cy)` is the marked neighbour it is reached from.
    fn visit(
        &self,
        s: Ghost<(int, int)>,
        marks: &mut Vec<Vec<bool>>,
        stack: &mut Vec<(usize, usize)>,
        count: &mut usize,
        cx: usize,
        cy: usize,
        a: usize,
        b: usize,
    )
        requires
            self.wf(),
            a < self.size,
            b < self.size,
            cx < self.size,
            cy < self.size,
            adjacent((cx as int, cy as int), (a as int, b as int)),
            in_bounds(self.grid(), s@),
            fill_inv(self.grid(), s@, mview(old(marks)), old(stack)@, (cx as int, cy as int)),
            mview(old(marks))[cx as int][cy as int],
            *old(count) == count_grid(mview(old(marks))),
        ensures
            fill_inv(self.grid(), s@, mview(final(marks)), final(stack)@, (cx as int, cy as int)),
            *final(count) == count_grid(mview(final(marks))),
            same_tile(self.grid(), s@, (a as int, b as int)) ==> mview(final(marks))[a as int][b as int],
            forall|i: int, j: int|
                0 <= i < self.size && 0 <= j < self.size && #[trigger] mview(old(marks))[i][j]
                    ==> mview(final(marks))[i][j],
            (final(stack)@.len() == old(stack)@.len() && *final(count) == *old(count)) || (
            final(stack)@.len() == old(stack)@.len() + 1 && *final(count) == *old(count) + 1),
    {
        let ghost g = self.grid();
        let ghost m0 = mview(marks);
        let ghost st0 = stack@;
        let ghost n = self.size as int;
        let t = self.tile(a, b);
        let c = self.tile(cx, cy);
        proof {
            assert(mview(marks)[a as int] == marks@[a as int]@);
            assert(same_tile(g, s@, (cx as int, cy as int))) by {
                assert(in_group(g, s@, (cx as int, cy as int)));
                let t_all = Set::new(|c: (int, int)| same_tile(g, s@, c));
                assert(closed(g, s@, t_all));
                assert(t_all.contains((cx as int, cy as int)));
            }
        }
        if !marks[a][b] && t.enabled && t.color == c.color {
            proof {
                assert(same_tile(g, s@, (a as int, b as int)));
                assert forall|t: Set<(int, int)>| #[trigger] closed(g, s@, t) implies t.contains(
                    (a as int, b as int),
                ) by {
                    assert(in_group(g, s@, (cx as int, cy as int)));
                    assert(t.contains((cx as int, cy as int)));
                    assert(adjacent((cx as int, cy as int), (a as int, b as int)));
                }
                lemma_count_grid_set(m0, a as int, b as int);
                lemma_count_grid_bound(mview(marks).update(a as int, m0[a as int].update(b as int, true)), n);
                assert(n * n <= MAX_SIZE * MAX_SIZE) by (nonlinear_arith)
                    requires n <= MAX_SIZE, n >= 0;
            }
            set_mark(marks, a, b);
            stack.push((a, b));
            *count = *count + 1;
            proof {
                let m1 = mview(marks);
                let st1 = stack@;
                assert(st1 == st0.push((a, b)));
                assert forall|i: int, j: int|
                    0 <= i < n && 0 <= j < n && #[trigger] m1[i][j] implies st1.contains((i as usize, j as usize))
                        || (i, j) == (cx as int, cy as int) || nbrs_done(g, s@, m1, i, j) by {
                    if i == a && j == b {
                        assert(st1[st0.len() as int] == (a, b));
                    } else {
                        assert(m0[i][j]);
                        if st0.contains((i as usize, j as usize)) {
                            let k = choose|k: int| 0 <= k < st0.len() && st0[k] == (i as usize, j as usize);
                            assert(st1[k] == (i as usize, j as usize));
                        } else if (i, j) != (cx as int, cy as int) {
                            assert(nbrs_done(g, s@, m0, i, j));
                            assert forall|d: (int, int)|
                                #![trigger adjacent((i, j), d)]
                                adjacent((i, j), d) && same_tile(g, s@, d) implies m1[d.0][d.1] by {
                                assert(m0[d.0][d.1]);
                            }
                        }
                    }
                }
                assert forall|i: int| 0 <= i < st1.len() implies (#[trigger] st1[i]).0 < n && st1[i].1 < n
                    && m1[st1[i].0 as int][st1[i].1 as int] by {
                    if i < st0.len() {
                        assert(st1[i] == st0[i]);
                    }
                }
            }
        }
    }

    /// Flood fill from `(x, y)` with an explicit stack: marks exactly the
    /// group of `(x, y)` and counts it.
    fn find_group(&self, x: usize, y: usize) -> (r: (Vec<Vec<bool>>, usize))
        requires
            self.wf(),
            x < self.size,
            y < self.size,
        ensures
            mview(&r.0) == group_marks(self.grid(), (x as int, y as int)),
            r.1 == group_size(self.grid(), (x as int, y as int)),
    {
        let ghost g = self.grid();
        let ghost s = (x as int, y as int);
        let n = self.size;
        let mut marks = blank_marks(n);
        let mut stack: Vec<(usize, usize)> = Vec::new();
        let mut count: usize = 0;
        proof {
            lemma_count_zero(mview(&marks));
            assert(grid_wf(g, n as int));
        }
        if self.tile(x, y).enabled {
            proof {
                lemma_count_grid_set(mview(&marks), x as int, y as int);
                assert forall|t: Set<(int, int)>| #[trigger] closed(g, s, t) implies t.contains(s) by {}
            }
            set_mark(&mut marks, x, y);
            stack.push((x, y));
            count = 1;
            proof {
                let m1 = mview(&marks);
                assert(stack@[0] == (x, y));
                assert forall|a: int, b: int|
                    0 <= a < n && 0 <= b < n && #[trigger] m1[a][b] implies stack@.contains(
                        (a as usize, b as usize),
                    ) by {}
            }
        }
        proof {
            lemma_count_grid_bound(mview(&marks), n as int);
            assert(fill_inv(g, s, mview(&marks), stack@, (-1, -1)));
        }
        while stack.len() > 0
            invariant
                self.wf(),
                n == self.size,
                g == self.grid(),
                s == (x as int, y as int),
                x < n,
                y < n,
                fill_inv(g, s, mview(&marks), stack@, (-1, -1)),
                count == count_grid(mview(&marks)),
                count <= n * n,
            decreases 2 * (n * n - count) + stack@.len(),
        {
            let ghost st0 = stack@;
            let ghost m0 = mview(&marks);
            let top = stack.pop();
            let (cx, cy) = match top {
                Some(c) => c,
                None => (0, 0),
            };
            proof {
                assert(st0.last() == (cx, cy));
                assert(stack@ == st0.drop_last());
                assert forall|a: int, b: int|
                    0 <= a < n && 0 <= b < n && #[trigger] m0[a][b] implies stack@.contains(
                        (a as usize, b as usize),
                    ) || (a, b) == (cx as int, cy as int) || nbrs_done(g, s, m0, a, b) by {
                    if st0.contains((a as usize, b as usize)) {
                        let k = choose|k: int| 0 <= k < st0.len() && st0[k] == (a as usize, b as usize);
                        if k < st0.len() - 1 {
                            assert(stack@[k] == (a as usize, b as usize));
                        }
                    }
                }
                assert forall|i: int| 0 <= i < stack@.len() implies (#[trigger] stack@[i]).0 < n
                    && stack@[i].1 < n && m0[stack@[i].0 as int][stack@[i].1 as int] by {
                    assert(stack@[i] == st0[i]);
                }
                assert(st0[st0.len() - 1] == (cx, cy));
                assert(fill_inv(g, s, m0, stack@, (cx as int, cy as int)));
            }
            let ghost len1 = stack@.len();
            let ghost c1 = count;
            if cx + 1 < n {
                self.visit(Ghost(s), &mut marks, &mut stack, &mut count, cx, cy, cx + 1, cy);
            }
            let ghost m1 = mview(&marks);
            let ghost len2 = stack@.len();
            let ghost c2 = count;
            if cx > 0 {
                self.visit(Ghost(s), &mut marks, &mut stack, &mut count, cx, cy, cx - 1, cy);
            }
            let ghost m2 = mview(&marks);
            let ghost len3 = stack@.len();
            let ghost c3 = count;
            if cy + 1 < n {
                self.visit(Ghost(s), &mut marks, &mut stack, &mut count, cx, cy, cx, cy + 1);
            }
            let ghost m3 = mview(&marks);
            let ghost len4 = stack@.len();
            let ghost c4 = count;
            if cy > 0 {
                self.visit(Ghost(s), &mut marks, &mut stack, &mut count, cx, cy, cx, cy - 1);
            }
            proof {
                let m4 = mview(&marks);
                lemma_count_grid_bound(m4, n as int);
                let nn = n * n;
                assert(len1 + 1 == st0.len());
                assert(2 * (nn - c2) + len2 <= 2 * (nn - c1) + len1);
                assert(2 * (nn - c3) + len3 <= 2 * (nn - c2) + len2);
                assert(2 * (nn - c4) + len4 <= 2 * (nn - c3) + len3);
                assert(2 * (nn - count) + stack@.len() <= 2 * (nn - c4) + len4);
                assert(nbrs_done(g, s, m4, cx as int, cy as int)) by {
                    assert forall|d: (int, int)|
                        #![trigger adjacent((cx as int, cy as int), d)]
                        adjacent((cx as int, cy as int), d) && same_tile(g, s, d) implies m4[d.0][d.1] by {
                        if d == (cx + 1, cy as int) {
                            assert(m1[d.0][d.1]);
                            assert(m2[d.0][d.1]);
                            assert(m3[d.0][d.1]);
                        } else if d == (cx - 1, cy as int) {
                            assert(m2[d.0][d.1]);
                            assert(m3[d.0][d.1]);
                        } else if d == (cx as int, cy + 1) {
                            assert(m3[d.0][d.1]);
                        }
                    }
                }
                assert forall|a: int, b: int|
                    0 <= a < n && 0 <= b < n && #[trigger] m4[a][b] implies stack@.contains(
                        (a as usize, b as usize),
                    ) || (a, b) == (-1int, -1int) || nbrs_done(g, s, m4, a, b) by {
                    if (a, b) == (cx as int, cy as int) {
                    }
                }
            }
        }
        proof {
            let m = mview(&marks);
            let t = Set::new(|c: (int, int)| in_bounds(g, c) && m[c.0][c.1]);
            assert(closed(g, s, t)) by {
                assert forall|a: (int, int), b: (int, int)|
                    #![trigger t.contains(a), adjacent(a, b)]
                    t.contains(a) && adjacent(a, b) && same_tile(g, s, b) implies t.contains(b) by {
                    assert(m[a.0][a.1]);
                    assert(!stack@.contains((a.0 as usize, a.1 as usize)));
                    assert(nbrs_done(g, s, m, a.0, a.1));
                    assert(adjacent((a.0, a.1), b));
                }
            }
            let gm = group_marks(g, s);
            assert forall|i: int| 0 <= i < n implies #[trigger] m[i] =~= gm[i] by {
                assert forall|j: int| 0 <= j < n implies #[trigger] m[i][j] == gm[i][j] by {
                    if in_group(g, s, (i, j)) {
                        assert(t.contains((i, j)));
                    }
                }
            }
            assert(m =~= gm);
        }
        (marks, count)
    }

    /// Clicks column `x`, row `y`: removes the group of that cell when it has
    /// at least `min_connected` tiles and reports whether it did; otherwise
    /// leaves the board untouched.
    pub fn click(&mut self, x: usize, y: usize) -> (r: bool)
        requires
            old(self).wf(),
            x < old(self).size,
            y < old(self).size,
        ensures
            final(self).wf(),
            final(self).size == old(self).size,
            final(self).min_connected == old(self).min_connected,
            r == click_ok(old(self).grid(), (x as int, y as int), old(self).min_connected as int),
            final(self).grid() == click_result(
                old(self).grid(),
                (x as int, y as int),
                old(self).min_connected as int,
            ),
            !r ==> *final(self) == *old(self),
    {
        let ghost g = self.grid();
        let ghost s = (x as int, y as int);
        let (marks, count) = self.find_group(x, y);
        if count < self.min_connected {
            return false;
        }
        let n = self.size;
        let mut i: usize = 0;
        proof {
            assert(marks@.len() == n);
            assert forall|a: int| 0 <= a < n implies (#[trigger] marks@[a])@.len() == n by {
                assert(mview(&marks)[a] == marks@[a]@);
            }
        }
        while i < n
            invariant
                self.wf(),
                n == self.size,
                self.min_connected == old(self).min_connected,
                g == old(self).grid(),
                grid_wf(g, n as int),
                mview(&marks) == group_marks(g, s),
                marks@.len() == n,
                forall|a: int| 0 <= a < n ==> (#[trigger] marks@[a])@.len() == n,
                i <= n,
                self.grid().len() == n,
                forall|a: int| 0 <= a < i ==> #[trigger] self.grid()[a] == remove_group(g, s)[a],
                forall|a: int| i <= a < n ==> #[trigger] self.grid()[a] == g[a],
            decreases n - i,
        {
            let mut j: usize = 0;
            while j < n
                invariant
                    self.wf(),
                    n == self.size,
                    self.min_connected == old(self).min_connected,
                    g == old(self).grid(),
                    grid_wf(g, n as int),
                    mview(&marks) == group_marks(g, s),
                    marks@.len() == n,
                    forall|a: int| 0 <= a < n ==> (#[trigger] marks@[a])@.len() == n,
                    i < n,
                    j <= n,
                    self.grid().len() == n,
                    forall|a: int| 0 <= a < i ==> #[trigger] self.grid()[a] == remove_group(g, s)[a],
                    forall|a: int| i < a < n ==> #[trigger] self.grid()[a] == g[a],
                    forall|b: int| 0 <= b < j ==> #[trigger] self.grid()[i as int][b] == remove_group(g, s)[i as int][b],
                    forall|b: int| j <= b < n ==> #[trigger] self.grid()[i as int][b] == g[i as int][b],
                decreases n - j,
            {
                proof {
                    assert(mview(&marks)[i as int] == marks@[i as int]@);
                }
                if marks[i][j] {
                    let t = self.tile(i, j);
                    self.set_tile(i, j, Tile { color: t.color, enabled: false });
                }
                j = j + 1;
            }
            proof {
                assert(self.grid()[i as int] =~= remove_group(g, s)[i as int]);
            }
            i = i + 1;
        }
        proof {
            assert(self.grid() =~= remove_group(g, s));
        }
        true
    }
}

} // verus!
