use vstd::prelude::*;
use vstd::multiset::Multiset;
use crate::board::{cleared, grid_wf, Game, Tile};

verus! {

/// The predicate "this cell holds a tile".
pub open spec fn tile_pred() -> spec_fn(Option<usize>) -> bool {
    |o: Option<usize>| o is Some
}

/// The tiles of a column, top to bottom, with the gaps left out.
pub open spec fn present(c: Seq<Option<usize>>) -> Seq<Option<usize>> {
    c.filter(tile_pred())
}

/// A column of `k` empty cells.
pub open spec fn blanks(k: int) -> Seq<Option<usize>> {
    Seq::new(k as nat, |i: int| None::<usize>)
}

/// A column after gravity: its tiles, in their order, resting on the bottom.
pub open spec fn settle(c: Seq<Option<usize>>) -> Seq<Option<usize>> {
    blanks(c.len() - present(c).len()) + present(c)
}

/// Vertical gravity applied to every column.
pub open spec fn gravity(g: Seq<Seq<Option<usize>>>) -> Seq<Seq<Option<usize>>> {
    g.map_values(|c: Seq<Option<usize>>| settle(c))
}

/// The predicate "this column holds at least one tile".
pub open spec fn occupied_pred() -> spec_fn(Seq<Option<usize>>) -> bool {
    |c: Seq<Option<usize>>| present(c).len() > 0
}

/// The occupied columns of a sequence of columns, left to right.
pub open spec fn occupied(s: Seq<Seq<Option<usize>>>) -> Seq<Seq<Option<usize>>> {
    s.filter(occupied_pred())
}

/// The columns `s` after compaction, for columns of height `n`: every empty
/// column goes to the left edge, the occupied ones keep their order on the right.
pub open spec fn compact_cols(s: Seq<Seq<Option<usize>>>, n: int) -> Seq<Seq<Option<usize>>> {
    Seq::new((s.len() - occupied(s).len()) as nat, |i: int| blanks(n)) + occupied(s)
}

/// Horizontal compaction of a square grid.
pub open spec fn compact(g: Seq<Seq<Option<usize>>>) -> Seq<Seq<Option<usize>>> {
    compact_cols(g, g.len() as int)
}

/// What a successful click is followed by: gravity, then compaction.
pub open spec fn collapse(g: Seq<Seq<Option<usize>>>) -> Seq<Seq<Option<usize>>> {
    compact(gravity(g))
}

/// The color held by a cell known to hold a tile.
pub open spec fn color_of(o: Option<usize>) -> usize {
    match o {
        Some(c) => c,
        None => 0,
    }
}

/// The colors of all tiles of a grid, column by column.
pub open spec fn color_seq(g: Seq<Seq<Option<usize>>>) -> Seq<usize> {
    column_tiles(g).flatten().map_values(
        |o: Option<usize>| color_of(o),
    )
}

/// The multiset of colors of the tiles on a grid.
pub open spec fn tile_colors(g: Seq<Seq<Option<usize>>>) -> Multiset<usize> {
    color_seq(g).to_multiset()
}

proof fn lemma_filter_all<A>(s: Seq<A>, p: spec_fn(A) -> bool)
    requires
        forall|i: int| 0 <= i < s.len() ==> p(#[trigger] s[i]),
    ensures
        s.filter(p) == s,
    decreases s.len(),
{
    if s.len() > 0 {
        let d = s.drop_last();
        lemma_filter_all(d, p);
        assert(d.push(s.last()) == s);
        d.lemma_filter_push(s.last(), p);
    }
}

proof fn lemma_filter_none<A>(s: Seq<A>, p: spec_fn(A) -> bool)
    requires
        forall|i: int| 0 <= i < s.len() ==> !p(#[trigger] s[i]),
    ensures
        s.filter(p) == Seq::<A>::empty(),
    decreases s.len(),
{
    if s.len() > 0 {
        let d = s.drop_last();
        lemma_filter_none(d, p);
        assert(d.push(s.last()) == s);
        d.lemma_filter_push(s.last(), p);
    }
}

/// Every element of `present(c)` holds a tile, and there are no more of them than cells.
proof fn lemma_present_facts(c: Seq<Option<usize>>)
    ensures
        present(c).len() <= c.len(),
        forall|i: int| 0 <= i < present(c).len() ==> #[trigger] present(c)[i] is Some,
        present(present(c)) == present(c),
{
    broadcast use vstd::seq_lib::group_filter_ensures;

    assert forall|i: int| 0 <= i < present(c).len() implies #[trigger] present(c)[i] is Some by {
        assert(tile_pred()(present(c)[i]));
    }
    lemma_filter_all(present(c), tile_pred());
}

/// A column with no tiles holds only gaps.
proof fn lemma_no_present(c: Seq<Option<usize>>)
    requires
        present(c).len() == 0,
    ensures
        forall|y: int| 0 <= y < c.len() ==> #[trigger] c[y] is None,
{
    broadcast use vstd::seq_lib::group_filter_ensures;

    assert forall|y: int| 0 <= y < c.len() implies #[trigger] c[y] is None by {
        if c[y] is Some {
            assert(tile_pred()(c[y]));
            assert(present(c).contains(c[y]));
        }
    }
}

/// The tiles of a settled column are those of the column.
proof fn lemma_present_settle(c: Seq<Option<usize>>)
    ensures
        present(settle(c)) == present(c),
        settle(c).len() == c.len(),
{
    lemma_present_facts(c);
    let b = blanks(c.len() - present(c).len());
    Seq::filter_distributes_over_add(b, present(c), tile_pred());
    lemma_filter_none(b, tile_pred());
    assert(Seq::<Option<usize>>::empty() + present(c) == present(c));
}

/// Settling a settled column changes nothing.
pub proof fn lemma_settle_idempotent(c: Seq<Option<usize>>)
    ensures
        settle(settle(c)) == settle(c),
{
    lemma_present_settle(c);
}

/// Applying vertical gravity twice yields the same grid as applying it once.
pub proof fn lemma_gravity_idempotent(g: Seq<Seq<Option<usize>>>)
    ensures
        gravity(gravity(g)) == gravity(g),
{
    assert forall|x: int| 0 <= x < g.len() implies #[trigger] gravity(gravity(g))[x] == gravity(
        g,
    )[x] by {
        lemma_settle_idempotent(g[x]);
    }
    assert(gravity(gravity(g)) =~= gravity(g));
}

/// Compacting a compacted grid changes nothing.
pub proof fn lemma_compact_idempotent(g: Seq<Seq<Option<usize>>>)
    requires
        grid_wf(g, g.len() as int),
    ensures
        compact(compact(g)) == compact(g),
{
    broadcast use vstd::seq_lib::group_filter_ensures;

    let n = g.len() as int;
    let k = occupied(g);
    let e = Seq::new((g.len() - k.len()) as nat, |i: int| blanks(n));
    let h = compact(g);
    assert(h == e + k);
    assert forall|i: int| 0 <= i < e.len() implies !occupied_pred()(#[trigger] e[i]) by {
        lemma_filter_none(blanks(n), tile_pred());
    }
    lemma_filter_none(e, occupied_pred());
    assert forall|i: int| 0 <= i < k.len() implies occupied_pred()(#[trigger] k[i]) by {}
    lemma_filter_all(k, occupied_pred());
    Seq::filter_distributes_over_add(e, k, occupied_pred());
    assert(occupied(h) == k);
    assert(h.len() == g.len());
    assert(compact(h) =~= h);
}

/// Flattening after appending one sequence appends it to the flattening.
proof fn lemma_flatten_push<A>(s: Seq<Seq<A>>, t: Seq<A>)
    ensures
        s.push(t).flatten() == s.flatten() + t,
{
    vstd::seq_lib::lemma_flatten_concat(s, seq![t]);
    seq![t].lemma_flatten_one_element();
    assert(s.push(t) == s + seq![t]);
}

/// The tiles of each column, column by column.
pub open spec fn column_tiles(s: Seq<Seq<Option<usize>>>) -> Seq<Seq<Option<usize>>> {
    s.map_values(|c: Seq<Option<usize>>| present(c))
}

/// Leaving out the empty columns loses no tile.
proof fn lemma_occupied_tiles(s: Seq<Seq<Option<usize>>>)
    ensures
        column_tiles(occupied(s)).flatten() == column_tiles(s).flatten(),
    decreases s.len(),
{
    if s.len() > 0 {
        let d = s.drop_last();
        let c = s.last();
        lemma_occupied_tiles(d);
        assert(d.push(c) == s);
        d.lemma_filter_push(c, occupied_pred());
        assert(column_tiles(s) == column_tiles(d).push(present(c)));
        lemma_flatten_push(column_tiles(d), present(c));
        if occupied_pred()(c) {
            assert(column_tiles(occupied(s)) == column_tiles(occupied(d)).push(present(c)));
            lemma_flatten_push(column_tiles(occupied(d)), present(c));
        } else {
            assert(present(c) =~= Seq::<Option<usize>>::empty());
            assert(column_tiles(d).flatten() + present(c) == column_tiles(d).flatten());
        }
    }
}

/// Columns without tiles contribute nothing.
proof fn lemma_blank_tiles(m: nat, n: int)
    ensures
        column_tiles(Seq::new(m, |i: int| blanks(n))).flatten() == Seq::<Option<usize>>::empty(),
    decreases m,
{
    if m > 0 {
        let s = Seq::new(m, |i: int| blanks(n));
        let d = Seq::new((m - 1) as nat, |i: int| blanks(n));
        lemma_blank_tiles((m - 1) as nat, n);
        assert(s == d.push(blanks(n)));
        assert(column_tiles(s) == column_tiles(d).push(present(blanks(n))));
        lemma_flatten_push(column_tiles(d), present(blanks(n)));
        lemma_filter_none(blanks(n), tile_pred());
        assert(Seq::<Option<usize>>::empty() + Seq::<Option<usize>>::empty() == Seq::<
            Option<usize>,
        >::empty());
    }
}

/// Compaction keeps the tiles of the grid, in the same order column by column.
proof fn lemma_compact_tiles(g: Seq<Seq<Option<usize>>>)
    ensures
        column_tiles(compact(g)).flatten() == column_tiles(g).flatten(),
{
    let n = g.len() as int;
    let k = occupied(g);
    let e = Seq::new((g.len() - k.len()) as nat, |i: int| blanks(n));
    assert(column_tiles(compact(g)) == column_tiles(e) + column_tiles(k));
    vstd::seq_lib::lemma_flatten_concat(column_tiles(e), column_tiles(k));
    lemma_blank_tiles((g.len() - k.len()) as nat, n);
    lemma_occupied_tiles(g);
    assert(Seq::<Option<usize>>::empty() + column_tiles(k).flatten() == column_tiles(k).flatten());
}

/// Gravity keeps the tiles of every column, in order.
proof fn lemma_gravity_tiles(g: Seq<Seq<Option<usize>>>)
    ensures
        column_tiles(gravity(g)) == column_tiles(g),
{
    assert forall|x: int| 0 <= x < g.len() implies #[trigger] column_tiles(gravity(g))[x]
        == column_tiles(g)[x] by {
        lemma_present_settle(g[x]);
    }
    assert(column_tiles(gravity(g)) =~= column_tiles(g));
}

/// A collapse only moves tiles: the multiset of their colors stays the same.
pub proof fn lemma_collapse_keeps_colors(g: Seq<Seq<Option<usize>>>)
    ensures
        tile_colors(collapse(g)) == tile_colors(g),
{
    lemma_gravity_tiles(g);
    lemma_compact_tiles(gravity(g));
    assert(color_seq(collapse(g)) == color_seq(g));
}

/// Vertical gravity only moves tiles: the multiset of their colors stays the same.
pub proof fn lemma_gravity_keeps_colors(g: Seq<Seq<Option<usize>>>)
    ensures
        tile_colors(gravity(g)) == tile_colors(g),
{
    lemma_gravity_tiles(g);
}

/// Horizontal compaction only moves tiles: the multiset of their colors stays the same.
pub proof fn lemma_compact_keeps_colors(g: Seq<Seq<Option<usize>>>)
    ensures
        tile_colors(compact(g)) == tile_colors(g),
{
    lemma_compact_tiles(g);
    assert(color_seq(compact(g)) == color_seq(g));
}

/// A collapse of an empty square grid leaves it empty.
pub proof fn lemma_collapse_empty(g: Seq<Seq<Option<usize>>>)
    requires
        grid_wf(g, g.len() as int),
        cleared(g),
    ensures
        cleared(collapse(g)),
{
    let n = g.len() as int;
    let h = gravity(g);
    lemma_filter_none(blanks(n), tile_pred());
    assert forall|x: int| 0 <= x < n implies #[trigger] h[x] == blanks(n) by {
        assert forall|y: int| 0 <= y < n implies !tile_pred()(#[trigger] g[x][y]) by {
            assert(g[x][y] is None);
        }
        lemma_filter_none(g[x], tile_pred());
        assert(h[x] =~= blanks(n));
    }
    assert forall|x: int| 0 <= x < n implies !occupied_pred()(#[trigger] h[x]) by {}
    lemma_filter_none(h, occupied_pred());
    assert(collapse(g) =~= Seq::new(n as nat, |i: int| blanks(n)));
}

impl Game {
    /// Lets the tiles of column `x` fall onto the bottom, keeping their order.
    fn settle_column(&mut self, x: usize)
        requires
            old(self).wf(),
            x < old(self).size,
        ensures
            final(self).wf(),
            final(self).size == old(self).size,
            final(self).min_connected == old(self).min_connected,
            final(self).grid() == old(self).grid().update(x as int, settle(old(self).grid()[x as int])),
    {
        let ghost g0 = self.grid();
        let ghost c0 = g0[x as int];
        let n = self.size;
        let mut count: usize = 0;
        let mut i: usize = n;
        proof {
            assert(c0.subrange(n as int, n as int) == Seq::<Option<usize>>::empty());
            lemma_filter_none(Seq::<Option<usize>>::empty(), tile_pred());
            assert(self.grid() =~= g0.update(x as int, c0));
            assert(c0 =~= c0.subrange(0, n as int) + blanks(0) + present(c0.subrange(n as int, n as int)));
        }
        while i > 0
            invariant
                self.wf(),
                self.size == n,
                self.min_connected == old(self).min_connected,
                x < n,
                g0 == old(self).grid(),
                g0.len() == n,
                c0 == g0[x as int],
                c0.len() == n,
                i <= n,
                count + present(c0.subrange(i as int, n as int)).len() == n - i,
                self.grid() == g0.update(x as int, self.grid()[x as int]),
                self.grid()[x as int] == c0.subrange(0, i as int) + blanks(count as int) + present(
                    c0.subrange(i as int, n as int),
                ),
            decreases i,
        {
            let y = i - 1;
            let ghost cur = self.grid()[x as int];
            let ghost p = present(c0.subrange(i as int, n as int));
            proof {
                assert(c0.subrange(y as int, n as int) == seq![c0[y as int]] + c0.subrange(i as int, n as int));
                c0.subrange(i as int, n as int).lemma_filter_prepend(c0[y as int], tile_pred());
                assert(cur[y as int] == c0[y as int]);
            }
            let t = self.tile(x, y);
            if !t.enabled {
                count = count + 1;
                proof {
                    assert(self.grid()[x as int] =~= c0.subrange(0, y as int) + blanks(count as int) + present(
                        c0.subrange(y as int, n as int),
                    ));
                }
            } else if count > 0 {
                self.set_tile(x, y, Tile { color: t.color, enabled: false });
                self.set_tile(x, y + count, Tile { color: t.color, enabled: true });
                proof {
                    assert(self.grid()[x as int] =~= c0.subrange(0, y as int) + blanks(count as int) + present(
                        c0.subrange(y as int, n as int),
                    ));
                    assert(self.grid() =~= g0.update(x as int, self.grid()[x as int]));
                }
            } else {
                proof {
                    assert(self.grid()[x as int] =~= c0.subrange(0, y as int) + blanks(count as int) + present(
                        c0.subrange(y as int, n as int),
                    ));
                }
            }
            i = y;
        }
        proof {
            assert(c0.subrange(0, n as int) == c0);
            assert(c0.subrange(0, 0) + blanks(count as int) + present(c0) =~= settle(c0));
        }
    }

    /// Vertical gravity: in every column the tiles fall to fill the gaps below them.
    pub fn move_down(&mut self)
        requires
            old(self).wf(),
        ensures
            final(self).wf(),
            final(self).size == old(self).size,
            final(self).min_connected == old(self).min_connected,
            final(self).grid() == gravity(old(self).grid()),
            tile_colors(final(self).grid()) == tile_colors(old(self).grid()),
    {
        let ghost g0 = self.grid();
        let n = self.size;
        let mut x: usize = 0;
        while x < n
            invariant
                self.wf(),
                self.size == n,
                self.min_connected == old(self).min_connected,
                g0 == old(self).grid(),
                g0.len() == n,
                x <= n,
                self.grid().len() == n,
                forall|i: int| 0 <= i < x ==> #[trigger] self.grid()[i] == settle(g0[i]),
                forall|i: int| x <= i < n ==> #[trigger] self.grid()[i] == g0[i],
            decreases n - x,
        {
            self.settle_column(x);
            x = x + 1;
        }
        proof {
            assert(self.grid() =~= gravity(g0));
            lemma_gravity_keeps_colors(g0);
        }
    }
}

impl Game {
    /// True iff column `x` holds no tile.
    fn column_is_empty(&self, x: usize) -> (r: bool)
        requires
            self.wf(),
            x < self.size,
        ensures
            r == (present(self.grid()[x as int]).len() == 0),
    {
        let ghost c = self.grid()[x as int];
        let mut y: usize = 0;
        while y < self.size
            invariant
                self.wf(),
                x < self.size,
                c == self.grid()[x as int],
                c.len() == self.size,
                y <= self.size,
                forall|j: int| 0 <= j < y ==> #[trigger] c[j] is None,
            decreases self.size - y,
        {
            if self.tile(x, y).enabled {
                proof {
                    broadcast use vstd::seq_lib::group_filter_ensures;

                    assert(tile_pred()(c[y as int]));
                    assert(present(c).contains(c[y as int]));
                }
                return false;
            }
            y = y + 1;
        }
        proof {
            lemma_filter_none(c, tile_pred());
        }
        true
    }

    /// Moves every tile of column `xx - 1` into the empty column `xx`.
    fn shift_column(&mut self, xx: usize)
        requires
            old(self).wf(),
            1 <= xx < old(self).size,
            forall|y: int| 0 <= y < old(self).size ==> #[trigger] old(self).grid()[xx as int][y] is None,
        ensures
            final(self).wf(),
            final(self).size == old(self).size,
            final(self).min_connected == old(self).min_connected,
            final(self).grid() == old(self).grid().update(xx as int, old(self).grid()[xx - 1]).update(
                xx - 1,
                blanks(old(self).size as int),
            ),
    {
        let ghost g0 = self.grid();
        let n = self.size;
        let mut y: usize = 0;
        while y < n
            invariant
                self.wf(),
                self.size == n,
                self.min_connected == old(self).min_connected,
                1 <= xx < n,
                g0 == old(self).grid(),
                grid_wf(g0, n as int),
                grid_wf(self.grid(), n as int),
                y <= n,
                forall|i: int| 0 <= i < n && i != xx && i != xx - 1 ==> #[trigger] self.grid()[i] == g0[i],
                forall|j: int| 0 <= j < y ==> #[trigger] self.grid()[xx as int][j] == g0[xx - 1][j],
                forall|j: int| y <= j < n ==> #[trigger] self.grid()[xx as int][j] is None,
                forall|j: int| 0 <= j < y ==> #[trigger] self.grid()[xx - 1][j] is None,
                forall|j: int| y <= j < n ==> #[trigger] self.grid()[xx - 1][j] == g0[xx - 1][j],
            decreases n - y,
        {
            let t = self.tile(xx - 1, y);
            if t.enabled {
                self.set_tile(xx - 1, y, Tile { color: t.color, enabled: false });
                self.set_tile(xx, y, Tile { color: t.color, enabled: true });
            }
            y = y + 1;
        }
        proof {
            let g1 = g0.update(xx as int, g0[xx - 1]).update(xx - 1, blanks(n as int));
            assert(self.grid()[xx as int] =~= g1[xx as int]);
            assert(self.grid()[xx - 1] =~= g1[xx - 1]);
            assert(self.grid() =~= g1);
        }
    }

    /// Horizontal compaction: scanning columns left to right, each empty
    /// column is filled by shifting every column on its left one step right.
    pub fn move_right(&mut self)
        requires
            old(self).wf(),
        ensures
            final(self).wf(),
            final(self).size == old(self).size,
            final(self).min_connected == old(self).min_connected,
            final(self).grid() == compact(old(self).grid()),
            tile_colors(final(self).grid()) == tile_colors(old(self).grid()),
    {
        let ghost g0 = self.grid();
        let n = self.size;
        let mut x: usize = 0;
        proof {
            lemma_filter_none(Seq::<Seq<Option<usize>>>::empty(), occupied_pred());
            assert(compact_cols(g0.subrange(0, 0), n as int) + g0.subrange(0, n as int) =~= g0);
        }
        while x < n
            invariant
                self.wf(),
                self.size == n,
                self.min_connected == old(self).min_connected,
                g0 == old(self).grid(),
                grid_wf(g0, n as int),
                x <= n,
                self.grid() == compact_cols(g0.subrange(0, x as int), n as int) + g0.subrange(
                    x as int,
                    n as int,
                ),
            decreases n - x,
        {
            let ghost cur = self.grid();
            let ghost pre = g0.subrange(0, x as int);
            let ghost k = occupied(pre);
            proof {
                broadcast use vstd::seq_lib::group_filter_ensures;

                assert(g0.subrange(0, x + 1) == pre.push(g0[x as int]));
                pre.lemma_filter_push(g0[x as int], occupied_pred());
                assert(cur[x as int] == g0[x as int]);
            }
            if self.column_is_empty(x) {
                proof {
                    lemma_no_present(cur[x as int]);
                }
                let mut xx: usize = x;
                while xx > 0
                    invariant
                        self.wf(),
                        self.size == n,
                        self.min_connected == old(self).min_connected,
                        x < n,
                        grid_wf(cur, n as int),
                        xx <= x,
                        forall|y: int| 0 <= y < n ==> #[trigger] self.grid()[xx as int][y] is None,
                        self.grid() == cur.subrange(0, xx as int) + seq![self.grid()[xx as int]]
                            + cur.subrange(xx as int, x as int) + cur.subrange(x + 1, n as int),
                    decreases xx,
                {
                    let ghost before = self.grid();
                    self.shift_column(xx);
                    proof {
                        assert(self.grid() =~= cur.subrange(0, xx - 1) + seq![self.grid()[xx - 1]]
                            + cur.subrange(xx - 1, x as int) + cur.subrange(x + 1, n as int));
                    }
                    xx = xx - 1;
                }
                proof {
                    let e = (pre.len() - k.len()) as nat;
                    assert(self.grid()[0] =~= blanks(n as int));
                    assert(cur.subrange(0, x as int) =~= compact_cols(pre, n as int));
                    assert(self.grid() =~= compact_cols(g0.subrange(0, x + 1), n as int)
                        + g0.subrange(x + 1, n as int));
                }
            } else {
                proof {
                    assert(self.grid() =~= compact_cols(g0.subrange(0, x + 1), n as int)
                        + g0.subrange(x + 1, n as int));
                }
            }
            x = x + 1;
        }
        proof {
            assert(g0.subrange(0, n as int) == g0);
            assert(self.grid() =~= compact(g0));
            lemma_compact_keeps_colors(g0);
        }
    }

    /// The transform that follows every successful click: gravity, then compaction.
    pub fn collapse(&mut self)
        requires
            old(self).wf(),
        ensures
            final(self).wf(),
            final(self).size == old(self).size,
            final(self).min_connected == old(self).min_connected,
            final(self).grid() == collapse(old(self).grid()),
            tile_colors(final(self).grid()) == tile_colors(old(self).grid()),
    {
        self.move_down();
        self.move_right();
    }
}

} // verus!
