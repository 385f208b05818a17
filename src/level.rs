use vstd::prelude::*;
use crate::board::{cleared, grid_wf, Game, Tile, MAX_SIZE};
use crate::collapse::{collapse, lemma_collapse_empty};
use crate::group::{click_ok, click_result, lemma_uniform_group, remove_group, uniform};

verus! {

/// fastrand's generator, carried through opaquely to the draws below.
#[verifier::external_type_specification]
#[verifier::external_body]
pub struct ExRng(fastrand::Rng);

/// Relies on fastrand::Rng::usize: a number drawn from `0..n`, which panics
/// only on an empty range.
#[verifier::external_body]
fn random_below(rng: &fastrand::Rng, n: usize) -> (r: usize)
    requires
        n > 0,
    ensures
        r < n,
{
    rng.usize(0..n)
}

/// One move of play: a click at `c`, followed by a collapse when it removed something.
pub open spec fn play(g: Seq<Seq<Option<usize>>>, c: (usize, usize), min: int) -> Seq<
    Seq<Option<usize>>,
> {
    let s = (c.0 as int, c.1 as int);
    if click_ok(g, s, min) {
        collapse(click_result(g, s, min))
    } else {
        g
    }
}

/// The grid reached by playing `clicks` in order from `g`.
pub open spec fn replay(g: Seq<Seq<Option<usize>>>, clicks: Seq<(usize, usize)>, min: int) -> Seq<
    Seq<Option<usize>>,
>
    decreases clicks.len(),
{
    if clicks.len() == 0 {
        g
    } else {
        play(replay(g, clicks.drop_last(), min), clicks.last(), min)
    }
}

/// No click anywhere on the grid removes anything.
pub open spec fn stuck(g: Seq<Seq<Option<usize>>>, min: int) -> bool {
    forall|x: int, y: int|
        0 <= x < g.len() && 0 <= y < g.len() ==> !#[trigger] click_ok(g, (x, y), min)
}

/// Every click of `clicks` removes a group when the clicks are played in order from `g`.
pub open spec fn clicks_remove(g: Seq<Seq<Option<usize>>>, clicks: Seq<(usize, usize)>, min: int) -> bool {
    forall|i: int|
        0 <= i < clicks.len() ==> click_ok(
            replay(g, clicks.take(i), min),
            ((#[trigger] clicks[i]).0 as int, clicks[i].1 as int),
            min,
        )
}

/// Whatever cell is clicked first, that click removes a group and the board is cleared.
pub open spec fn one_click_clears(g: Seq<Seq<Option<usize>>>, min: int) -> bool {
    forall|x: int, y: int|
        0 <= x < g.len() && 0 <= y < g.len() ==> #[trigger] click_ok(g, (x, y), min) && cleared(
            play(g, (x as usize, y as usize), min),
        )
}

/// A full board of a single color is cleared by any first click.
pub proof fn lemma_one_color_clears(g: Seq<Seq<Option<usize>>>, c: usize, min: int)
    requires
        uniform(g, c),
        g.len() <= MAX_SIZE,
        1 <= min <= g.len() * g.len(),
    ensures
        one_click_clears(g, min),
{
    assert forall|x: int, y: int| 0 <= x < g.len() && 0 <= y < g.len() implies #[trigger] click_ok(
        g,
        (x, y),
        min,
    ) && cleared(play(g, (x as usize, y as usize), min)) by {
        let s = (x, y);
        lemma_uniform_group(g, c, s);
        let h = remove_group(g, s);
        assert(grid_wf(h, h.len() as int));
        assert(cleared(h));
        lemma_collapse_empty(h);
        assert(click_ok(g, s, min));
        assert(play(g, (x as usize, y as usize), min) == collapse(h));
    }
}

/// Color `c` appears on the grid.
pub open spec fn has_color_spec(g: Seq<Seq<Option<usize>>>, c: usize) -> bool {
    exists|x: int, y: int| 0 <= x < g.len() && 0 <= y < g[x].len() && #[trigger] g[x][y] == Some(c)
}

/// Every color of `0..k` appears on the grid.
pub open spec fn covers(g: Seq<Seq<Option<usize>>>, k: usize) -> bool {
    forall|c: usize| c < k ==> #[trigger] has_color_spec(g, c)
}

/// A full board of tiles whose colors lie in `0..k`.
pub open spec fn full_board(g: Seq<Seq<Option<usize>>>, k: usize) -> bool {
    forall|x: int, y: int|
        0 <= x < g.len() && 0 <= y < g[x].len() ==> (#[trigger] g[x][y] matches Some(c) && c < k)
}

/// Board side, palette size and removal threshold of a game variant.
#[derive(Clone, Copy, Debug, PartialEq, Eq, Structural)]
pub struct Rules {
    pub size: usize,
    pub color_count: usize,
    pub min_connected: usize,
}

impl Rules {
    pub open spec fn wf(&self) -> bool {
        &&& 2 <= self.size <= MAX_SIZE
        &&& 1 <= self.color_count
        &&& 1 <= self.min_connected <= self.size * self.size
    }

    /// The 8 by 8 board with 8 colors where pairs can be removed.
    pub fn classic() -> (r: Rules)
        ensures
            r.wf(),
            r.size == 8,
            r.color_count == 8,
            r.min_connected == 2,
    {
        Rules { size: 8, color_count: 8, min_connected: 2 }
    }

    /// The 6 by 6 board with 6 colors where pairs can be removed.
    pub fn small() -> (r: Rules)
        ensures
            r.wf(),
            r.size == 6,
            r.color_count == 6,
            r.min_connected == 2,
    {
        Rules { size: 6, color_count: 6, min_connected: 2 }
    }
}

/// A starting board together with a click sequence that clears it.
#[derive(Debug)]
pub struct Level {
    pub board: Game,
    pub clicks: Vec<(usize, usize)>,
}

impl Level {
    /// The board is well formed and every click lies on it.
    pub open spec fn wf(&self) -> bool {
        &&& self.board.wf()
        &&& forall|i: int|
            0 <= i < self.clicks@.len() ==> (#[trigger] self.clicks@[i]).0 < self.board.size
                && self.clicks@[i].1 < self.board.size
    }

    /// A level as the generator hands it out under `rules`: a full board in
    /// the rules' palette using every color, whose clicks clear it.
    pub open spec fn valid(&self, rules: Rules) -> bool {
        &&& self.wf()
        &&& self.board.size == rules.size
        &&& self.board.min_connected == rules.min_connected
        &&& full_board(self.board.grid(), rules.color_count)
        &&& covers(self.board.grid(), rules.color_count)
        &&& cleared(replay(self.board.grid(), self.clicks@, rules.min_connected as int))
        &&& clicks_remove(self.board.grid(), self.clicks@, rules.min_connected as int)
        &&& self.clicks@.len() <= (rules.size * rules.size) as int / rules.min_connected as int
    }

    /// Plays the clicks on a copy of the starting board.
    pub fn replay(&self) -> (r: Game)
        requires
            self.wf(),
        ensures
            r.wf(),
            r.size == self.board.size,
            r.grid() == replay(self.board.grid(), self.clicks@, self.board.min_connected as int),
    {
        let mut game = self.board.snapshot();
        let mut i: usize = 0;
        while i < self.clicks.len()
            invariant
                self.wf(),
                game.wf(),
                game.size == self.board.size,
                game.min_connected == self.board.min_connected,
                i <= self.clicks@.len(),
                game.grid() == replay(
                    self.board.grid(),
                    self.clicks@.subrange(0, i as int),
                    self.board.min_connected as int,
                ),
            decreases self.clicks@.len() - i,
        {
            let (x, y) = self.clicks[i];
            proof {
                assert(self.clicks@.subrange(0, i + 1).drop_last() == self.clicks@.subrange(0, i as int));
            }
            game.try_move(x, y);
            i = i + 1;
        }
        proof {
            assert(self.clicks@.subrange(0, i as int) == self.clicks@);
        }
        game
    }
}

impl Game {
    /// An independent copy of the board.
    pub fn snapshot(&self) -> (r: Game)
        requires
            self.wf(),
        ensures
            r.wf(),
            r.size == self.size,
            r.min_connected == self.min_connected,
            r.grid() == self.grid(),
    {
        let n = self.size;
        let mut cols: Vec<Vec<Tile>> = Vec::new();
        let mut x: usize = 0;
        while x < n
            invariant
                self.wf(),
                n == self.size,
                x <= n,
                cols@.len() == x,
                forall|i: int| 0 <= i < x ==> (#[trigger] cols@[i])@ == self.cols@[i]@,
            decreases n - x,
        {
            let mut col: Vec<Tile> = Vec::new();
            let mut y: usize = 0;
            while y < n
                invariant
                    self.wf(),
                    n == self.size,
                    x < n,
                    y <= n,
                    col@ == self.cols@[x as int]@.subrange(0, y as int),
                decreases n - y,
            {
                col.push(self.tile(x, y));
                proof {
                    assert(col@ =~= self.cols@[x as int]@.subrange(0, y + 1));
                }
                y = y + 1;
            }
            proof {
                assert(col@ =~= self.cols@[x as int]@);
            }
            cols.push(col);
            x = x + 1;
        }
        let r = Game { size: n, min_connected: self.min_connected, cols };
        proof {
            assert forall|i: int| 0 <= i < n implies #[trigger] r.grid()[i] == self.grid()[i] by {
                assert(r.cols@[i]@ == self.cols@[i]@);
            }
            assert(r.grid() =~= self.grid());
        }
        r
    }

    /// One move of play: clicks `(x, y)` and, when that removed a group,
    /// collapses the board. Reports whether the click removed anything.
    pub fn try_move(&mut self, x: usize, y: usize) -> (r: bool)
        requires
            old(self).wf(),
            x < old(self).size,
            y < old(self).size,
        ensures
            final(self).wf(),
            final(self).size == old(self).size,
            final(self).min_connected == old(self).min_connected,
            r == click_ok(old(self).grid(), (x as int, y as int), old(self).min_connected as int),
            final(self).grid() == play(old(self).grid(), (x, y), old(self).min_connected as int),
    {
        let removed = self.click(x, y);
        if removed {
            self.collapse();
        }
        removed
    }

    /// True iff a tile of color `c` is on the board.
    pub fn has_color(&self, c: usize) -> (r: bool)
        requires
            self.wf(),
        ensures
            r == has_color_spec(self.grid(), c),
    {
        let n = self.size;
        let mut x: usize = 0;
        while x < n
            invariant
                self.wf(),
                n == self.size,
                x <= n,
                forall|i: int, j: int| 0 <= i < x && 0 <= j < n ==> #[trigger] self.grid()[i][j] != Some(c),
            decreases n - x,
        {
            let mut y: usize = 0;
            while y < n
                invariant
                    self.wf(),
                    n == self.size,
                    x < n,
                    y <= n,
                    forall|i: int, j: int| 0 <= i < x && 0 <= j < n ==> #[trigger] self.grid()[i][j] != Some(c),
                    forall|j: int| 0 <= j < y ==> #[trigger] self.grid()[x as int][j] != Some(c),
                decreases n - y,
            {
                let t = self.tile(x, y);
                if t.enabled && t.color == c {
                    proof {
                        assert(self.grid()[x as int][y as int] == Some(c));
                    }
                    return true;
                }
                y = y + 1;
            }
            x = x + 1;
        }
        false
    }

    /// True iff every color of `0..color_count` is on the board.
    pub fn covers_colors(&self, color_count: usize) -> (r: bool)
        requires
            self.wf(),
        ensures
            r == covers(self.grid(), color_count),
    {
        let mut c: usize = 0;
        while c < color_count
            invariant
                self.wf(),
                c <= color_count,
                forall|d: usize| d < c ==> #[trigger] has_color_spec(self.grid(), d),
            decreases color_count - c,
        {
            if !self.has_color(c) {
                return false;
            }
            c = c + 1;
        }
        true
    }
}

/// Colors for a full board under `rules`, row by row, each drawn from `rng`.
pub fn random_colors(rng: &fastrand::Rng, rules: Rules) -> (r: Vec<Vec<usize>>)
    requires
        rules.wf(),
    ensures
        r@.len() == rules.size,
        forall|y: int| 0 <= y < rules.size ==> (#[trigger] r@[y])@.len() == rules.size,
        forall|y: int, x: int|
            0 <= y < rules.size && 0 <= x < rules.size ==> #[trigger] r@[y]@[x] < rules.color_count,
{
    let n = rules.size;
    let mut rows: Vec<Vec<usize>> = Vec::new();
    let mut y: usize = 0;
    while y < n
        invariant
            rules.wf(),
            n == rules.size,
            y <= n,
            rows@.len() == y,
            forall|i: int| 0 <= i < y ==> (#[trigger] rows@[i])@.len() == n,
            forall|i: int, j: int| 0 <= i < y && 0 <= j < n ==> #[trigger] rows@[i]@[j] < rules.color_count,
        decreases n - y,
    {
        let mut row: Vec<usize> = Vec::new();
        let mut x: usize = 0;
        while x < n
            invariant
                rules.wf(),
                x <= n,
                row@.len() == x,
                forall|j: int| 0 <= j < x ==> #[trigger] row@[j] < rules.color_count,
            decreases n - x,
        {
            row.push(random_below(rng, rules.color_count));
            x = x + 1;
        }
        rows.push(row);
        y = y + 1;
    }
    rows
}

/// A full board for `rules` whose colors are drawn from `rng`.
pub fn random_board(rng: &fastrand::Rng, rules: Rules) -> (r: Game)
    requires
        rules.wf(),
    ensures
        r.wf(),
        r.size == rules.size,
        r.min_connected == rules.min_connected,
        full_board(r.grid(), rules.color_count),
{
    let rows = random_colors(rng, rules);
    Game::from_rows(&rows, rules.min_connected)
}

impl Game {
    /// The randomized clearing search: clicks cells drawn from `rng` until the
    /// board is cleared, the number of successful clicks reaches
    /// `size * size / min_connected`, or `size * size` clicks in a row
    /// removed nothing. Returns the successful clicks when the board was
    /// cleared.
    pub fn search(&mut self, rng: &fastrand::Rng) -> (r: Option<Vec<(usize, usize)>>)
        requires
            old(self).wf(),
        ensures
            final(self).wf(),
            final(self).size == old(self).size,
            final(self).min_connected == old(self).min_connected,
            r matches Some(clicks) ==> {
                &&& forall|i: int|
                    0 <= i < clicks@.len() ==> (#[trigger] clicks@[i]).0 < old(self).size
                        && clicks@[i].1 < old(self).size
                &&& final(self).grid() == replay(old(self).grid(), clicks@, old(self).min_connected as int)
                &&& cleared(final(self).grid())
                &&& clicks_remove(old(self).grid(), clicks@, old(self).min_connected as int)
                &&& clicks@.len() <= (old(self).size * old(self).size) as int / old(self).min_connected as int
            },
            one_click_clears(old(self).grid(), old(self).min_connected as int) ==> r is Some,
            stuck(old(self).grid(), old(self).min_connected as int) ==> r is None && final(self).grid()
                == old(self).grid(),
    {
        let ghost g0 = self.grid();
        let ghost min = self.min_connected as int;
        let n = self.size;
        proof {
            assert(n * n <= MAX_SIZE * MAX_SIZE) by (nonlinear_arith)
                requires n <= MAX_SIZE, n >= 0;
        }
        let cells = n * n;
        let max_clicks = cells / self.min_connected;
        proof {
            let m = self.min_connected as int;
            assert(cells as int / m >= 1) by (nonlinear_arith)
                requires 1 <= m <= cells as int;
        }
        let mut clicks: Vec<(usize, usize)> = Vec::new();
        let mut tries: usize = 0;
        while clicks.len() < max_clicks && tries < cells
            invariant
                self.wf(),
                n == self.size,
                n == old(self).size,
                self.min_connected == old(self).min_connected,
                min == self.min_connected as int,
                g0 == old(self).grid(),
                cells == n * n,
                max_clicks == cells / self.min_connected,
                max_clicks >= 1,
                max_clicks <= cells,
                tries <= cells,
                clicks_remove(g0, clicks@, min),
                one_click_clears(g0, min) ==> clicks@.len() == 0 && tries == 0 && self.grid() == g0,
                clicks@.len() <= max_clicks,
                forall|i: int|
                    0 <= i < clicks@.len() ==> (#[trigger] clicks@[i]).0 < n && clicks@[i].1 < n,
                self.grid() == replay(g0, clicks@, min),
                stuck(g0, min) ==> clicks@.len() == 0 && self.grid() == g0,
            decreases max_clicks - clicks@.len(), cells - tries,
        {
            let x = random_below(rng, n);
            let y = random_below(rng, n);
            let ghost before = clicks@;
            let ghost gb = self.grid();
            proof {
                if one_click_clears(g0, min) {
                    assert(click_ok(g0, (x as int, y as int), min));
                    assert(cleared(play(g0, (x, y), min)));
                }
            }
            if !self.try_move(x, y) {
                tries = tries + 1;
            } else {
                tries = 0;
                clicks.push((x, y));
                proof {
                    assert(clicks@.drop_last() == before);
                    assert(clicks@.take(before.len() as int) == before);
                    assert forall|i: int| 0 <= i < clicks@.len() implies click_ok(
                        replay(g0, clicks@.take(i), min),
                        ((#[trigger] clicks@[i]).0 as int, clicks@[i].1 as int),
                        min,
                    ) by {
                        if i < before.len() {
                            assert(clicks@.take(i) == before.take(i));
                            assert(clicks@[i] == before[i]);
                        }
                    }
                    if stuck(g0, min) {
                        assert(!click_ok(g0, (x as int, y as int), min));
                    }
                }
                if self.is_cleared() {
                    return Some(clicks);
                }
            }
        }
        None
    }
}

/// One candidate level: a random board for `rules`, kept only when it uses
/// every color and the search clears it.
pub fn generate_level(rng: &fastrand::Rng, rules: Rules) -> (r: Option<Level>)
    requires
        rules.wf(),
    ensures
        r matches Some(level) ==> level.valid(rules),
        rules.color_count == 1 ==> r is Some,
{
    let mut game = random_board(rng, rules);
    proof {
        if rules.color_count == 1 {
            let g = game.grid();
            assert forall|x: int, y: int| 0 <= x < g.len() && 0 <= y < g.len() implies #[trigger] g[x][y]
                == Some(0usize) by {
                assert(g[x][y] matches Some(c) && c < 1);
            }
            assert(uniform(g, 0));
            assert(g[0][0] == Some(0usize));
            assert(has_color_spec(g, 0));
            assert(covers(g, 1));
            lemma_one_color_clears(g, 0, rules.min_connected as int);
        }
    }
    if !game.covers_colors(rules.color_count) {
        return None;
    }
    let board = game.snapshot();
    match game.search(rng) {
        Some(clicks) => Some(Level { board, clicks }),
        None => None,
    }
}

/// Collects up to `count` levels for `rules`, trying at most `max_candidates`
/// random boards.
pub fn generate_levels(rng: &fastrand::Rng, rules: Rules, count: usize, max_candidates: usize) -> (r:
    Vec<Level>)
    requires
        rules.wf(),
    ensures
        r@.len() <= count,
        forall|i: int| 0 <= i < r@.len() ==> (#[trigger] r@[i]).valid(rules),
        rules.color_count == 1 ==> r@.len() == if count <= max_candidates {
            count
        } else {
            max_candidates
        },
{
    let mut levels: Vec<Level> = Vec::new();
    let mut tried: usize = 0;
    while levels.len() < count && tried < max_candidates
        invariant
            rules.wf(),
            levels@.len() <= count,
            tried <= max_candidates,
            forall|i: int| 0 <= i < levels@.len() ==> (#[trigger] levels@[i]).valid(rules),
            rules.color_count == 1 ==> levels@.len() == tried,
        decreases max_candidates - tried,
    {
        match generate_level(rng, rules) {
            Some(level) => {
                levels.push(level);
            },
            None => {},
        }
        tried = tried + 1;
    }
    levels
}

} // verus!
