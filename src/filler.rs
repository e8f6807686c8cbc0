//! Labels islands: each call marks the whole 4-connected piece of earth
//! around one cell with the next label.
use vstd::prelude::*;

use crate::cell::{next_label, increment_char, Cell};
use crate::cursor::{step, Cursor, Direction};
use crate::grid::{in_bounds, Grid};

verus! {

/// Whether `(x, y)` is a cell of `g` holding unlabelled earth.
pub open spec fn earth_at(g: Seq<Seq<Cell>>, x: int, y: int) -> bool {
    in_bounds(g, x, y) && g[y][x] is Earth
}

/// Whether two coordinates share an edge.
pub open spec fn adjacent(a: (int, int), b: (int, int)) -> bool {
    (a.0 == b.0 && (a.1 == b.1 + 1 || a.1 + 1 == b.1)) || (a.1 == b.1 && (a.0 == b.0 + 1 || a.0 + 1
        == b.0))
}

/// A non-empty walk over earth cells of `g`, each step to a cell sharing an edge.
pub open spec fn is_earth_path(g: Seq<Seq<Cell>>, path: Seq<(int, int)>) -> bool {
    &&& path.len() > 0
    &&& forall|i: int| 0 <= i < path.len() ==> earth_at(g, #[trigger] path[i].0, path[i].1)
    &&& forall|i: int| 0 <= i < path.len() - 1 ==> adjacent(#[trigger] path[i], path[i + 1])
}

/// Whether `b` can be reached from `a` over earth cells of `g`, moving across edges only.
pub open spec fn connected(g: Seq<Seq<Cell>>, a: (int, int), b: (int, int)) -> bool {
    exists|path: Seq<(int, int)>| is_earth_path(g, path) && path[0] == a && path.last() == b
}

/// `g` with every cell connected to `start` labelled `c`; the rest as it was.
pub open spec fn flood(g: Seq<Seq<Cell>>, start: (int, int), c: char) -> Seq<Seq<Cell>> {
    Seq::new(
        g.len(),
        |y: int|
            Seq::new(
                g[y].len(),
                |x: int|
                    if connected(g, start, (x, y)) {
                        Cell::MarkedEarth(c)
                    } else {
                        g[y][x]
                    },
            ),
    )
}

/// Number of unlabelled earth cells in a row.
pub open spec fn row_earth(r: Seq<Cell>) -> nat
    decreases r.len(),
{
    if r.len() == 0 {
        0
    } else {
        row_earth(r.drop_last()) + if r.last() is Earth {
            1nat
        } else {
            0nat
        }
    }
}

/// Number of unlabelled earth cells in a grid.
pub open spec fn earth_count(g: Seq<Seq<Cell>>) -> nat
    decreases g.len(),
{
    if g.len() == 0 {
        0
    } else {
        earth_count(g.drop_last()) + row_earth(g.last())
    }
}

/// The grid after scanning `positions` in order with `next` as the first label:
/// each unlabelled earth cell met while labels remain is flooded with the next one.
pub open spec fn label_scan(
    g: Seq<Seq<Cell>>,
    positions: Seq<(int, int)>,
    next: Option<char>,
) -> Seq<Seq<Cell>>
    decreases positions.len(),
{
    if positions.len() == 0 {
        g
    } else {
        let p = positions[0];
        match next {
            Some(c) => if earth_at(g, p.0, p.1) {
                label_scan(flood(g, p, c), positions.drop_first(), next_label(c))
            } else {
                label_scan(g, positions.drop_first(), next)
            },
            None => g,
        }
    }
}

/// A fill labels only cells joined to its start across edges: any other cell keeps
/// what it held.
pub proof fn lemma_fill_keeps_unjoined(g: Seq<Seq<Cell>>, a: (int, int), b: (int, int), c: char)
    requires
        in_bounds(g, b.0, b.1),
        !connected(g, a, b),
    ensures
        flood(g, a, c)[b.1][b.0] == g[b.1][b.0],
{
}

/// A fill changes only unlabelled earth: sea and labelled cells, including those
/// of an earlier fill, keep what they held, so two fills never merge.
pub proof fn lemma_fill_keeps_non_earth(g: Seq<Seq<Cell>>, a: (int, int), c: char, x: int, y: int)
    requires
        in_bounds(g, x, y),
        !(g[y][x] is Earth),
    ensures
        flood(g, a, c)[y][x] == g[y][x],
{
    if connected(g, a, (x, y)) {
        let path = choose|path: Seq<(int, int)>|
            is_earth_path(g, path) && path[0] == a && path.last() == (x, y);
        assert(earth_at(g, path[path.len() - 1].0, path[path.len() - 1].1));
    }
}

/// A path that can only step between two corner-touching cells never leaves its start.
proof fn lemma_path_stays_at_start(
    g: Seq<Seq<Cell>>,
    a: (int, int),
    b: (int, int),
    path: Seq<(int, int)>,
)
    requires
        is_earth_path(g, path),
        path[0] == a,
        !adjacent(a, b),
        !adjacent(a, a),
        forall|x: int, y: int| #[trigger] earth_at(g, x, y) ==> (x, y) == a || (x, y) == b,
    ensures
        path.last() == a,
    decreases path.len(),
{
    if path.len() > 1 {
        let prefix = path.drop_last();
        assert(forall|i: int| 0 <= i < prefix.len() ==> prefix[i] == path[i]);
        assert(is_earth_path(g, prefix));
        lemma_path_stays_at_start(g, a, b, prefix);
        assert(earth_at(g, path[path.len() - 1].0, path[path.len() - 1].1));
        assert(adjacent(path[path.len() - 2], path[path.len() - 1]));
    }
}

/// Earth cells that touch only at a corner are separate islands: when they are the
/// only earth of the grid, a fill from one leaves the other unlabelled.
pub proof fn lemma_corner_cells_not_merged(g: Seq<Seq<Cell>>, a: (int, int), b: (int, int), c: char)
    requires
        earth_at(g, a.0, a.1),
        earth_at(g, b.0, b.1),
        a.0 == b.0 + 1 || b.0 == a.0 + 1,
        a.1 == b.1 + 1 || b.1 == a.1 + 1,
        forall|x: int, y: int| #[trigger] earth_at(g, x, y) ==> (x, y) == a || (x, y) == b,
    ensures
        flood(g, a, c)[b.1][b.0] == Cell::Earth,
{
    if connected(g, a, b) {
        let path = choose|path: Seq<(int, int)>|
            is_earth_path(g, path) && path[0] == a && path.last() == b;
        lemma_path_stays_at_start(g, a, b, path);
    }
}

/// Owns a grid and hands out labels in order, one per island.
pub struct Filler {
    pub map: Grid,
    label: Option<char>,
}

/// `g` and `g0` have the same rows, each of the same length.
spec fn same_shape(g0: Seq<Seq<Cell>>, g: Seq<Seq<Cell>>) -> bool {
    g.len() == g0.len() && forall|y: int| 0 <= y < g.len() ==> #[trigger] g[y].len() == g0[y].len()
}

/// The cell was earth at the start and holds label `c` now.
spec fn written(g0: Seq<Seq<Cell>>, g: Seq<Seq<Cell>>, c: char, x: int, y: int) -> bool {
    earth_at(g0, x, y) && g[y][x] == Cell::MarkedEarth(c)
}

/// No neighbour of the cell is unlabelled earth.
spec fn closed_at(g: Seq<Seq<Cell>>, x: int, y: int) -> bool {
    &&& !earth_at(g, x, y - 1)
    &&& !earth_at(g, x + 1, y)
    &&& !earth_at(g, x, y + 1)
    &&& !earth_at(g, x - 1, y)
}

/// Whether `(x, y)` is on the stack.
spec fn on_stack(stack: Seq<(usize, usize)>, x: int, y: int) -> bool {
    exists|i: int| 0 <= i < stack.len() && #[trigger] stack[i].0 as int == x && stack[i].1 as int == y
}

/// Cells change only from earth to `c`, and only when connected to `start`.
#[verifier::opaque]
spec fn only_island_changed(g0: Seq<Seq<Cell>>, g: Seq<Seq<Cell>>, start: (int, int), c: char) -> bool {
    forall|x: int, y: int|
        in_bounds(g0, x, y) ==> (#[trigger] g[y][x] == g0[y][x] || (written(g0, g, c, x, y)
            && connected(g0, start, (x, y))))
}

/// Every cell on the stack is labelled.
#[verifier::opaque]
spec fn stack_written(g0: Seq<Seq<Cell>>, g: Seq<Seq<Cell>>, stack: Seq<(usize, usize)>, c: char) -> bool {
    forall|i: int|
        0 <= i < stack.len() ==> written(g0, g, c, #[trigger] stack[i].0 as int, stack[i].1 as int)
}

/// Every labelled cell waits on the stack, is being handled, or has no earth beside it.
#[verifier::opaque]
spec fn pending_on_stack(
    g0: Seq<Seq<Cell>>,
    g: Seq<Seq<Cell>>,
    stack: Seq<(usize, usize)>,
    c: char,
    handled: Option<(int, int)>,
) -> bool {
    forall|x: int, y: int|
        #[trigger] written(g0, g, c, x, y) ==> (closed_at(g, x, y) || handled == Some((x, y))
            || on_stack(stack, x, y))
}

/// What holds while a fill from `start` with label `c` is under way.
spec fn fill_inv(
    g0: Seq<Seq<Cell>>,
    g: Seq<Seq<Cell>>,
    stack: Seq<(usize, usize)>,
    start: (int, int),
    c: char,
    handled: Option<(int, int)>,
) -> bool {
    &&& same_shape(g0, g)
    &&& written(g0, g, c, start.0, start.1)
    &&& only_island_changed(g0, g, start, c)
    &&& stack_written(g0, g, stack, c)
    &&& pending_on_stack(g0, g, stack, c, handled)
}

impl Filler {
    /// The cells of the grid being labelled.
    pub closed spec fn cells(&self) -> Seq<Seq<Cell>> {
        self.map@
    }

    /// The label the next fill writes; `None` once every label was used.
    pub closed spec fn next(&self) -> Option<char> {
        self.label
    }

    /// The grid being labelled.
    pub fn grid(&self) -> (r: &Grid)
        ensures
            r@ == self.cells(),
    {
        &self.map
    }

    /// A filler over `map` whose first label is `0`.
    pub fn new(map: Grid) -> (r: Filler)
        ensures
            r.cells() == map@,
            r.next() == Some('0'),
    {
        Filler { map, label: Some('0') }
    }

    /// Labels the island holding `coord` and moves on to the next label.
    /// Nothing happens when the labels are used up or the cell is not unlabelled earth.
    pub fn fill(&mut self, coord: (usize, usize)) -> (r: Option<()>)
        ensures
            (old(self).next() is Some && earth_at(old(self).cells(), coord.0 as int, coord.1 as int))
                ==> r == Some(()) && final(self).cells() == flood(
                old(self).cells(),
                (coord.0 as int, coord.1 as int),
                old(self).next()->0,
            ) && final(self).next() == next_label(old(self).next()->0),
            !(old(self).next() is Some && earth_at(old(self).cells(), coord.0 as int, coord.1 as int))
                ==> r is None && final(self).cells() == old(self).cells() && final(self).next() == old(
                self,
            ).next(),
    {
        let c = match self.label {
            Some(c) => c,
            None => return None,
        };
        match self.map.get(coord) {
            Some(Cell::Earth) => {},
            _ => return None,
        }
        self.fill_cells(coord, c);
        self.label = increment_char(c);
        Some(())
    }

    /// Writes `c` over the island holding `start`.
    fn fill_cells(&mut self, start: (usize, usize), c: char)
        requires
            earth_at(old(self).map@, start.0 as int, start.1 as int),
        ensures
            final(self).map@ == flood(old(self).map@, (start.0 as int, start.1 as int), c),
            final(self).label == old(self).label,
    {
        let ghost g0 = self.map@;
        let ghost s = (start.0 as int, start.1 as int);
        self.map.write(start, Cell::MarkedEarth(c));
        let mut stack: Vec<(usize, usize)> = Vec::new();
        stack.push(start);
        proof {
            lemma_start_connected(g0, s);
            lemma_fill_begins(g0, self.map@, stack@, s, c, start);
        }
        while stack.len() > 0
            invariant
                fill_inv(g0, self.map@, stack@, s, c, None),
                self.label == old(self).label,
            decreases earth_count(self.map@), stack.len(),
        {
            let ghost st0 = stack@;
            let p = match stack.pop() {
                Some(p) => p,
                None => return ,
            };
            proof {
                assert(st0 =~= stack@.push(p));
                lemma_pop_keeps(g0, self.map@, st0, stack@, s, c, p);
            }
            let ghost g1 = self.map@;
            spread(&mut self.map, &mut stack, p, Direction::Up, c, Ghost(g0), Ghost(s));
            let ghost g2 = self.map@;
            spread(&mut self.map, &mut stack, p, Direction::Right, c, Ghost(g0), Ghost(s));
            let ghost g3 = self.map@;
            spread(&mut self.map, &mut stack, p, Direction::Down, c, Ghost(g0), Ghost(s));
            let ghost g4 = self.map@;
            spread(&mut self.map, &mut stack, p, Direction::Left, c, Ghost(g0), Ghost(s));
            proof {
                let (x, y) = (p.0 as int, p.1 as int);
                assert(!earth_at(g2, x, y - 1));
                assert(!earth_at(g3, x, y - 1));
                assert(!earth_at(g4, x, y - 1));
                assert(!earth_at(self.map@, x, y - 1));
                assert(!earth_at(g3, x + 1, y));
                assert(!earth_at(g4, x + 1, y));
                assert(!earth_at(self.map@, x + 1, y));
                assert(!earth_at(g4, x, y + 1));
                assert(!earth_at(self.map@, x, y + 1));
                assert(closed_at(self.map@, x, y));
                lemma_close_handled(g0, self.map@, stack@, s, c, p);
            }
        }
        proof {
            assert(stack@ =~= Seq::<(usize, usize)>::empty());
            lemma_fill_done(g0, self.map@, s, c);
        }
    }
}

/// Looks at the neighbour of `p` in direction `dir`: unlabelled earth there gets
/// label `c` and waits on the stack.
fn spread(
    map: &mut Grid,
    stack: &mut Vec<(usize, usize)>,
    p: (usize, usize),
    dir: Direction,
    c: char,
    Ghost(g0): Ghost<Seq<Seq<Cell>>>,
    Ghost(s): Ghost<(int, int)>,
)
    requires
        fill_inv(g0, old(map)@, old(stack)@, s, c, Some((p.0 as int, p.1 as int))),
        written(g0, old(map)@, c, p.0 as int, p.1 as int),
    ensures
        fill_inv(g0, final(map)@, final(stack)@, s, c, Some((p.0 as int, p.1 as int))),
        written(g0, final(map)@, c, p.0 as int, p.1 as int),
        !earth_at(
            final(map)@,
            step(p.0 as int, p.1 as int, dir).0,
            step(p.0 as int, p.1 as int, dir).1,
        ),
        forall|x: int, y: int| #[trigger]
            earth_at(final(map)@, x, y) ==> earth_at(old(map)@, x, y),
        (earth_count(final(map)@) == earth_count(old(map)@) && final(stack)@ == old(stack)@) || (
        earth_count(final(map)@) + 1 == earth_count(old(map)@) && final(stack)@.len() == old(
            stack,
        )@.len() + 1),
{
    let next = match Cursor::at(map, p) {
        Some(cur) => match cur.move_dir(dir) {
            Some(n) => Some(n.coord()),
            None => None,
        },
        None => None,
    };
    let n = match next {
        Some(n) => n,
        None => return ,
    };
    match map.get(n) {
        Some(Cell::Earth) => {},
        _ => return ,
    }
    let ghost g = map@;
    let ghost st = stack@;
    map.write(n, Cell::MarkedEarth(c));
    stack.push(n);
    proof {
        lemma_spread_write(g0, g, map@, st, stack@, s, c, p, n);
    }
}

/// `g2` is `g` with unlabelled earth at `(nx, ny)` labelled `c`.
spec fn labels_one(g: Seq<Seq<Cell>>, g2: Seq<Seq<Cell>>, nx: int, ny: int, c: char) -> bool {
    earth_at(g, nx, ny) && g2 == g.update(ny, g[ny].update(nx, Cell::MarkedEarth(c)))
}

/// Labelling one earth cell changes that cell only, and adds no earth.
proof fn lemma_labels_one_cells(g: Seq<Seq<Cell>>, g2: Seq<Seq<Cell>>, nx: int, ny: int, c: char)
    requires
        labels_one(g, g2, nx, ny, c),
    ensures
        same_shape(g, g2),
        forall|x: int, y: int| #[trigger] earth_at(g2, x, y) ==> earth_at(g, x, y),
        forall|x: int, y: int|
            in_bounds(g, x, y) && !(x == nx && y == ny) ==> #[trigger] g2[y][x] == g[y][x],
        g2[ny][nx] == Cell::MarkedEarth(c),
        !earth_at(g2, nx, ny),
{
    assert forall|x: int, y: int| #[trigger] earth_at(g2, x, y) implies earth_at(g, x, y) by {
        if y == ny && x == nx {
        } else {
            assert(g2[y][x] == g[y][x]);
        }
    }
}

/// Earth beside a labelled cell was earth from the start, and is connected to it.
proof fn lemma_spread_connected(
    g0: Seq<Seq<Cell>>,
    g: Seq<Seq<Cell>>,
    s: (int, int),
    c: char,
    px: int,
    py: int,
    nx: int,
    ny: int,
)
    requires
        same_shape(g0, g),
        only_island_changed(g0, g, s, c),
        written(g0, g, c, px, py),
        adjacent((px, py), (nx, ny)),
        earth_at(g, nx, ny),
    ensures
        earth_at(g0, nx, ny),
        connected(g0, s, (nx, ny)),
{
    reveal(only_island_changed);
    assert(g[ny][nx] == g0[ny][nx]);
    assert(g[py][px] != g0[py][px]);
    assert(connected(g0, s, (px, py)));
    let path = choose|path: Seq<(int, int)>|
        is_earth_path(g0, path) && path[0] == s && path.last() == (px, py);
    let path2 = path.push((nx, ny));
    assert(earth_at(g0, nx, ny));
    assert forall|i: int| 0 <= i < path2.len() implies earth_at(
        g0,
        #[trigger] path2[i].0,
        path2[i].1,
    ) by {
        if i < path.len() {
            assert(path2[i] == path[i]);
        }
    }
    assert forall|i: int| 0 <= i < path2.len() - 1 implies adjacent(
        #[trigger] path2[i],
        path2[i + 1],
    ) by {
        if i < path.len() - 1 {
            assert(path2[i] == path[i]);
            assert(path2[i + 1] == path[i + 1]);
        } else {
            assert(path2[i] == (px, py));
        }
    }
    assert(is_earth_path(g0, path2));
    assert(path2[0] == s);
    assert(path2.last() == (nx, ny));
}

/// Labelling a connected earth cell changes only the island.
proof fn lemma_spread_changes(
    g0: Seq<Seq<Cell>>,
    g: Seq<Seq<Cell>>,
    g2: Seq<Seq<Cell>>,
    s: (int, int),
    c: char,
    nx: int,
    ny: int,
)
    requires
        same_shape(g0, g),
        only_island_changed(g0, g, s, c),
        labels_one(g, g2, nx, ny, c),
        earth_at(g0, nx, ny),
        connected(g0, s, (nx, ny)),
    ensures
        only_island_changed(g0, g2, s, c),
{
    reveal(only_island_changed);
    lemma_labels_one_cells(g, g2, nx, ny, c);
    assert forall|x: int, y: int| in_bounds(g0, x, y) implies (#[trigger] g2[y][x] == g0[y][x] || (
    written(g0, g2, c, x, y) && connected(g0, s, (x, y)))) by {
        if !(y == ny && x == nx) {
            assert(g2[y][x] == g[y][x]);
        }
    }
}

/// Pushing the newly labelled cell keeps every stacked cell labelled.
proof fn lemma_spread_stack(
    g0: Seq<Seq<Cell>>,
    g: Seq<Seq<Cell>>,
    g2: Seq<Seq<Cell>>,
    st: Seq<(usize, usize)>,
    c: char,
    n: (usize, usize),
)
    requires
        same_shape(g0, g),
        stack_written(g0, g, st, c),
        labels_one(g, g2, n.0 as int, n.1 as int, c),
        earth_at(g0, n.0 as int, n.1 as int),
    ensures
        stack_written(g0, g2, st.push(n), c),
{
    reveal(stack_written);
    lemma_labels_one_cells(g, g2, n.0 as int, n.1 as int, c);
    let st2 = st.push(n);
    assert forall|i: int| 0 <= i < st2.len() implies written(
        g0,
        g2,
        c,
        #[trigger] st2[i].0 as int,
        st2[i].1 as int,
    ) by {
        if i < st.len() {
            assert(st2[i] == st[i]);
            assert(written(g0, g, c, st[i].0 as int, st[i].1 as int));
        }
    }
}

/// The newly labelled cell waits on the stack; other cells keep their state.
proof fn lemma_spread_pending(
    g0: Seq<Seq<Cell>>,
    g: Seq<Seq<Cell>>,
    g2: Seq<Seq<Cell>>,
    st: Seq<(usize, usize)>,
    c: char,
    h: (int, int),
    n: (usize, usize),
)
    requires
        same_shape(g0, g),
        pending_on_stack(g0, g, st, c, Some(h)),
        labels_one(g, g2, n.0 as int, n.1 as int, c),
    ensures
        pending_on_stack(g0, g2, st.push(n), c, Some(h)),
{
    reveal(pending_on_stack);
    lemma_labels_one_cells(g, g2, n.0 as int, n.1 as int, c);
    let st2 = st.push(n);
    let (nx, ny) = (n.0 as int, n.1 as int);
    assert forall|x: int, y: int| #[trigger] written(g0, g2, c, x, y) implies (closed_at(g2, x, y)
        || Some(h) == Some((x, y)) || on_stack(st2, x, y)) by {
        if y == ny && x == nx {
            assert(st2[st.len() as int] == n);
        } else {
            assert(g2[y][x] == g[y][x]);
            assert(written(g0, g, c, x, y));
            if on_stack(st, x, y) {
                let i = choose|i: int|
                    0 <= i < st.len() && #[trigger] st[i].0 as int == x && st[i].1 as int == y;
                assert(st2[i] == st[i]);
            }
        }
    }
}

/// Labelling a neighbour and pushing it keeps the fill bookkeeping.
proof fn lemma_spread_write(
    g0: Seq<Seq<Cell>>,
    g: Seq<Seq<Cell>>,
    g2: Seq<Seq<Cell>>,
    st: Seq<(usize, usize)>,
    st2: Seq<(usize, usize)>,
    s: (int, int),
    c: char,
    p: (usize, usize),
    n: (usize, usize),
)
    requires
        fill_inv(g0, g, st, s, c, Some((p.0 as int, p.1 as int))),
        written(g0, g, c, p.0 as int, p.1 as int),
        adjacent((p.0 as int, p.1 as int), (n.0 as int, n.1 as int)),
        earth_at(g, n.0 as int, n.1 as int),
        g2 == g.update(n.1 as int, g[n.1 as int].update(n.0 as int, Cell::MarkedEarth(c))),
        st2 == st.push(n),
    ensures
        fill_inv(g0, g2, st2, s, c, Some((p.0 as int, p.1 as int))),
        written(g0, g2, c, p.0 as int, p.1 as int),
        !earth_at(g2, n.0 as int, n.1 as int),
        forall|x: int, y: int| #[trigger] earth_at(g2, x, y) ==> earth_at(g, x, y),
        earth_count(g2) + 1 == earth_count(g),
{
    let (px, py) = (p.0 as int, p.1 as int);
    let (nx, ny) = (n.0 as int, n.1 as int);
    assert(labels_one(g, g2, nx, ny, c));
    lemma_labels_one_cells(g, g2, nx, ny, c);
    lemma_earth_count_update(g, nx, ny, Cell::MarkedEarth(c));
    lemma_spread_connected(g0, g, s, c, px, py, nx, ny);
    lemma_spread_changes(g0, g, g2, s, c, nx, ny);
    lemma_spread_stack(g0, g, g2, st, c, n);
    lemma_spread_pending(g0, g, g2, st, c, (px, py), n);
    assert(g2[s.1][s.0] == g[s.1][s.0]);
    assert(g2[py][px] == g[py][px]);
}

/// Taking `p` off the stack makes it the cell being handled.
proof fn lemma_pop_keeps(
    g0: Seq<Seq<Cell>>,
    g: Seq<Seq<Cell>>,
    st: Seq<(usize, usize)>,
    st2: Seq<(usize, usize)>,
    s: (int, int),
    c: char,
    p: (usize, usize),
)
    requires
        fill_inv(g0, g, st, s, c, None),
        st == st2.push(p),
    ensures
        fill_inv(g0, g, st2, s, c, Some((p.0 as int, p.1 as int))),
        written(g0, g, c, p.0 as int, p.1 as int),
{
    reveal(stack_written);
    reveal(pending_on_stack);
    assert(st[st2.len() as int] == p);
    assert forall|i: int| 0 <= i < st2.len() implies written(
        g0,
        g,
        c,
        #[trigger] st2[i].0 as int,
        st2[i].1 as int,
    ) by {
        assert(st[i] == st2[i]);
    }
    assert forall|x: int, y: int| #[trigger] written(g0, g, c, x, y) implies (closed_at(g, x, y)
        || Some((p.0 as int, p.1 as int)) == Some((x, y)) || on_stack(st2, x, y)) by {
        if !closed_at(g, x, y) && on_stack(st, x, y) {
            let i = choose|i: int| 0 <= i < st.len() && #[trigger] st[i].0 as int == x && st[i].1 as int == y;
            if i < st2.len() {
                assert(st2[i] == st[i]);
            } else {
                assert(in_bounds(g0, x, y));
                assert(x == p.0 as int && y == p.1 as int);
            }
        }
    }
}

/// Once no neighbour of the handled cell is earth, it needs no more work.
proof fn lemma_close_handled(
    g0: Seq<Seq<Cell>>,
    g: Seq<Seq<Cell>>,
    st: Seq<(usize, usize)>,
    s: (int, int),
    c: char,
    p: (usize, usize),
)
    requires
        fill_inv(g0, g, st, s, c, Some((p.0 as int, p.1 as int))),
        closed_at(g, p.0 as int, p.1 as int),
    ensures
        fill_inv(g0, g, st, s, c, None),
{
    reveal(pending_on_stack);
}

/// Along a path of earth from the start, every cell was labelled.
proof fn lemma_path_written(
    g0: Seq<Seq<Cell>>,
    g: Seq<Seq<Cell>>,
    s: (int, int),
    c: char,
    path: Seq<(int, int)>,
)
    requires
        fill_inv(g0, g, Seq::<(usize, usize)>::empty(), s, c, None),
        is_earth_path(g0, path),
        path[0] == s,
    ensures
        written(g0, g, c, path.last().0, path.last().1),
    decreases path.len(),
{
    reveal(only_island_changed);
    reveal(pending_on_stack);
    if path.len() > 1 {
        let prefix = path.drop_last();
        assert(forall|i: int| 0 <= i < prefix.len() ==> prefix[i] == path[i]);
        assert(is_earth_path(g0, prefix));
        lemma_path_written(g0, g, s, c, prefix);
        let (px, py) = prefix.last();
        let (qx, qy) = path.last();
        assert(adjacent(path[path.len() - 2], path[path.len() - 1]));
        assert(!on_stack(Seq::<(usize, usize)>::empty(), px, py));
        assert(closed_at(g, px, py));
        assert(earth_at(g0, qx, qy));
        assert(!earth_at(g, qx, qy));
        assert(g[qy][qx] != g0[qy][qx]);
    }
}

/// When the stack runs empty, the labelled cells are exactly those connected to the start.
proof fn lemma_fill_done(g0: Seq<Seq<Cell>>, g: Seq<Seq<Cell>>, s: (int, int), c: char)
    requires
        fill_inv(g0, g, Seq::<(usize, usize)>::empty(), s, c, None),
    ensures
        g == flood(g0, s, c),
{
    reveal(only_island_changed);
    let f = flood(g0, s, c);
    assert forall|y: int| 0 <= y < g.len() implies #[trigger] g[y] =~= f[y] by {
        assert forall|x: int| 0 <= x < g[y].len() implies g[y][x] == f[y][x] by {
            assert(in_bounds(g0, x, y));
            if connected(g0, s, (x, y)) {
                let path = choose|path: Seq<(int, int)>|
                    is_earth_path(g0, path) && path[0] == s && path.last() == (x, y);
                lemma_path_written(g0, g, s, c, path);
            }
        }
    }
    assert(g =~= f);
}

/// An earth cell is connected to itself.
proof fn lemma_start_connected(g: Seq<Seq<Cell>>, s: (int, int))
    requires
        earth_at(g, s.0, s.1),
    ensures
        connected(g, s, s),
{
    let path = seq![s];
    assert(path[0] == s);
    assert(path.last() == s);
    assert(is_earth_path(g, path));
    assert(connected(g, s, s));
}

/// Labelling the start and putting it on the stack sets the bookkeeping up.
proof fn lemma_fill_begins(
    g0: Seq<Seq<Cell>>,
    g: Seq<Seq<Cell>>,
    st: Seq<(usize, usize)>,
    s: (int, int),
    c: char,
    start: (usize, usize),
)
    requires
        s == (start.0 as int, start.1 as int),
        earth_at(g0, s.0, s.1),
        connected(g0, s, s),
        g == g0.update(s.1, g0[s.1].update(s.0, Cell::MarkedEarth(c))),
        st == seq![start],
    ensures
        fill_inv(g0, g, st, s, c, None),
{
    reveal(only_island_changed);
    reveal(stack_written);
    reveal(pending_on_stack);
    assert(st[0] == start);
    assert forall|x: int, y: int| in_bounds(g0, x, y) implies (#[trigger] g[y][x] == g0[y][x] || (
    written(g0, g, c, x, y) && connected(g0, s, (x, y)))) by {
        if y == s.1 && x == s.0 {
        } else {
            assert(g[y][x] == g0[y][x]);
        }
    }
    assert forall|x: int, y: int| #[trigger] written(g0, g, c, x, y) implies (closed_at(g, x, y)
        || None::<(int, int)> == Some((x, y)) || on_stack(st, x, y)) by {
        if y == s.1 && x == s.0 {
        } else {
            assert(g[y][x] == g0[y][x]);
        }
    }
    assert(same_shape(g0, g));
}

/// Labelling an earth cell of a row leaves one earth cell fewer.
proof fn lemma_row_earth_update(r: Seq<Cell>, x: int, v: Cell)
    requires
        0 <= x < r.len(),
        r[x] is Earth,
        !(v is Earth),
    ensures
        row_earth(r.update(x, v)) + 1 == row_earth(r),
    decreases r.len(),
{
    let r2 = r.update(x, v);
    if x == r.len() - 1 {
        assert(r2.drop_last() =~= r.drop_last());
    } else {
        assert(r2.drop_last() =~= r.drop_last().update(x, v));
        lemma_row_earth_update(r.drop_last(), x, v);
    }
}

/// Labelling an earth cell of a grid leaves one earth cell fewer.
proof fn lemma_earth_count_update(g: Seq<Seq<Cell>>, x: int, y: int, v: Cell)
    requires
        earth_at(g, x, y),
        !(v is Earth),
    ensures
        earth_count(g.update(y, g[y].update(x, v))) + 1 == earth_count(g),
    decreases g.len(),
{
    let g2 = g.update(y, g[y].update(x, v));
    if y == g.len() - 1 {
        assert(g2.drop_last() =~= g.drop_last());
        lemma_row_earth_update(g[y], x, v);
    } else {
        assert(g2.drop_last() =~= g.drop_last().update(y, g[y].update(x, v)));
        lemma_earth_count_update(g.drop_last(), x, y, v);
    }
}

} // verus!
