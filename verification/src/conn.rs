//! Spec-level 4-connectivity over a row-major grid: paths, reachability,
//! groups and their liberties, and empty-region territory ownership. These
//! definitions give the exact meaning of group search, capture resolution
//! and territory scoring; the executable searches are proved against them.

use vstd::prelude::*;

use crate::color::Color;

verus! {

/// `i` is a cell index of a `size`-sided board.
pub open spec fn in_grid(size: nat, i: int) -> bool {
    0 <= i < size * size
}

/// Cells `a` and `b` are orthogonal neighbors on a `size`-sided board.
pub open spec fn adj(size: nat, a: int, b: int) -> bool {
    &&& in_grid(size, a)
    &&& in_grid(size, b)
    &&& {
        ||| (a / (size as int) == b / (size as int) && (b == a + 1 || a == b + 1))
        ||| b == a + size
        ||| a == b + size
    }
}

/// The cell holds exactly `target`: a stone color for group search, `None`
/// for empty-region search.
pub open spec fn cell_matches(grid: Seq<Option<Color>>, target: Option<Color>, i: int) -> bool {
    0 <= i < grid.len() && grid[i] == target
}

/// A nonempty walk through matching cells, each step between neighbors.
pub open spec fn is_path(
    grid: Seq<Option<Color>>,
    target: Option<Color>,
    size: nat,
    p: Seq<int>,
) -> bool {
    &&& p.len() > 0
    &&& forall|k: int| 0 <= k < p.len() ==> cell_matches(grid, target, #[trigger] p[k])
    &&& forall|k: int| 1 <= k < p.len() ==> adj(size, p[k - 1], #[trigger] p[k])
}

/// `b` is reachable from `a` through cells matching `target`.
pub open spec fn connected(
    grid: Seq<Option<Color>>,
    target: Option<Color>,
    size: nat,
    a: int,
    b: int,
) -> bool {
    exists|p: Seq<int>|
        #[trigger] is_path(grid, target, size, p) && p.first() == a && p.last() == b
}

/// A matching cell is reachable from itself.
pub proof fn lemma_connected_self(
    grid: Seq<Option<Color>>,
    target: Option<Color>,
    size: nat,
    a: int,
)
    requires
        cell_matches(grid, target, a),
    ensures
        connected(grid, target, size, a, a),
{
    let p = seq![a];
    assert(is_path(grid, target, size, p));
    assert(p.first() == a && p.last() == a);
}

/// Reachability extends along one more matching neighbor.
pub proof fn lemma_connected_step(
    grid: Seq<Option<Color>>,
    target: Option<Color>,
    size: nat,
    a: int,
    b: int,
    c: int,
)
    requires
        connected(grid, target, size, a, b),
        adj(size, b, c),
        cell_matches(grid, target, c),
    ensures
        connected(grid, target, size, a, c),
{
    let p = choose|p: Seq<int>|
        #[trigger] is_path(grid, target, size, p) && p.first() == a && p.last() == b;
    let q = p.push(c);
    assert(forall|k: int| 0 <= k < p.len() ==> q[k] == p[k]);
    assert(q.last() == c);
    assert(is_path(grid, target, size, q));
    assert(q.first() == a);
}

/// Reachability is symmetric: a path runs as well backwards.
pub proof fn lemma_connected_sym(
    grid: Seq<Option<Color>>,
    target: Option<Color>,
    size: nat,
    a: int,
    b: int,
)
    requires
        connected(grid, target, size, a, b),
    ensures
        connected(grid, target, size, b, a),
{
    let p = choose|p: Seq<int>|
        #[trigger] is_path(grid, target, size, p) && p.first() == a && p.last() == b;
    let n = p.len() as int;
    let q = Seq::new(p.len(), |k: int| p[n - 1 - k]);
    assert(forall|k: int| 1 <= k < n ==> adj(size, p[k - 1], #[trigger] p[k]));
    assert forall|k: int| 1 <= k < n implies adj(size, q[k - 1], #[trigger] q[k]) by {
        let j = n - k;
        assert(q[k - 1] == p[j] && q[k] == p[j - 1]);
        assert(adj(size, p[j - 1], p[j]));
    }
    assert(is_path(grid, target, size, q));
    assert(q.first() == b && q.last() == a);
}

/// Reachability composes.
pub proof fn lemma_connected_trans(
    grid: Seq<Option<Color>>,
    target: Option<Color>,
    size: nat,
    a: int,
    b: int,
    c: int,
)
    requires
        connected(grid, target, size, a, b),
        connected(grid, target, size, b, c),
    ensures
        connected(grid, target, size, a, c),
{
    let p = choose|p: Seq<int>|
        #[trigger] is_path(grid, target, size, p) && p.first() == a && p.last() == b;
    let q = choose|q: Seq<int>|
        #[trigger] is_path(grid, target, size, q) && q.first() == b && q.last() == c;
    if q.len() == 1 {
        assert(b == c);
    } else {
        let r = p + q.subrange(1, q.len() as int);
        assert(forall|k: int| 0 <= k < p.len() ==> r[k] == p[k]);
        assert(forall|k: int|
            p.len() <= k < r.len() ==> r[k] == q[k - p.len() + 1]);
        assert forall|k: int| 1 <= k < r.len() implies adj(size, r[k - 1], #[trigger] r[k]) by {
            if k < p.len() {
                assert(adj(size, p[k - 1], p[k]));
            } else if k == p.len() {
                assert(r[k - 1] == p.last() && r[k] == q[1]);
                assert(adj(size, q[0], q[1]));
            } else {
                let j = k - p.len() + 1;
                assert(adj(size, q[j - 1], q[j]));
            }
        }
        assert(forall|k: int| 0 <= k < r.len() ==> cell_matches(grid, target, #[trigger] r[k]));
        assert(is_path(grid, target, size, r));
        assert(r.first() == a && r.last() == c);
    }
}

/// Every cell on a path is reachable from the path's start.
pub proof fn lemma_path_cell_connected(
    grid: Seq<Option<Color>>,
    target: Option<Color>,
    size: nat,
    p: Seq<int>,
    k: int,
)
    requires
        is_path(grid, target, size, p),
        0 <= k < p.len(),
    ensures
        connected(grid, target, size, p.first(), p[k]),
{
    let q = p.subrange(0, k + 1);
    assert(forall|j: int| 0 <= j <= k ==> q[j] == p[j]);
    assert(is_path(grid, target, size, q));
    assert(q.first() == p.first() && q.last() == p[k]);
}

/// Any set that contains `a` and is closed under matching adjacency contains
/// every cell reachable from `a`.
pub proof fn lemma_connected_in_closed_set(
    grid: Seq<Option<Color>>,
    target: Option<Color>,
    size: nat,
    s: Set<int>,
    a: int,
    b: int,
)
    requires
        s.contains(a),
        forall|i: int, j: int|
            s.contains(i) && #[trigger] adj(size, i, j) && cell_matches(grid, target, j)
                ==> s.contains(j),
        connected(grid, target, size, a, b),
    ensures
        s.contains(b),
{
    let p = choose|p: Seq<int>|
        #[trigger] is_path(grid, target, size, p) && p.first() == a && p.last() == b;
    lemma_path_in_closed_set(grid, target, size, s, p);
}

proof fn lemma_path_in_closed_set(
    grid: Seq<Option<Color>>,
    target: Option<Color>,
    size: nat,
    s: Set<int>,
    p: Seq<int>,
)
    requires
        is_path(grid, target, size, p),
        s.contains(p.first()),
        forall|i: int, j: int|
            s.contains(i) && #[trigger] adj(size, i, j) && cell_matches(grid, target, j)
                ==> s.contains(j),
    ensures
        s.contains(p.last()),
    decreases p.len(),
{
    if p.len() > 1 {
        assert(adj(size, p[0], p[1]));
        assert(cell_matches(grid, target, p[1]));
        assert(s.contains(p[1]));
        let q = p.subrange(1, p.len() as int);
        assert(forall|k: int| 0 <= k < q.len() ==> q[k] == p[k + 1]);
        assert(is_path(grid, target, size, q));
        lemma_path_in_closed_set(grid, target, size, s, q);
        assert(q.last() == p.last());
    }
}

/// `j` lies just outside the `target`-region of `start`: its cell differs
/// from `target` and it touches a cell reachable from `start`.
pub open spec fn border_cell(
    grid: Seq<Option<Color>>,
    target: Option<Color>,
    size: nat,
    start: int,
    j: int,
) -> bool {
    &&& 0 <= j < grid.len()
    &&& grid[j] != target
    &&& exists|i: int| connected(grid, target, size, start, i) && #[trigger] adj(size, i, j)
}

/// `j` belongs to the maximal same-colored connected group containing
/// `root`. False whenever `root` is an empty cell.
pub open spec fn in_group(grid: Seq<Option<Color>>, size: nat, root: int, j: int) -> bool {
    grid[root] is Some && connected(grid, grid[root], size, root, j)
}

/// `l` is a liberty of the group containing `root`: an empty cell next to
/// one of the group's stones.
pub open spec fn group_liberty(grid: Seq<Option<Color>>, size: nat, root: int, l: int) -> bool {
    &&& 0 <= l < grid.len()
    &&& grid[l] is None
    &&& exists|j: int| in_group(grid, size, root, j) && #[trigger] adj(size, j, l)
}

/// The group containing `root` has at least one liberty.
pub open spec fn group_alive(grid: Seq<Option<Color>>, size: nat, root: int) -> bool {
    exists|l: int| #[trigger] group_liberty(grid, size, root, l)
}

/// Two stones of one group determine the same group, the same liberties and
/// the same life status.
pub proof fn lemma_group_same(grid: Seq<Option<Color>>, size: nat, r1: int, r2: int)
    requires
        in_group(grid, size, r1, r2),
    ensures
        grid[r2] == grid[r1],
        forall|j: int| in_group(grid, size, r1, j) <==> in_group(grid, size, r2, j),
        forall|l: int| group_liberty(grid, size, r1, l) <==> group_liberty(grid, size, r2, l),
        group_alive(grid, size, r1) <==> group_alive(grid, size, r2),
{
    let t = grid[r1];
    let p = choose|p: Seq<int>|
        #[trigger] is_path(grid, t, size, p) && p.first() == r1 && p.last() == r2;
    assert(cell_matches(grid, t, r2));
    assert forall|j: int| in_group(grid, size, r1, j) implies in_group(grid, size, r2, j) by {
        lemma_connected_sym(grid, t, size, r1, r2);
        lemma_connected_trans(grid, t, size, r2, r1, j);
    }
    assert forall|j: int| in_group(grid, size, r2, j) implies in_group(grid, size, r1, j) by {
        lemma_connected_trans(grid, t, size, r1, r2, j);
    }
    assert forall|l: int|
        group_liberty(grid, size, r1, l) implies group_liberty(grid, size, r2, l) by {
        let j = choose|j: int| in_group(grid, size, r1, j) && #[trigger] adj(size, j, l);
        assert(in_group(grid, size, r2, j));
    }
    assert forall|l: int|
        group_liberty(grid, size, r2, l) implies group_liberty(grid, size, r1, l) by {
        let j = choose|j: int| in_group(grid, size, r2, j) && #[trigger] adj(size, j, l);
        assert(in_group(grid, size, r1, j));
    }
    assert forall|l: int| #[trigger] group_liberty(grid, size, r1, l)
        implies group_liberty(grid, size, r2, l) by {}
}

/// Both ends of a reachability fact sit on matching cells, and the group
/// relation is reflexive on its root.
pub proof fn lemma_connected_ends(
    grid: Seq<Option<Color>>,
    target: Option<Color>,
    size: nat,
    a: int,
    b: int,
)
    requires
        connected(grid, target, size, a, b),
    ensures
        cell_matches(grid, target, a),
        cell_matches(grid, target, b),
        connected(grid, target, size, a, a),
        connected(grid, target, size, b, b),
{
    let p = choose|p: Seq<int>|
        #[trigger] is_path(grid, target, size, p) && p.first() == a && p.last() == b;
    assert(cell_matches(grid, target, p[0]));
    assert(cell_matches(grid, target, p[p.len() - 1]));
    lemma_connected_self(grid, target, size, a);
    lemma_connected_self(grid, target, size, b);
}

/// `j` is captured by `mover` playing at `idx`: on the grid with the new
/// stone placed, `j` belongs to an opposing group adjacent to `idx` that is
/// left without liberties. Distinct opposing groups never touch each other,
/// so each is judged independently on the placed grid.
pub open spec fn captured_by_play(
    placed: Seq<Option<Color>>,
    size: nat,
    idx: int,
    mover: Color,
    j: int,
) -> bool {
    exists|n: int|
        #[trigger] adj(size, idx, n) && placed[n] == Some(mover.opp()) && !group_alive(
            placed,
            size,
            n,
        ) && in_group(placed, size, n, j)
}

/// The grid after `mover` plays at `idx`: the stone is placed and every
/// captured opposing stone is removed. The mover's own liberties are judged
/// afterwards, on this grid.
pub open spec fn after_capture_grid(
    grid: Seq<Option<Color>>,
    size: nat,
    idx: int,
    mover: Color,
) -> Seq<Option<Color>> {
    let placed = grid.update(idx, Some(mover));
    Seq::new(
        placed.len(),
        |j: int|
            if captured_by_play(placed, size, idx, mover, j) {
                None
            } else {
                placed[j]
            },
    )
}

/// Removing whole same-colored groups that are not connected to `root`
/// leaves `root`'s group, its liberties and its life status unchanged.
pub proof fn lemma_group_frame(
    g1: Seq<Option<Color>>,
    g2: Seq<Option<Color>>,
    size: nat,
    d: Set<int>,
    root: int,
)
    requires
        g1.len() == g2.len(),
        0 <= root < g1.len(),
        g1[root] is Some,
        !d.contains(root),
        forall|k: int|
            0 <= k < g1.len() ==> #[trigger] g2[k] == (if d.contains(k) {
                None::<Color>
            } else {
                g1[k]
            }),
        forall|k: int| #[trigger] d.contains(k) ==> 0 <= k < g1.len() && g1[k] == g1[root],
        forall|k: int| #[trigger] d.contains(k) ==> !connected(g1, g1[root], size, root, k),
    ensures
        g2[root] == g1[root],
        forall|j: int| in_group(g1, size, root, j) <==> in_group(g2, size, root, j),
        forall|l: int| group_liberty(g1, size, root, l) <==> group_liberty(g2, size, root, l),
        group_alive(g1, size, root) <==> group_alive(g2, size, root),
{
    let t = g1[root];
    assert(g2[root] == t);
    assert forall|j: int|
        connected(g1, t, size, root, j) implies connected(g2, t, size, root, j) by {
        let p = choose|p: Seq<int>|
            #[trigger] is_path(g1, t, size, p) && p.first() == root && p.last() == j;
        assert forall|k: int| 0 <= k < p.len() implies cell_matches(g2, t, #[trigger] p[k]) by {
            lemma_path_cell_connected(g1, t, size, p, k);
            assert(!d.contains(p[k]));
        }
        assert(is_path(g2, t, size, p));
    }
    assert forall|j: int|
        connected(g2, t, size, root, j) implies connected(g1, t, size, root, j) by {
        let p = choose|p: Seq<int>|
            #[trigger] is_path(g2, t, size, p) && p.first() == root && p.last() == j;
        assert forall|k: int| 0 <= k < p.len() implies cell_matches(g1, t, #[trigger] p[k]) by {
            assert(g2[p[k]] == t);
            assert(!d.contains(p[k]));
        }
        assert(is_path(g1, t, size, p));
    }
    assert forall|l: int|
        group_liberty(g1, size, root, l) implies group_liberty(g2, size, root, l) by {
        let j = choose|j: int| in_group(g1, size, root, j) && #[trigger] adj(size, j, l);
        assert(!d.contains(l));
        assert(g2[l] is None);
        assert(in_group(g2, size, root, j));
    }
    assert forall|l: int|
        group_liberty(g2, size, root, l) implies group_liberty(g1, size, root, l) by {
        let j = choose|j: int| in_group(g2, size, root, j) && #[trigger] adj(size, j, l);
        assert(in_group(g1, size, root, j));
        if d.contains(l) {
            assert(cell_matches(g1, t, l));
            lemma_connected_step(g1, t, size, root, j, l);
            assert(false);
        }
        assert(g1[l] is None);
    }
    assert(group_alive(g1, size, root) <==> group_alive(g2, size, root)) by {
        if group_alive(g1, size, root) {
            let l = choose|l: int| #[trigger] group_liberty(g1, size, root, l);
            assert(group_liberty(g2, size, root, l));
        }
        if group_alive(g2, size, root) {
            let l = choose|l: int| #[trigger] group_liberty(g2, size, root, l);
            assert(group_liberty(g1, size, root, l));
        }
    }
}

/// The maximal connected empty region containing `i` borders at least one
/// stone of color `c`.
pub open spec fn region_touches(grid: Seq<Option<Color>>, size: nat, i: int, c: Color) -> bool {
    exists|j: int, l: int|
        connected(grid, None, size, i, j) && #[trigger] adj(size, j, l) && grid[l] == Some(c)
}

/// The owner of empty cell `i` under simple area-scoring territory rules: a
/// color owns the cell when its maximal empty region borders stones of that
/// color only. Regions bordering both colors or no stone at all are neutral,
/// and occupied cells are never territory.
pub open spec fn territory_owner(grid: Seq<Option<Color>>, size: nat, i: int) -> Option<Color> {
    if !(grid[i] is None) {
        None
    } else if region_touches(grid, size, i, Color::Black) && !region_touches(
        grid,
        size,
        i,
        Color::White,
    ) {
        Some(Color::Black)
    } else if region_touches(grid, size, i, Color::White) && !region_touches(
        grid,
        size,
        i,
        Color::Black,
    ) {
        Some(Color::White)
    } else {
        None
    }
}

/// Cells of one empty region agree on which colors they touch, hence on
/// their territory owner.
pub proof fn lemma_region_same(grid: Seq<Option<Color>>, size: nat, i: int, j: int)
    requires
        connected(grid, None, size, i, j),
    ensures
        forall|c: Color| region_touches(grid, size, i, c) <==> region_touches(grid, size, j, c),
        territory_owner(grid, size, i) == territory_owner(grid, size, j),
{
    assert forall|c: Color|
        region_touches(grid, size, i, c) implies region_touches(grid, size, j, c) by {
        let (m, l): (int, int) = choose|m: int, l: int|
            connected(grid, None, size, i, m) && #[trigger] adj(size, m, l)
                && grid[l] == Some(c);
        lemma_connected_sym(grid, None, size, i, j);
        lemma_connected_trans(grid, None, size, j, i, m);
    }
    assert forall|c: Color|
        region_touches(grid, size, j, c) implies region_touches(grid, size, i, c) by {
        let (m, l): (int, int) = choose|m: int, l: int|
            connected(grid, None, size, j, m) && #[trigger] adj(size, m, l)
                && grid[l] == Some(c);
        lemma_connected_trans(grid, None, size, i, j, m);
    }
    let p = choose|p: Seq<int>|
        #[trigger] is_path(grid, None, size, p) && p.first() == i && p.last() == j;
    assert(cell_matches(grid, None, i) && cell_matches(grid, None, j));
}

} // verus!
