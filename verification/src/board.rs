//! The board: a grid of intersections with an incrementally maintained
//! Zobrist hash, single-move application with capture resolution and the
//! suicide check, group search, and territory classification.

use vstd::prelude::*;

use crate::color::Color;
use crate::conn::{
    adj, after_capture_grid, border_cell, captured_by_play, cell_matches, connected, group_alive,
    group_liberty, in_grid, in_group, lemma_connected_ends, lemma_connected_in_closed_set,
    lemma_connected_self, lemma_connected_step, lemma_connected_sym, lemma_connected_trans,
    lemma_group_frame, lemma_group_same, lemma_region_same, region_touches, territory_owner,
};
use crate::error::RuleViolation;
use crate::point::Point;
use crate::zobrist::{cell_key, grid_hash, lemma_grid_hash_blank, lemma_grid_hash_update, ZobristTable};

verus! {

/// The sequence `s` holds the cell index `j`.
pub open spec fn contains_ix(s: Seq<usize>, j: int) -> bool {
    exists|k: int| 0 <= k < s.len() && #[trigger] s[k] == j
}

/// Some point in `pts` has row-major index `j` on a `size`-sided board.
pub open spec fn contains_pt_ix(pts: Seq<Point>, size: nat, j: int) -> bool {
    exists|k: int| 0 <= k < pts.len() && (#[trigger] pts[k]).index(size) == j
}

/// Exactly what `after_play` returns, case by case: each rule violation
/// comes on precisely the inputs that break its rule, and a success carries
/// the post-capture grid together with the exact set of captured points.
pub open spec fn after_play_spec(
    b: Board,
    color: Color,
    point: Point,
    r: Result<(Board, Vec<Point>), RuleViolation>,
) -> bool {
    let sz = b.spec_size();
    let g0 = b.grid();
    let idx = point.index(sz);
    let placed = g0.update(idx, Some(color));
    let acg = after_capture_grid(g0, sz, idx, color);
    match r {
        Err(RuleViolation::OutOfBounds { point: p }) => p == point && idx >= g0.len(),
        Err(RuleViolation::Occupied { point: p }) => p == point && idx < g0.len() && g0[idx]
            is Some,
        Err(RuleViolation::Suicide { point: p }) => p == point && idx < g0.len() && g0[idx]
            is None && !group_alive(acg, sz, idx),
        Err(_) => false,
        Ok((nb, caps)) => {
            &&& idx < g0.len()
            &&& g0[idx] is None
            &&& group_alive(acg, sz, idx)
            &&& nb.wf()
            &&& nb.spec_size() == sz
            &&& nb.keys() == b.keys()
            &&& nb.side_keys() == b.side_keys()
            &&& nb.grid() == acg
            &&& forall|k1: int, k2: int|
                0 <= k1 < k2 < caps@.len() ==> (#[trigger] caps@[k1]).index(sz) != (
                #[trigger] caps@[k2]).index(sz)
            &&& forall|k: int|
                0 <= k < caps@.len() ==> (#[trigger] caps@[k]).x < sz && caps@[k].y < sz
            &&& forall|j: int| #[trigger]
                contains_pt_ix(caps@, sz, j) <==> captured_by_play(placed, sz, idx, color, j)
        },
    }
}

/// A maximal connected set of same-colored stones together with the empty
/// cells adjacent to it, both as row-major indices.
#[derive(Debug)]
pub struct GroupInfo {
    pub stones: Vec<usize>,
    pub liberties: Vec<usize>,
}

/// A `size × size` grid of intersections, each empty or holding a stone,
/// plus the running 64-bit Zobrist hash of the stones alone (the side to
/// move is folded in only by `position_key`).
#[derive(Clone, Debug)]
pub struct Board {
    size: usize,
    cells: Vec<Option<Color>>,
    zobrist: ZobristTable,
    hash: u64,
}

impl Board {
    /// The side length.
    pub closed spec fn spec_size(self) -> nat {
        self.size as nat
    }

    /// The grid contents in row-major order.
    pub closed spec fn grid(self) -> Seq<Option<Color>> {
        self.cells@
    }

    /// The per-stone Zobrist keys this board hashes with.
    pub closed spec fn keys(self) -> Seq<u64> {
        self.zobrist.stone_keys()
    }

    /// The two side-to-move Zobrist keys.
    pub closed spec fn side_keys(self) -> Seq<u64> {
        self.zobrist.side_keys()
    }

    /// The running hash value.
    pub closed spec fn spec_hash(self) -> u64 {
        self.hash
    }

    /// Well-formedness: the grid fills the square, the key table fits it,
    /// and the hash equals the XOR of the keys of all occupied cells.
    pub open spec fn wf(self) -> bool {
        &&& 1 <= self.spec_size() <= 256
        &&& self.grid().len() == self.spec_size() * self.spec_size()
        &&& self.keys().len() == 2 * self.spec_size() * self.spec_size()
        &&& self.side_keys().len() == 2
        &&& self.spec_hash() == grid_hash(self.keys(), self.grid())
    }

    /// The superko fingerprint of this board with `to_move` to play: the
    /// stone hash XORed with the side-to-move key.
    pub open spec fn spec_position_key(self, to_move: Color) -> u64 {
        self.spec_hash() ^ self.side_keys()[to_move.idx()]
    }

    /// An empty board of the given side length, with a fresh key table.
    pub fn new(size: usize) -> (r: Board)
        requires
            1 <= size <= 256,
        ensures
            r.wf(),
            r.spec_size() == size,
            forall|j: int| 0 <= j < r.grid().len() ==> r.grid()[j] is None,
            r.spec_hash() == 0u64,
    {
        let zobrist = ZobristTable::new(size);
        proof {
            assert((size as int) * (size as int) <= 65536) by (nonlinear_arith)
                requires
                    size as int <= 256,
            ;
        }
        let n: usize = size * size;
        let mut cells: Vec<Option<Color>> = Vec::new();
        let mut i: usize = 0;
        while i < n
            invariant
                i <= n,
                cells@.len() == i,
                forall|j: int| 0 <= j < i ==> cells@[j] is None,
            decreases n - i,
        {
            cells.push(None);
            i += 1;
        }
        proof {
            lemma_grid_hash_blank(zobrist.stone_keys(), cells@, cells@.len() as int);
        }
        Board { size, cells, zobrist, hash: 0 }
    }

    /// The side length.
    pub fn size(&self) -> (r: usize)
        ensures
            r == self.spec_size(),
    {
        self.size
    }

    /// The running hash of the stones on the board.
    pub fn hash(&self) -> (r: u64)
        ensures
            r == self.spec_hash(),
    {
        self.hash
    }

    /// The superko fingerprint of this board with `to_move` to play.
    pub fn position_key(&self, to_move: Color) -> (r: u64)
        requires
            self.wf(),
        ensures
            r == self.spec_position_key(to_move),
    {
        self.hash ^ self.zobrist.to_move(to_move.index())
    }

    /// The stone at `point`, or `None` for an empty intersection.
    pub fn get(&self, point: Point) -> (r: Option<Color>)
        requires
            self.wf(),
            point.x < self.spec_size(),
            point.y < self.spec_size(),
        ensures
            r == self.grid()[point.index(self.spec_size())],
    {
        proof {
            lemma_point_index_in_grid(self.spec_size(), point);
        }
        self.cells[point.to_index(self.size)]
    }

    /// Whether the intersection at `point` is empty.
    pub fn is_empty(&self, point: Point) -> (r: bool)
        requires
            self.wf(),
            point.x < self.spec_size(),
            point.y < self.spec_size(),
        ensures
            r == (self.grid()[point.index(self.spec_size())] is None),
    {
        self.get(point).is_none()
    }

    /// Writes `color` into cell `index`, XORing the old stone's key out of
    /// the hash and the new stone's key in, so well-formedness is kept.
    pub fn set(&mut self, index: usize, color: Option<Color>)
        requires
            old(self).wf(),
            index < old(self).grid().len(),
        ensures
            final(self).wf(),
            final(self).spec_size() == old(self).spec_size(),
            final(self).keys() == old(self).keys(),
            final(self).side_keys() == old(self).side_keys(),
            final(self).grid() == old(self).grid().update(index as int, color),
    {
        proof {
            let s = self.spec_size() as int;
            assert(2 * (s * s) == (2 * s) * s) by (nonlinear_arith);
            assert(2 * (index as int) + 1 < self.keys().len());
        }
        if let Some(current) = self.cells[index] {
            self.hash = self.hash ^ self.zobrist.stone(index, current.index());
        }
        if let Some(new_color) = color {
            self.hash = self.hash ^ self.zobrist.stone(index, new_color.index());
        }
        let ghost g1 = self.cells@;
        self.cells[index] = color;
        proof {
            lemma_grid_hash_update(
                self.zobrist.stone_keys(),
                g1,
                self.cells@,
                index as int,
                g1.len() as int,
            );
            lemma_xor_steps(
                old(self).spec_hash(),
                cell_key(self.keys(), g1, index as int),
                cell_key(self.keys(), self.cells@, index as int),
            );
            assert(self.cells@ =~= g1.update(index as int, color));
        }
    }

    /// The grid contents in row-major order.
    pub fn intersections(&self) -> (r: &Vec<Option<Color>>)
        ensures
            r@ == self.grid(),
    {
        &self.cells
    }

    /// A board with the same stones, the same keys and the same hash.
    pub(crate) fn duplicate(&self) -> (r: Board)
        ensures
            r.spec_size() == self.spec_size(),
            r.grid() == self.grid(),
            r.keys() == self.keys(),
            r.side_keys() == self.side_keys(),
            r.spec_hash() == self.spec_hash(),
    {
        let mut cells: Vec<Option<Color>> = Vec::new();
        let mut i: usize = 0;
        while i < self.cells.len()
            invariant
                i <= self.cells@.len(),
                cells@ == self.cells@.subrange(0, i as int),
            decreases self.cells@.len() - i,
        {
            cells.push(self.cells[i]);
            i += 1;
        }
        proof {
            assert(cells@ =~= self.cells@);
        }
        Board { size: self.size, cells, zobrist: self.zobrist.duplicate(), hash: self.hash }
    }

    /// The group of same-colored stones containing the stone at cell
    /// `start`, with its liberties; both lists are empty when the cell is.
    /// Liberties are exactly the empty cells adjacent to the group.
    pub fn group_at(&self, start: usize) -> (r: GroupInfo)
        requires
            self.wf(),
            start < self.grid().len(),
        ensures
            r.stones@.no_duplicates(),
            r.liberties@.no_duplicates(),
            forall|j: int| #[trigger]
                contains_ix(r.stones@, j) <==> in_group(
                    self.grid(),
                    self.spec_size(),
                    start as int,
                    j,
                ),
            forall|l: int| #[trigger]
                contains_ix(r.liberties@, l) <==> group_liberty(
                    self.grid(),
                    self.spec_size(),
                    start as int,
                    l,
                ),
    {
        let ghost g = self.grid();
        let ghost sz = self.spec_size();
        let ghost st = start as int;
        let cell = self.cells[start];
        if cell.is_none() {
            return GroupInfo { stones: Vec::new(), liberties: Vec::new() };
        }
        let (stones, border) = flood(&self.cells, self.size, start, cell);
        let mut liberties: Vec<usize> = Vec::new();
        let mut i: usize = 0;
        while i < border.len()
            invariant
                g == self.cells@,
                sz == self.spec_size(),
                st == start as int,
                1 <= self.spec_size() <= 256,
                g.len() == sz * sz,
                0 <= st < g.len(),
                g[st] == cell,
                cell is Some,
                i <= border@.len(),
                border@.no_duplicates(),
                forall|j: int| #[trigger]
                    contains_ix(border@, j) <==> border_cell(g, cell, sz, st, j),
                liberties@.no_duplicates(),
                forall|l: int| #[trigger]
                    contains_ix(liberties@, l) <==> (exists|k: int|
                        0 <= k < i && #[trigger] border@[k] == l && g[l] is None),
            decreases border@.len() - i,
        {
            let b = border[i];
            proof {
                assert(contains_ix(border@, b as int));
            }
            if self.cells[b].is_none() {
                proof {
                    assert(!contains_ix(liberties@, b as int)) by {
                        if contains_ix(liberties@, b as int) {
                            let k = choose|k: int|
                                0 <= k < i && #[trigger] border@[k] == b as int && g[b as int]
                                    is None;
                            assert(border@[k] == border@[i as int]);
                        }
                    }
                }
                let ghost pre = liberties@;
                liberties.push(b);
                proof {
                    lemma_push_contains(pre, liberties@, b);
                    assert(border@[i as int] == b as int);
                    assert forall|l: int| #[trigger]
                        contains_ix(liberties@, l) implies (exists|k: int|
                        0 <= k < i + 1 && #[trigger] border@[k] == l && g[l] is None) by {
                        if l == b as int {
                            assert(border@[i as int] == l && g[l] is None);
                        } else {
                            let k = choose|k: int|
                                0 <= k < i && #[trigger] border@[k] == l && g[l] is None;
                        }
                    }
                }
            }
            i += 1;
        }
        proof {
            assert forall|l: int| #[trigger]
                contains_ix(liberties@, l) <==> group_liberty(g, sz, st, l) by {
                if contains_ix(liberties@, l) {
                    let k = choose|k: int|
                        0 <= k < border@.len() && #[trigger] border@[k] == l && g[l] is None;
                    assert(contains_ix(border@, l));
                    assert(border_cell(g, cell, sz, st, l));
                    let w = choose|w: int|
                        connected(g, cell, sz, st, w) && #[trigger] adj(sz, w, l);
                    assert(in_group(g, sz, st, w));
                    assert(group_liberty(g, sz, st, l));
                }
                if group_liberty(g, sz, st, l) {
                    let j = choose|j: int| in_group(g, sz, st, j) && #[trigger] adj(sz, j, l);
                    assert(border_cell(g, cell, sz, st, l));
                    assert(contains_ix(border@, l));
                    let k = choose|k: int| 0 <= k < border@.len() && #[trigger] border@[k] == l;
                    assert(contains_ix(liberties@, l));
                }
            }
        }
        GroupInfo { stones, liberties }
    }

    /// Applies a single move of `color` at `point`: validates bounds and
    /// occupancy, places the stone, removes every adjacent opposing group
    /// left without liberties, and only then judges the played stone's own
    /// group, so a capture that frees a liberty legalizes the move. On
    /// success returns the new board and the captured points; this board
    /// itself is never changed.
    #[verifier::loop_isolation(false)]
    pub fn after_play(&self, color: Color, point: Point) -> (r: Result<
        (Board, Vec<Point>),
        RuleViolation,
    >)
        requires
            self.wf(),
        ensures
            after_play_spec(*self, color, point, r),
    {
        let ghost sz = self.spec_size();
        let ghost g0 = self.grid();
        let size = self.size;
        proof {
            assert((point.y as int) * (size as int) + (point.x as int) <= 255 * 256 + 255)
                by (nonlinear_arith)
                requires
                    point.y as int <= 255,
                    point.x as int <= 255,
                    size as int <= 256,
            ;
        }
        let index = point.to_index(size);
        let ghost idxg = point.index(sz);
        if index >= self.cells.len() {
            return Err(RuleViolation::OutOfBounds { point });
        }
        if self.cells[index].is_some() {
            return Err(RuleViolation::Occupied { point });
        }
        let mut next = self.duplicate();
        next.set(index, Some(color));
        let ghost placed = g0.update(idxg, Some(color));
        let ghost acg = after_capture_grid(g0, sz, idxg, color);
        let opp = color.opponent();
        proof {
            assert(color != opp);
            assert(next.grid() == placed);
        }
        let nbrs = cell_neighbors(size, index);
        let mut caps: Vec<Point> = Vec::new();
        let ghost mut d = Set::<int>::empty();
        let mut m: usize = 0;
        while m < nbrs.len()
            invariant
                m <= nbrs@.len(),
                next.wf(),
                next.spec_size() == sz,
                next.keys() == self.keys(),
                next.side_keys() == self.side_keys(),
                next.grid().len() == g0.len(),
                forall|k: int|
                    0 <= k < g0.len() ==> #[trigger] next.grid()[k] == (if d.contains(k) {
                        None::<Color>
                    } else {
                        placed[k]
                    }),
                forall|j: int| #[trigger]
                    d.contains(j) ==> 0 <= j < g0.len() && placed[j] == Some(opp)
                        && captured_by_play(placed, sz, idxg, color, j),
                forall|j: int, j2: int|
                    d.contains(j) && #[trigger] in_group(placed, sz, j, j2) ==> d.contains(j2),
                forall|mm: int, j: int|
                    0 <= mm < m && placed[nbrs@[mm] as int] == Some(opp) && !group_alive(
                        placed,
                        sz,
                        nbrs@[mm] as int,
                    ) && #[trigger] in_group(placed, sz, nbrs@[mm] as int, j) ==> d.contains(j),
                forall|j: int| #[trigger] d.contains(j) <==> contains_pt_ix(caps@, sz, j),
                forall|k: int|
                    0 <= k < caps@.len() ==> (#[trigger] caps@[k]).x < sz && caps@[k].y < sz,
                forall|k1: int, k2: int|
                    0 <= k1 < k2 < caps@.len() ==> (#[trigger] caps@[k1]).index(sz) != (
                    #[trigger] caps@[k2]).index(sz),
            decreases nbrs@.len() - m,
        {
            let nbv = nbrs[m];
            proof {
                assert(adj(sz, idxg, nbv as int));
                assert(in_grid(sz, nbv as int));
            }
            let cell = next.cells[nbv];
            if let Some(st) = cell {
                if st != color {
                    proof {
                        assert(st == opp);
                        assert(!d.contains(nbv as int));
                        assert(placed[nbv as int] == Some(opp));
                    }
                    let ghost ng = next.grid();
                    let info = next.group_at(nbv);
                    proof {
                        assert forall|k: int|
                            d.contains(k) implies !connected(
                            placed,
                            placed[nbv as int],
                            sz,
                            nbv as int,
                            k,
                        ) by {
                            if connected(placed, Some(opp), sz, nbv as int, k) {
                                lemma_connected_sym(placed, Some(opp), sz, nbv as int, k);
                                assert(in_group(placed, sz, k, nbv as int));
                                assert(d.contains(nbv as int));
                            }
                        }
                        lemma_group_frame(placed, ng, sz, d, nbv as int);
                    }
                    if info.liberties.len() == 0 {
                        proof {
                            assert(!group_alive(ng, sz, nbv as int)) by {
                                if group_alive(ng, sz, nbv as int) {
                                    let l = choose|l: int| #[trigger]
                                        group_liberty(ng, sz, nbv as int, l);
                                    assert(contains_ix(info.liberties@, l));
                                }
                            }
                            assert(!group_alive(placed, sz, nbv as int));
                        }
                        let stones = info.stones;
                        let ghost d0 = d;
                        let mut q: usize = 0;
                        while q < stones.len()
                            invariant
                                q <= stones@.len(),
                                next.wf(),
                                next.spec_size() == sz,
                                next.keys() == self.keys(),
                                next.side_keys() == self.side_keys(),
                                next.grid().len() == g0.len(),
                                forall|k: int|
                                    0 <= k < g0.len() ==> #[trigger] next.grid()[k] == (
                                    if d.contains(k) {
                                        None::<Color>
                                    } else {
                                        placed[k]
                                    }),
                                forall|j: int| #[trigger]
                                    d.contains(j) ==> 0 <= j < g0.len() && placed[j] == Some(opp)
                                        && captured_by_play(placed, sz, idxg, color, j),
                                forall|j: int| #[trigger]
                                    d.contains(j) <==> d0.contains(j) || (exists|k: int|
                                        0 <= k < q && #[trigger] stones@[k] == j),
                                forall|j: int| #[trigger]
                                    d.contains(j) <==> contains_pt_ix(caps@, sz, j),
                                forall|k: int|
                                    0 <= k < caps@.len() ==> (#[trigger] caps@[k]).x < sz
                                        && caps@[k].y < sz,
                                forall|k1: int, k2: int|
                                    0 <= k1 < k2 < caps@.len() ==> (#[trigger] caps@[k1]).index(
                                        sz,
                                    ) != (#[trigger] caps@[k2]).index(sz),
                            decreases stones@.len() - q,
                        {
                            let sidx = stones[q];
                            proof {
                                assert(stones@[q as int] == sidx);
                                assert(contains_ix(stones@, sidx as int));
                                assert(in_group(ng, sz, nbv as int, sidx as int));
                                assert(in_group(placed, sz, nbv as int, sidx as int));
                                lemma_connected_ends(placed, Some(opp), sz, nbv as int, sidx as int);
                                assert(cell_matches(placed, Some(opp), sidx as int));
                                assert(!d.contains(sidx as int)) by {
                                    if d.contains(sidx as int) {
                                        if d0.contains(sidx as int) {
                                            lemma_group_same(placed, sz, nbv as int, sidx as int);
                                            assert(in_group(placed, sz, sidx as int, nbv as int));
                                            assert(d0.contains(nbv as int));
                                        } else {
                                            let k = choose|k: int|
                                                0 <= k < q && #[trigger] stones@[k] == sidx as int;
                                            assert(stones@[k] == stones@[q as int]);
                                        }
                                    }
                                }
                                assert(next.grid()[sidx as int] == placed[sidx as int]);
                                assert(sidx < next.grid().len());
                            }
                            next.set(sidx, None);
                            let pt = Point::from_index(sidx, size);
                            let ghost caps0 = caps@;
                            let ghost dpre = d;
                            caps.push(pt);
                            proof {
                                d = d.insert(sidx as int);
                                lemma_push_pt(caps0, caps@, pt, sz);
                                assert(pt.index(sz) == sidx as int);
                                assert(captured_by_play(placed, sz, idxg, color, sidx as int)) by {
                                    assert(adj(sz, idxg, nbv as int) && placed[nbv as int] == Some(
                                        opp,
                                    ) && !group_alive(placed, sz, nbv as int) && in_group(
                                        placed,
                                        sz,
                                        nbv as int,
                                        sidx as int,
                                    ));
                                }
                                assert forall|k1: int, k2: int|
                                    0 <= k1 < k2 < caps@.len() implies (#[trigger] caps@[k1]).index(
                                    sz,
                                ) != (#[trigger] caps@[k2]).index(sz) by {
                                    if k2 == caps@.len() - 1 {
                                        assert(caps@[k1] == caps0[k1]);
                                        assert(contains_pt_ix(caps0, sz, caps0[k1].index(sz)));
                                        assert(dpre.contains(caps0[k1].index(sz)));
                                    }
                                }
                                assert forall|j: int| #[trigger]
                                    d.contains(j) implies d0.contains(j) || (exists|k: int|
                                    0 <= k < q + 1 && #[trigger] stones@[k] == j) by {
                                    if j == sidx as int {
                                        assert(stones@[q as int] == j);
                                    } else {
                                        assert(dpre.contains(j));
                                        if !d0.contains(j) {
                                            let k = choose|k: int|
                                                0 <= k < q && #[trigger] stones@[k] == j;
                                        }
                                    }
                                }
                            }
                            q += 1;
                        }
                        proof {
                            assert forall|j: int|
                                in_group(placed, sz, nbv as int, j) implies d.contains(j) by {
                                assert(in_group(ng, sz, nbv as int, j));
                                assert(contains_ix(stones@, j));
                                let k = choose|k: int|
                                    0 <= k < stones@.len() && #[trigger] stones@[k] == j;
                            }
                            assert forall|j: int, j2: int|
                                d.contains(j) && #[trigger] in_group(placed, sz, j, j2) implies d
                                .contains(j2) by {
                                if d0.contains(j) {
                                    assert(d0.contains(j2));
                                } else {
                                    let k = choose|k: int|
                                        0 <= k < stones@.len() && #[trigger] stones@[k] == j;
                                    assert(contains_ix(stones@, j));
                                    assert(in_group(ng, sz, nbv as int, j));
                                    assert(in_group(placed, sz, nbv as int, j));
                                    lemma_group_same(placed, sz, nbv as int, j);
                                    assert(in_group(placed, sz, nbv as int, j2));
                                }
                            }
                        }
                    } else {
                        proof {
                            let l0 = info.liberties@[0];
                            assert(contains_ix(info.liberties@, l0 as int));
                            assert(group_liberty(ng, sz, nbv as int, l0 as int));
                            assert(group_alive(ng, sz, nbv as int));
                            assert(group_alive(placed, sz, nbv as int));
                        }
                    }
                } else {
                    proof {
                        assert(!d.contains(nbv as int));
                        assert(placed[nbv as int] == Some(color));
                        assert(placed[nbv as int] != Some(opp));
                    }
                }
            } else {
                proof {
                    if placed[nbv as int] == Some(opp) {
                        assert(d.contains(nbv as int));
                        assert forall|j: int|
                            in_group(placed, sz, nbv as int, j) implies d.contains(j) by {}
                    }
                }
            }
            m += 1;
        }
        proof {
            assert forall|j: int|
                captured_by_play(placed, sz, idxg, color, j) implies d.contains(j) by {
                let nn = choose|nn: int|
                    #[trigger] adj(sz, idxg, nn) && placed[nn] == Some(opp) && !group_alive(
                        placed,
                        sz,
                        nn,
                    ) && in_group(placed, sz, nn, j);
                assert(contains_ix(nbrs@, nn));
                let k = choose|k: int| 0 <= k < nbrs@.len() && #[trigger] nbrs@[k] == nn;
                assert(in_group(placed, sz, nbrs@[k] as int, j));
            }
            assert(next.grid() =~= acg);
            assert(next.grid() == acg);
        }
        let own = next.group_at(index);
        if own.liberties.len() == 0 {
            proof {
                assert(!group_alive(acg, sz, idxg)) by {
                    if group_alive(acg, sz, idxg) {
                        let l = choose|l: int| #[trigger] group_liberty(acg, sz, idxg, l);
                        assert(contains_ix(own.liberties@, l));
                    }
                }
            }
            return Err(RuleViolation::Suicide { point });
        }
        proof {
            let l0 = own.liberties@[0];
            assert(contains_ix(own.liberties@, l0 as int));
            assert(group_liberty(acg, sz, idxg, l0 as int));
            assert(group_alive(acg, sz, idxg));
            assert forall|j: int| #[trigger]
                contains_pt_ix(caps@, sz, j) implies captured_by_play(
                placed,
                sz,
                idxg,
                color,
                j,
            ) by {
                assert(d.contains(j));
            }
            assert forall|j: int|
                captured_by_play(placed, sz, idxg, color, j) implies contains_pt_ix(
                caps@,
                sz,
                j,
            ) by {
                assert(d.contains(j));
            }
        }
        Ok((next, caps))
    }

    /// Partitions the empty intersections into maximal connected regions
    /// and assigns each region to a color exactly when every stone it
    /// borders is of that one color; all other cells are neutral. Dead
    /// stones are not removed: scoring trusts the literal positions.
    #[verifier::loop_isolation(false)]
    #[verifier::rlimit(100)]
    pub fn territory_map(&self) -> (r: Vec<Option<Color>>)
        requires
            self.wf(),
        ensures
            r@.len() == self.grid().len(),
            forall|i: int|
                0 <= i < r@.len() ==> r@[i] == territory_owner(
                    self.grid(),
                    self.spec_size(),
                    i,
                ),
    {
        let ghost g = self.grid();
        let ghost sz = self.spec_size();
        let n = self.cells.len();
        let mut owner: Vec<Option<Color>> = Vec::new();
        let mut w: usize = 0;
        while w < n
            invariant
                w <= n,
                owner@.len() == w,
                forall|k: int| 0 <= k < w ==> owner@[k] is None,
            decreases n - w,
        {
            owner.push(None);
            w += 1;
        }
        let mut visited = make_bool_vec(n);
        let mut i: usize = 0;
        while i < n
            invariant
                i <= n,
                owner@.len() == n,
                visited@.len() == n,
                forall|k: int| 0 <= k < n && g[k] is Some ==> owner@[k] is None,
                forall|k: int|
                    0 <= k < n && g[k] is None && visited@[k] ==> owner@[k] == territory_owner(
                        g,
                        sz,
                        k,
                    ),
                forall|k: int|
                    0 <= k < n && g[k] is None && !visited@[k] ==> owner@[k] is None,
                forall|k: int, k2: int|
                    0 <= k < n && g[k] is None && visited@[k] && #[trigger] connected(
                        g,
                        None,
                        sz,
                        k,
                        k2,
                    ) ==> 0 <= k2 < n && visited@[k2],
                forall|k: int| 0 <= k < i && g[k] is None ==> visited@[k],
            decreases n - i,
        {
            if self.cells[i].is_none() && !visited[i] {
                let ghost visited0 = visited@;
                let ghost owner0 = owner@;
                let (region, border) = flood(&self.cells, self.size, i, None);
                proof {
                    lemma_connected_self(g, None, sz, i as int);
                    assert(contains_ix(region@, i as int));
                    assert forall|k: int|
                        #[trigger] contains_ix(region@, k) implies 0 <= k < n && g[k] is None
                        && !visited0[k] by {
                        lemma_connected_ends(g, None, sz, i as int, k);
                        if visited0[k] {
                            lemma_connected_sym(g, None, sz, i as int, k);
                            assert(visited0[i as int]);
                        }
                    }
                }
                let (has_black, has_white) = scan_border(&self.cells, self.size, Ghost(i as int), &border);
                let region_owner: Option<Color> = if has_black && !has_white {
                    Some(Color::Black)
                } else if has_white && !has_black {
                    Some(Color::White)
                } else {
                    None
                };
                proof {
                    assert(region_owner == territory_owner(g, sz, i as int));
                    assert forall|k: int|
                        #[trigger] contains_ix(region@, k) implies territory_owner(g, sz, k)
                        == region_owner by {
                        lemma_region_same(g, sz, i as int, k);
                    }
                    assert forall|k: int|
                        0 <= k < region@.len() implies #[trigger] region@[k] < n by {
                        assert(contains_ix(region@, region@[k] as int));
                    }
                }
                paint_region(&mut owner, &mut visited, &region, region_owner);
                proof {
                    assert forall|k: int, k2: int|
                        0 <= k < n && g[k] is None && visited@[k] && #[trigger] connected(
                        g,
                        None,
                        sz,
                        k,
                        k2,
                    ) implies 0 <= k2 < n && visited@[k2] by {
                        lemma_connected_ends(g, None, sz, k, k2);
                        if !contains_ix(region@, k) {
                            assert(visited0[k]);
                            assert(visited0[k2]);
                            if contains_ix(region@, k2) {
                                assert(!visited0[k2]);
                            }
                            assert(visited@[k2]);
                        } else {
                            lemma_connected_trans(g, None, sz, i as int, k, k2);
                            assert(contains_ix(region@, k2));
                        }
                    }
                    assert(visited@[i as int]);
                    assert forall|k: int| 0 <= k < n && visited0[k] implies visited@[k] by {
                        if !contains_ix(region@, k) {
                            assert(visited@[k] == visited0[k]);
                        }
                    }
                    assert forall|k: int|
                        0 <= k < n && g[k] is None && visited@[k] implies owner@[k]
                        == territory_owner(g, sz, k) by {
                        if !contains_ix(region@, k) {
                            assert(owner@[k] == owner0[k] && visited@[k] == visited0[k]);
                        }
                    }
                    assert forall|k: int|
                        0 <= k < n && g[k] is Some implies owner@[k] is None by {
                        if contains_ix(region@, k) {
                            assert(g[k] is None);
                        } else {
                            assert(owner@[k] == owner0[k]);
                        }
                    }
                    assert forall|k: int|
                        0 <= k < n && g[k] is None && !visited@[k] implies owner@[k] is None by {
                        if contains_ix(region@, k) {
                            assert(visited@[k]);
                        } else {
                            assert(owner@[k] == owner0[k] && visited@[k] == visited0[k]);
                        }
                    }
                }
            }
            i += 1;
        }
        proof {
            assert forall|k: int|
                0 <= k < n implies owner@[k] == territory_owner(g, sz, k) by {
                if g[k] is Some {
                    assert(owner@[k] is None);
                } else {
                    assert(visited@[k]);
                }
            }
        }
        owner
    }

    /// The orthogonal neighbors of cell `index`: every cell adjacent to it
    /// and no other, each listed once.
    pub fn neighbors(&self, index: usize) -> (r: Vec<usize>)
        requires
            self.wf(),
            index < self.grid().len(),
        ensures
            r@.no_duplicates(),
            forall|k: int|
                0 <= k < r@.len() ==> adj(self.spec_size(), index as int, #[trigger] r@[k] as int),
            forall|j: int| adj(self.spec_size(), index as int, j) ==> contains_ix(r@, j),
    {
        cell_neighbors(self.size, index)
    }
}

/// `point` lies inside the grid when both axes are below `size`.
proof fn lemma_point_index_in_grid(size: nat, point: Point)
    requires
        point.x < size,
        point.y < size,
        size <= 256,
    ensures
        0 <= point.index(size) < size * size,
        point.index(size) <= usize::MAX,
{
    assert((point.y as int) * (size as int) + (point.x as int) < (size as int) * (size as int))
        by (nonlinear_arith)
        requires
            (point.x as int) < (size as int),
            (point.y as int) < (size as int),
    ;
    assert((size as int) * (size as int) <= 65536) by (nonlinear_arith)
        requires
            size as int <= 256,
    ;
}

/// Two XOR toggles amount to the hash update that `lemma_grid_hash_update`
/// describes, whatever the order of the toggles.
proof fn lemma_xor_steps(h: u64, a: u64, b: u64)
    ensures
        (h ^ a) ^ b == (h ^ b) ^ a,
        h ^ 0u64 == h,
        (h ^ a) ^ 0u64 == h ^ a,
        (h ^ 0u64) ^ b == h ^ b,
{
    assert((h ^ a) ^ b == (h ^ b) ^ a && h ^ 0u64 == h && (h ^ a) ^ 0u64 == h ^ a && (h ^ 0u64)
        ^ b == h ^ b) by (bit_vector);
}

/// The orthogonal neighbors of cell `index` on a `size`-sided board.
fn cell_neighbors(size: usize, index: usize) -> (r: Vec<usize>)
    requires
        1 <= size <= 256,
        index < size * size,
    ensures
        r@.no_duplicates(),
        forall|k: int| 0 <= k < r@.len() ==> adj(size as nat, index as int, #[trigger] r@[k] as int),
        forall|j: int| adj(size as nat, index as int, j) ==> contains_ix(r@, j),
{
    let x = index % size;
    let y = index / size;
    proof {
        vstd::arithmetic::div_mod::lemma_fundamental_div_mod(index as int, size as int);
        assert((index as int) / (size as int) < size as int) by (nonlinear_arith)
            requires
                1 <= size as int,
                (index as int) < (size as int) * (size as int),
        ;
        lemma_rows(size as nat, index as int, x as int, y as int);
        assert((size as int) * (size as int) <= 65536) by (nonlinear_arith)
            requires
                size as int <= 256,
        ;
    }
    let mut r: Vec<usize> = Vec::new();
    if x > 0 {
        r.push(index - 1);
    }
    if x + 1 < size {
        r.push(index + 1);
    }
    if y > 0 {
        r.push(index - size);
    }
    if y + 1 < size {
        r.push(index + size);
    }
    proof {
        lemma_cell_neighbors_exact(size as nat, index as int, x as int, y as int, r@);
    }
    r
}

/// The four candidate cells around `(x, y)`, filtered by the edge tests,
/// are exactly the adjacency relation at `index`.
proof fn lemma_cell_neighbors_exact(size: nat, index: int, x: int, y: int, r: Seq<usize>)
    requires
        1 <= size <= 256,
        0 <= index < size * size,
        index == y * size + x,
        0 <= x < size,
        0 <= y < size,
        r =~= neighbor_candidates(size, index, x, y),
    ensures
        r.no_duplicates(),
        forall|k: int| 0 <= k < r.len() ==> adj(size, index, #[trigger] r[k] as int),
        forall|j: int| adj(size, index, j) ==> contains_ix(r, j),
{
    lemma_rows(size, index, x, y);
    assert((size as int) * (size as int) <= 65536) by (nonlinear_arith)
        requires
            size <= 256,
    ;
    assert forall|j: int| adj(size, index, j) implies contains_ix(r, j) by {
        lemma_adj_cases(size, index, x, y, j);
        if j == index - 1 {
            assert(r[0] == j);
        } else if j == index + 1 {
            let k = if x > 0 { 1int } else { 0int };
            assert(r[k] == j);
        } else if j == index - size {
            let k = (if x > 0 { 1int } else { 0int }) + (if x + 1 < size { 1int } else { 0int });
            assert(r[k] == j);
        } else {
            let k = (if x > 0 { 1int } else { 0int }) + (if x + 1 < size { 1int } else { 0int })
                + (if y > 0 { 1int } else { 0int });
            assert(r[k] == j);
        }
    }
}

/// The neighbor list that `cell_neighbors` builds, as a pure sequence.
spec fn neighbor_candidates(size: nat, index: int, x: int, y: int) -> Seq<usize> {
    let a = if x > 0 {
        seq![(index - 1) as usize]
    } else {
        Seq::<usize>::empty()
    };
    let b = if x + 1 < size {
        a + seq![(index + 1) as usize]
    } else {
        a
    };
    let c = if y > 0 {
        b + seq![(index - size) as usize]
    } else {
        b
    };
    if y + 1 < size {
        c + seq![(index + size) as usize]
    } else {
        c
    }
}

/// Row and in-range facts for the four candidate neighbor cells.
pub(crate) proof fn lemma_rows(size: nat, index: int, x: int, y: int)
    requires
        1 <= size <= 256,
        0 <= index < size * size,
        index == y * size + x,
        0 <= x < size,
        0 <= y < size,
    ensures
        index / (size as int) == y,
        x > 0 ==> in_grid(size, index - 1) && (index - 1) / (size as int) == y && adj(
            size,
            index,
            index - 1,
        ),
        x + 1 < size ==> in_grid(size, index + 1) && (index + 1) / (size as int) == y && adj(
            size,
            index,
            index + 1,
        ),
        y > 0 ==> in_grid(size, index - size) && adj(size, index, index - size),
        y + 1 < size ==> in_grid(size, index + size) && adj(size, index, index + size),
        y + 1 >= size ==> !in_grid(size, index + size),
{
    let s = size as int;
    vstd::arithmetic::div_mod::lemma_fundamental_div_mod_converse(index, s, y, x);
    if x > 0 {
        vstd::arithmetic::div_mod::lemma_fundamental_div_mod_converse(index - 1, s, y, x - 1);
        assert(0 <= index - 1 < size * size);
    }
    if x + 1 < size {
        vstd::arithmetic::div_mod::lemma_fundamental_div_mod_converse(index + 1, s, y, x + 1);
        assert(index + 1 < s * s) by (nonlinear_arith)
            requires
                index + 1 == y * s + (x + 1),
                0 <= x + 1 < s,
                0 <= y < s,
        ;
    }
    if y > 0 {
        assert(index - s == (y - 1) * s + x && index - s >= 0) by (nonlinear_arith)
            requires
                index == y * s + x,
                1 <= y,
                0 <= x,
                s >= 1,
        ;
        assert(0 <= index - size < size * size);
    }
    if y + 1 < size {
        assert(index + s == (y + 1) * s + x && index + s < s * s) by (nonlinear_arith)
            requires
                index == y * s + x,
                0 <= y,
                y + 1 < s,
                0 <= x < s,
        ;
        assert(in_grid(size, index + size));
    } else {
        assert(index + s >= s * s) by (nonlinear_arith)
            requires
                index == y * s + x,
                y + 1 >= s,
                x >= 0,
                s >= 1,
        ;
    }
}

/// Whether two intersection contents are the same.
fn cell_eq(a: Option<Color>, b: Option<Color>) -> (r: bool)
    ensures
        r == (a == b),
{
    match (a, b) {
        (None, None) => true,
        (Some(Color::Black), Some(Color::Black)) => true,
        (Some(Color::White), Some(Color::White)) => true,
        _ => false,
    }
}

/// A vector of `n` cleared marks.
fn make_bool_vec(n: usize) -> (r: Vec<bool>)
    ensures
        r@.len() == n,
        forall|k: int| 0 <= k < n ==> !r@[k],
{
    let mut r: Vec<bool> = Vec::new();
    let mut i: usize = 0;
    while i < n
        invariant
            i <= n,
            r@.len() == i,
            forall|k: int| 0 <= k < i ==> !r@[k],
        decreases n - i,
    {
        r.push(false);
        i += 1;
    }
    r
}

/// A duplicate-free sequence of values below `n` has at most `n` elements.
pub(crate) proof fn lemma_distinct_bounded(s: Seq<usize>, n: nat)
    requires
        s.no_duplicates(),
        forall|k: int| 0 <= k < s.len() ==> (#[trigger] s[k]) < n,
    ensures
        s.len() <= n,
    decreases n,
{
    if n == 0 {
        if s.len() > 0 {
            assert(s[0] < 0);
        }
    } else {
        let v = (n - 1) as usize;
        if s.contains(v) {
            let i = choose|i: int| 0 <= i < s.len() && s[i] == v;
            let s2 = s.remove(i);
            assert forall|k: int| 0 <= k < s2.len() implies (#[trigger] s2[k]) < (n - 1) as nat by {
                if k < i {
                    assert(s2[k] == s[k]);
                    assert(s[k] != v);
                } else {
                    assert(s2[k] == s[k + 1]);
                    assert(s[k + 1] != v);
                }
            }
            assert(s2.no_duplicates()) by {
                assert forall|a: int, b: int|
                    0 <= a < s2.len() && 0 <= b < s2.len() && a != b implies s2[a] != s2[b] by {
                    let a1 = if a < i { a } else { a + 1 };
                    let b1 = if b < i { b } else { b + 1 };
                    assert(s2[a] == s[a1] && s2[b] == s[b1]);
                }
            }
            lemma_distinct_bounded(s2, (n - 1) as nat);
        } else {
            assert forall|k: int| 0 <= k < s.len() implies (#[trigger] s[k]) < (n - 1) as nat by {
                assert(s[k] != v);
            }
            lemma_distinct_bounded(s, (n - 1) as nat);
        }
    }
}

/// Popping `cur` off the search stack and pushing it onto the finished
/// region keeps both lists duplicate-free and disjoint and leaves their
/// union unchanged.
proof fn lemma_pop_push_sets(s0: Seq<usize>, s1: Seq<usize>, r0: Seq<usize>, r1: Seq<usize>, cur: usize)
    requires
        s0.len() > 0,
        s1 == s0.subrange(0, s0.len() - 1),
        s0[s0.len() - 1] == cur,
        r1 == r0.push(cur),
        s0.no_duplicates(),
        r0.no_duplicates(),
        forall|j: int| contains_ix(s0, j) ==> !contains_ix(r0, j),
    ensures
        s1.no_duplicates(),
        r1.no_duplicates(),
        forall|j: int| contains_ix(s1, j) ==> !contains_ix(r1, j),
        forall|j: int|
            (contains_ix(s1, j) || contains_ix(r1, j)) <==> (contains_ix(s0, j) || contains_ix(
                r0,
                j,
            )),
        contains_ix(r1, cur as int),
        forall|j: int| contains_ix(r1, j) <==> contains_ix(r0, j) || j == cur as int,
        forall|j: int| contains_ix(s1, j) ==> contains_ix(s0, j),
{
    assert(s0[s0.len() - 1] == cur && 0 <= s0.len() - 1 < s0.len());
    assert(contains_ix(s0, cur as int));
    assert(!contains_ix(r0, cur as int));
    assert(r1[r1.len() - 1] == cur);
    assert(contains_ix(r1, cur as int));
    assert forall|j: int| contains_ix(s1, j) implies contains_ix(s0, j) && j != cur as int by {
        let k = choose|k: int| 0 <= k < s1.len() && s1[k] == j;
        assert(s0[k] == j);
        assert(s0[k] != s0[s0.len() - 1]);
    }
    assert forall|j: int| contains_ix(r1, j) implies contains_ix(r0, j) || j == cur as int by {
        let k = choose|k: int| 0 <= k < r1.len() && r1[k] == j;
        if k < r0.len() {
            assert(r0[k] == j);
        }
    }
    assert forall|j: int| contains_ix(r0, j) implies contains_ix(r1, j) by {
        let k = choose|k: int| 0 <= k < r0.len() && r0[k] == j;
        assert(r1[k] == j);
    }
    assert(r1.no_duplicates()) by {
        assert forall|a: int, b: int|
            0 <= a < r1.len() && 0 <= b < r1.len() && a != b implies r1[a] != r1[b] by {
            if b == r1.len() - 1 && a < r0.len() {
                assert(r1[a] == r0[a]);
                assert(contains_ix(r0, r0[a] as int));
            } else if a == r1.len() - 1 && b < r0.len() {
                assert(r1[b] == r0[b]);
                assert(contains_ix(r0, r0[b] as int));
            }
        }
    }
    assert forall|j: int| contains_ix(s0, j) implies contains_ix(s1, j) || j == cur as int by {
        let k = choose|k: int| 0 <= k < s0.len() && s0[k] == j;
        if k < s0.len() - 1 {
            assert(s1[k] == j);
        }
    }
    assert forall|j: int|
        contains_ix(s1, j) || contains_ix(r1, j) implies contains_ix(s0, j) || contains_ix(
        r0,
        j,
    ) by {}
    assert forall|j: int|
        contains_ix(s0, j) || contains_ix(r0, j) implies contains_ix(s1, j) || contains_ix(
        r1,
        j,
    ) by {}
}

/// Appending a fresh value to a duplicate-free list keeps it duplicate-free
/// and grows its membership by exactly that value.
proof fn lemma_push_contains(s0: Seq<usize>, s1: Seq<usize>, v: usize)
    requires
        s1 == s0.push(v),
        s0.no_duplicates(),
        !contains_ix(s0, v as int),
    ensures
        s1.no_duplicates(),
        forall|j: int| contains_ix(s1, j) <==> contains_ix(s0, j) || j == v as int,
{
    assert(s1[s1.len() - 1] == v);
    assert forall|j: int| contains_ix(s1, j) implies contains_ix(s0, j) || j == v as int by {
        let k = choose|k: int| 0 <= k < s1.len() && s1[k] == j;
        if k < s0.len() {
            assert(s0[k] == j);
        }
    }
    assert forall|j: int| contains_ix(s0, j) implies contains_ix(s1, j) by {
        let k = choose|k: int| 0 <= k < s0.len() && s0[k] == j;
        assert(s1[k] == j);
    }
    assert(s1.no_duplicates()) by {
        assert forall|a: int, b: int|
            0 <= a < s1.len() && 0 <= b < s1.len() && a != b implies s1[a] != s1[b] by {
            if b == s1.len() - 1 && a < s0.len() {
                assert(s1[a] == s0[a]);
                assert(contains_ix(s0, s0[a] as int));
            } else if a == s1.len() - 1 && b < s0.len() {
                assert(s1[b] == s0[b]);
                assert(contains_ix(s0, s0[b] as int));
            }
        }
    }
}

/// Appending a point grows the captured index set by exactly its own index.
proof fn lemma_push_pt(c0: Seq<Point>, c1: Seq<Point>, p: Point, size: nat)
    requires
        c1 == c0.push(p),
    ensures
        forall|j: int|
            contains_pt_ix(c1, size, j) <==> contains_pt_ix(c0, size, j) || j == p.index(size),
{
    assert(c1[c1.len() - 1] == p);
    assert(contains_pt_ix(c1, size, p.index(size)));
    assert forall|j: int|
        contains_pt_ix(c1, size, j) implies contains_pt_ix(c0, size, j) || j == p.index(
        size,
    ) by {
        let k = choose|k: int| 0 <= k < c1.len() && (#[trigger] c1[k]).index(size) == j;
        if k < c0.len() {
            assert(c0[k].index(size) == j);
        }
    }
    assert forall|j: int|
        contains_pt_ix(c0, size, j) implies contains_pt_ix(c1, size, j) by {
        let k = choose|k: int| 0 <= k < c0.len() && (#[trigger] c0[k]).index(size) == j;
        assert(c1[k].index(size) == j);
    }
}

/// Flood fill from `start` over cells holding exactly `target`: returns the
/// whole reachable region and its border, each cell listed once. The region
/// is precisely the set of cells connected to `start`; the border is
/// precisely the non-matching cells touching the region.
fn flood(cells: &Vec<Option<Color>>, size: usize, start: usize, target: Option<Color>) -> (r: (
    Vec<usize>,
    Vec<usize>,
))
    requires
        1 <= size <= 256,
        cells@.len() == size * size,
        start < cells@.len(),
        cells@[start as int] == target,
    ensures
        r.0@.no_duplicates(),
        r.1@.no_duplicates(),
        forall|j: int| #[trigger]
            contains_ix(r.0@, j) <==> connected(cells@, target, size as nat, start as int, j),
        forall|j: int| #[trigger]
            contains_ix(r.1@, j) <==> border_cell(cells@, target, size as nat, start as int, j),
{
    let ghost g = cells@;
    let ghost sz = size as nat;
    let ghost st = start as int;
    let n = cells.len();
    let mut visited = make_bool_vec(n);
    let mut stack: Vec<usize> = Vec::new();
    let mut region: Vec<usize> = Vec::new();
    let mut border: Vec<usize> = Vec::new();
    visited[start] = true;
    stack.push(start);
    proof {
        lemma_connected_self(g, target, sz, st);
        assert(stack@[0] == start);
        assert(contains_ix(stack@, st));
        assert(forall|j: int| contains_ix(stack@, j) ==> j == st);
    }
    while stack.len() > 0
        invariant
            1 <= size <= 256,
            g == cells@,
            sz == size as nat,
            st == start as int,
            n == g.len(),
            g.len() == size * size,
            start < n,
            g[st] == target,
            visited@.len() == n,
            forall|k: int|
                0 <= k < stack@.len() ==> cell_matches(g, target, #[trigger] stack@[k] as int),
            forall|k: int|
                0 <= k < region@.len() ==> cell_matches(g, target, #[trigger] region@[k] as int),
            forall|k: int|
                0 <= k < border@.len() ==> 0 <= #[trigger] border@[k] < n && g[border@[k] as int]
                    != target,
            stack@.no_duplicates(),
            region@.no_duplicates(),
            border@.no_duplicates(),
            forall|j: int| contains_ix(stack@, j) ==> !contains_ix(region@, j),
            forall|k: int|
                0 <= k < n ==> (visited@[k] <==> (contains_ix(stack@, k) || contains_ix(
                    region@,
                    k,
                ) || contains_ix(border@, k))),
            forall|j: int|
                contains_ix(stack@, j) || contains_ix(region@, j) ==> connected(
                    g,
                    target,
                    sz,
                    st,
                    j,
                ),
            forall|j: int| contains_ix(border@, j) ==> border_cell(g, target, sz, st, j),
            forall|e: int, j: int|
                contains_ix(region@, e) && #[trigger] adj(sz, e, j) ==> visited@[j],
            contains_ix(stack@, st) || contains_ix(region@, st),
        decreases n - region@.len(),
    {
        let ghost stack0 = stack@;
        let ghost region0 = region@;
        let cur = stack.pop().unwrap();
        region.push(cur);
        proof {
            lemma_pop_push_sets(stack0, stack@, region0, region@, cur);
            lemma_distinct_bounded(region@, n as nat);
            assert(cell_matches(g, target, cur as int));
            assert(connected(g, target, sz, st, cur as int));
            assert forall|k: int|
                0 <= k < n implies (visited@[k] <==> (contains_ix(stack@, k) || contains_ix(
                region@,
                k,
            ) || contains_ix(border@, k))) by {
                assert(visited@[k] <==> (contains_ix(stack0, k) || contains_ix(region0, k)
                    || contains_ix(border@, k)));
            }
        }
        let nbrs = cell_neighbors(size, cur);
        let mut t: usize = 0;
        while t < nbrs.len()
            invariant
                1 <= size <= 256,
                g == cells@,
                sz == size as nat,
                st == start as int,
                n == g.len(),
                g.len() == size * size,
                start < n,
                g[st] == target,
                visited@.len() == n,
                cur < n,
                contains_ix(region@, cur as int),
                connected(g, target, sz, st, cur as int),
                t <= nbrs@.len(),
                nbrs@.no_duplicates(),
                forall|k: int|
                    0 <= k < nbrs@.len() ==> adj(sz, cur as int, #[trigger] nbrs@[k] as int),
                forall|j: int| adj(sz, cur as int, j) ==> contains_ix(nbrs@, j),
                forall|k: int|
                    0 <= k < stack@.len() ==> cell_matches(g, target, #[trigger] stack@[k] as int),
                forall|k: int|
                    0 <= k < region@.len() ==> cell_matches(
                        g,
                        target,
                        #[trigger] region@[k] as int,
                    ),
                forall|k: int|
                    0 <= k < border@.len() ==> 0 <= #[trigger] border@[k] < n && g[border@[k]
                        as int] != target,
                stack@.no_duplicates(),
                region@.no_duplicates(),
                border@.no_duplicates(),
                forall|j: int| contains_ix(stack@, j) ==> !contains_ix(region@, j),
                forall|k: int|
                    0 <= k < n ==> (visited@[k] <==> (contains_ix(stack@, k) || contains_ix(
                        region@,
                        k,
                    ) || contains_ix(border@, k))),
                forall|j: int|
                    contains_ix(stack@, j) || contains_ix(region@, j) ==> connected(
                        g,
                        target,
                        sz,
                        st,
                        j,
                    ),
                forall|j: int| contains_ix(border@, j) ==> border_cell(g, target, sz, st, j),
                forall|e: int, j: int|
                    contains_ix(region@, e) && e != cur as int && #[trigger] adj(sz, e, j)
                        ==> visited@[j],
                forall|k: int| 0 <= k < t ==> visited@[#[trigger] nbrs@[k] as int],
                contains_ix(stack@, st) || contains_ix(region@, st),
            decreases nbrs@.len() - t,
        {
            let nb = nbrs[t];
            proof {
                assert(adj(sz, cur as int, nb as int));
                assert(in_grid(sz, nb as int));
            }
            if !visited[nb] {
                proof {
                    assert(!contains_ix(stack@, nb as int) && !contains_ix(region@, nb as int)
                        && !contains_ix(border@, nb as int));
                }
                visited[nb] = true;
                if cell_eq(cells[nb], target) {
                    proof {
                        lemma_connected_step(g, target, sz, st, cur as int, nb as int);
                    }
                    let ghost pre = stack@;
                    stack.push(nb);
                    proof {
                        lemma_push_contains(pre, stack@, nb);
                    }
                } else {
                    let ghost pre = border@;
                    border.push(nb);
                    proof {
                        lemma_push_contains(pre, border@, nb);
                        assert(border_cell(g, target, sz, st, nb as int));
                    }
                }
            }
            t += 1;
        }
        proof {
            assert forall|e: int, j: int|
                contains_ix(region@, e) && #[trigger] adj(sz, e, j) implies visited@[j] by {
                if e == cur as int {
                    assert(contains_ix(nbrs@, j));
                    let k = choose|k: int| 0 <= k < nbrs@.len() && nbrs@[k] == j;
                    assert(visited@[nbrs@[k] as int]);
                }
            }
        }
    }
    proof {
        let s = Set::new(|j: int| contains_ix(region@, j));
        assert(contains_ix(region@, st));
        assert forall|i: int, j: int|
            s.contains(i) && #[trigger] adj(sz, i, j) && cell_matches(g, target, j) implies s
            .contains(j) by {
            assert(visited@[j]);
            assert(!contains_ix(border@, j));
        }
        assert forall|j: int|
            connected(g, target, sz, st, j) implies contains_ix(region@, j) by {
            lemma_connected_in_closed_set(g, target, sz, s, st, j);
        }
        assert forall|j: int| border_cell(g, target, sz, st, j) implies contains_ix(
            border@,
            j,
        ) by {
            let i = choose|i: int| connected(g, target, sz, st, i) && #[trigger] adj(sz, i, j);
            assert(contains_ix(region@, i));
            assert(visited@[j]);
            assert(!contains_ix(stack@, j) && !contains_ix(region@, j));
        }
    }
    (region, border)
}

/// Which stone colors border the empty region of `st`, read off the
/// region's full border list.
fn scan_border(
    cells: &Vec<Option<Color>>,
    size: usize,
    Ghost(st): Ghost<int>,
    border: &Vec<usize>,
) -> (r: (bool, bool))
    requires
        1 <= size <= 256,
        cells@.len() == size * size,
        0 <= st < cells@.len(),
        forall|j: int| #[trigger]
            contains_ix(border@, j) <==> border_cell(cells@, None, size as nat, st, j),
    ensures
        r.0 == region_touches(cells@, size as nat, st, Color::Black),
        r.1 == region_touches(cells@, size as nat, st, Color::White),
{
    let ghost g = cells@;
    let ghost sz = size as nat;
    let mut has_black = false;
    let mut has_white = false;
    let mut t: usize = 0;
    while t < border.len()
        invariant
            t <= border@.len(),
            g == cells@,
            sz == size as nat,
            forall|j: int| #[trigger] contains_ix(border@, j) <==> border_cell(g, None, sz, st, j),
            0 <= st < g.len(),
            has_black == exists|k: int|
                0 <= k < t && g[#[trigger] border@[k] as int] == Some(Color::Black),
            has_white == exists|k: int|
                0 <= k < t && g[#[trigger] border@[k] as int] == Some(Color::White),
        decreases border@.len() - t,
    {
        let b = border[t];
        proof {
            assert(border@[t as int] == b);
            assert(contains_ix(border@, b as int));
        }
        match cells[b] {
            Some(Color::Black) => {
                has_black = true;
                proof {
                    assert(g[border@[t as int] as int] == Some(Color::Black));
                }
            },
            Some(Color::White) => {
                has_white = true;
                proof {
                    assert(g[border@[t as int] as int] == Some(Color::White));
                }
            },
            None => {},
        }
        t += 1;
    }
    proof {
        assert forall|c: Color|
            region_touches(g, sz, st, c) == (exists|k: int|
            0 <= k < border@.len() && g[#[trigger] border@[k] as int] == Some(c)) by {
            if region_touches(g, sz, st, c) {
                let (m, l): (int, int) = choose|m: int, l: int|
                    connected(g, None, sz, st, m) && #[trigger] adj(sz, m, l) && g[l] == Some(c);
                assert(border_cell(g, None, sz, st, l));
                assert(contains_ix(border@, l));
                let k = choose|k: int| 0 <= k < border@.len() && #[trigger] border@[k] == l;
                assert(g[border@[k] as int] == Some(c));
            }
            if exists|k: int|
                0 <= k < border@.len() && g[#[trigger] border@[k] as int] == Some(c) {
                let k = choose|k: int|
                    0 <= k < border@.len() && g[#[trigger] border@[k] as int] == Some(c);
                let l = border@[k] as int;
                assert(contains_ix(border@, l));
                assert(border_cell(g, None, sz, st, l));
                let m = choose|m: int|
                    connected(g, None, sz, st, m) && #[trigger] adj(sz, m, l);
                assert(region_touches(g, sz, st, c));
            }
        }
    }
    (has_black, has_white)
}

/// Writes `val` into `owner` and sets the visited mark at every cell of
/// `region`, leaving all other cells untouched.
fn paint_region(
    owner: &mut Vec<Option<Color>>,
    visited: &mut Vec<bool>,
    region: &Vec<usize>,
    val: Option<Color>,
)
    requires
        old(owner)@.len() == old(visited)@.len(),
        region@.no_duplicates(),
        forall|k: int| 0 <= k < region@.len() ==> #[trigger] region@[k] < old(owner)@.len(),
    ensures
        final(owner)@.len() == old(owner)@.len(),
        final(visited)@.len() == old(visited)@.len(),
        forall|k: int|
            0 <= k < old(owner)@.len() && !contains_ix(region@, k) ==> final(owner)@[k] == old(
                owner,
            )@[k] && final(visited)@[k] == old(visited)@[k],
        forall|k: int| #[trigger]
            contains_ix(region@, k) ==> final(owner)@[k] == val && final(visited)@[k],
{
    let ghost n = owner@.len();
    let mut t: usize = 0;
    while t < region.len()
        invariant
            t <= region@.len(),
            owner@.len() == n,
            visited@.len() == n,
            region@.no_duplicates(),
            forall|k: int| 0 <= k < region@.len() ==> #[trigger] region@[k] < n,
            forall|k: int|
                0 <= k < n && !contains_ix(region@, k) ==> owner@[k] == old(owner)@[k]
                    && visited@[k] == old(visited)@[k],
            forall|k: int|
                0 <= k < t ==> owner@[#[trigger] region@[k] as int] == val && visited@[region@[k]
                    as int],
        decreases region@.len() - t,
    {
        let c = region[t];
        proof {
            assert(region@[t as int] == c);
            assert(contains_ix(region@, c as int));
        }
        owner[c] = val;
        visited[c] = true;
        t += 1;
    }
    proof {
        assert forall|k: int| #[trigger]
            contains_ix(region@, k) implies owner@[k] == val && visited@[k] by {
            let kk = choose|kk: int| 0 <= kk < region@.len() && #[trigger] region@[kk] == k;
            assert(owner@[region@[kk] as int] == val);
        }
    }
}

/// Which cells can be adjacent to `index`: only the four orthogonal ones,
/// and each exactly under its edge condition.
proof fn lemma_adj_cases(size: nat, index: int, x: int, y: int, j: int)
    requires
        1 <= size <= 256,
        0 <= index < size * size,
        index == y * size + x,
        0 <= x < size,
        0 <= y < size,
        adj(size, index, j),
    ensures
        (j == index - 1 && x > 0) || (j == index + 1 && x + 1 < size) || (j == index - size && y
            > 0) || (j == index + size && y + 1 < size),
{
    let s = size as int;
    lemma_rows(size, index, x, y);
    if index == j + size {
        assert(j == index - size);
        assert(j == (y - 1) * s + x) by (nonlinear_arith)
            requires
                index == y * s + x,
                j == index - s,
        ;
        assert(y > 0) by (nonlinear_arith)
            requires
                0 <= j,
                j == (y - 1) * s + x,
                0 <= x < s,
                s >= 1,
                y >= 0,
        ;
    } else if j == index + size {
        assert(y + 1 < size) by {
            if y + 1 >= size {
                assert(!in_grid(size, index + size));
            }
        }
    } else {
        // Same row, one step sideways.
        assert(index / s == j / s);
        if j == index + 1 {
            assert(x + 1 < size) by {
                if x + 1 >= size {
                    // index ends its row, so index + 1 opens the next row.
                    assert(index + 1 == (y + 1) * s + 0) by (nonlinear_arith)
                        requires
                            index == y * s + x,
                            x + 1 == s,
                    ;
                    vstd::arithmetic::div_mod::lemma_fundamental_div_mod_converse(
                        index + 1,
                        s,
                        y + 1,
                        0,
                    );
                }
            }
        } else {
            assert(index == j + 1);
            assert(x > 0) by {
                if x == 0 {
                    // index starts its row, so index - 1 closes the previous row.
                    assert(index - 1 == (y - 1) * s + (s - 1)) by (nonlinear_arith)
                        requires
                            index == y * s + x,
                            x == 0,
                    ;
                    vstd::arithmetic::div_mod::lemma_fundamental_div_mod_converse(
                        index - 1,
                        s,
                        y - 1,
                        s - 1,
                    );
                }
            }
        }
    }
}

} // verus!
