//! Engine-wide laws, each proved once and for all from the contracts of
//! the session and board operations.

use vstd::prelude::*;

use crate::color::Color;
use crate::board::Board;
use crate::conn::{
    adj, after_capture_grid, captured_by_play, cell_matches, connected, group_alive,
    group_liberty, in_group, lemma_connected_self, region_touches, territory_owner,
};
use crate::game::{
    play_updates, Captures, GameState, Move, MoveOutcome, ScoreSummary,
};
use crate::point::{point_at, Point};

verus! {

/// On a board without a single stone, every intersection is neutral: no
/// empty region can touch a color, so the whole territory map is empty. A
/// freshly created session starts exactly so, with black to move and zero
/// captures by construction.
pub proof fn lemma_blank_board_neutral(grid: Seq<Option<Color>>, sz: nat)
    requires
        grid.len() == sz * sz,
        forall|j: int| 0 <= j < grid.len() ==> grid[j] is None,
    ensures
        forall|i: int| 0 <= i < grid.len() ==> territory_owner(grid, sz, i) is None,
{
    assert forall|i: int| 0 <= i < grid.len() implies territory_owner(grid, sz, i) is None by {
        assert forall|c: Color| !region_touches(grid, sz, i, c) by {
            if region_touches(grid, sz, i, c) {
                let (m, l): (int, int) = choose|m: int, l: int|
                    connected(grid, None, sz, i, m) && #[trigger] adj(sz, m, l) && grid[l]
                        == Some(c);
                assert(grid[l] is None);
            }
        }
        assert(!region_touches(grid, sz, i, Color::Black));
        assert(!region_touches(grid, sz, i, Color::White));
    }
}

/// On a stoneless board with no captures recorded, black scores zero and
/// white scores exactly the komi, in half-points.
pub proof fn lemma_initial_score(s: GameState)
    requires
        s.wf(),
        forall|j: int| 0 <= j < s.spec_board().grid().len() ==> s.spec_board().grid()[j] is None,
        s.spec_captures() == (Captures { black: 0, white: 0 }),
    ensures
        s.score_spec().black_score == 0,
        s.score_spec().white_score == s.spec_config().komi,
        s.score_spec().territory_black == 0,
        s.score_spec().territory_white == 0,
{
    let g = s.spec_board().grid();
    let sz = s.spec_size();
    lemma_blank_board_neutral(g, sz);
    lemma_count_neutral(g, sz, Color::Black, g.len() as int);
    lemma_count_neutral(g, sz, Color::White, g.len() as int);
}

/// A prefix of cells none of which is territory of `c` contributes nothing
/// to `c`'s territory count.
proof fn lemma_count_neutral(grid: Seq<Option<Color>>, sz: nat, c: Color, n: int)
    requires
        n <= grid.len(),
        forall|i: int| 0 <= i < grid.len() ==> territory_owner(grid, sz, i) is None,
    ensures
        crate::game::count_owned_upto(grid, sz, c, n) == 0,
    decreases n,
{
    if n > 0 {
        lemma_count_neutral(grid, sz, c, n - 1);
    }
}

/// Read-only operations are idempotent: the legal-move list and the score
/// are functions of the session state alone, so two computations without
/// an intervening `play` agree exactly.
pub proof fn lemma_read_only_idempotent(
    s: GameState,
    moves1: Seq<Point>,
    moves2: Seq<Point>,
    score1: ScoreSummary,
    score2: ScoreSummary,
)
    requires
        moves1 == s.legal_moves_spec(),
        moves2 == s.legal_moves_spec(),
        score1 == s.score_spec(),
        score2 == s.score_spec(),
    ensures
        moves1 == moves2,
        score1 == score2,
{
}

/// The legal-move list holds a point exactly when it lies on the board
/// and a move there by the side to move passes every rule check.
pub proof fn lemma_legal_moves_exact(s: GameState, p: Point)
    requires
        s.wf(),
    ensures
        s.legal_moves_spec().contains(p) <==> (p.x < s.spec_size() && p.y < s.spec_size()
            && s.play_err(Move { color: s.spec_to_move(), point: Some(p) }) is None),
{
    let sz = s.spec_size();
    let n = s.spec_board().grid().len() as int;
    lemma_legal_upto_membership(s, n, p);
    if p.x < sz && p.y < sz {
        let i = p.index(sz);
        vstd::arithmetic::div_mod::lemma_fundamental_div_mod_converse(
            i,
            sz as int,
            p.y as int,
            p.x as int,
        );
        assert(point_at(i, sz) == p);
        assert(i < n) by (nonlinear_arith)
            requires
                i == (p.y as int) * (sz as int) + (p.x as int),
                (p.x as int) < (sz as int),
                (p.y as int) < (sz as int),
                n == (sz as int) * (sz as int),
        ;
        assert(s.legal_at(i) == (s.play_err(
            Move { color: s.spec_to_move(), point: Some(p) },
        ) is None));
    } else {
        assert forall|i: int| 0 <= i < n implies point_at(i, sz) != p by {
            lemma_point_at_on_board(sz, i, n);
        }
    }
}

/// The point at an on-board index has both coordinates on the board.
proof fn lemma_point_at_on_board(sz: nat, i: int, n: int)
    requires
        1 <= sz <= 256,
        n == sz * sz,
        0 <= i < n,
    ensures
        point_at(i, sz).x < sz,
        point_at(i, sz).y < sz,
        point_at(i, sz).index(sz) == i,
{
    let s = sz as int;
    assert(i / s < s) by (nonlinear_arith)
        requires
            1 <= s,
            i < s * s,
            0 <= i,
    ;
    vstd::arithmetic::div_mod::lemma_fundamental_div_mod(i, s);
    assert((i / s) * s == s * (i / s)) by (nonlinear_arith);
}

/// Membership in the first `n` cells' worth of the legal-move list.
proof fn lemma_legal_upto_membership(s: GameState, n: int, p: Point)
    requires
        s.wf(),
        0 <= n <= s.spec_board().grid().len(),
    ensures
        s.legal_points_upto(n).contains(p) <==> exists|i: int|
            0 <= i < n && #[trigger] s.legal_at(i) && p == point_at(i, s.spec_size()),
    decreases n,
{
    let sz = s.spec_size();
    if n > 0 {
        lemma_legal_upto_membership(s, n - 1, p);
        let prev = s.legal_points_upto(n - 1);
        if s.legal_at(n - 1) {
            let cur = prev.push(point_at(n - 1, sz));
            assert(cur.last() == point_at(n - 1, sz));
            assert forall|k: int| 0 <= k < prev.len() implies cur[k] == prev[k] by {}
            if cur.contains(p) {
                let k = choose|k: int| 0 <= k < cur.len() && cur[k] == p;
                if k < prev.len() {
                    assert(prev.contains(p));
                } else {
                    assert(p == point_at(n - 1, sz));
                }
            }
            if prev.contains(p) {
                let k = choose|k: int| 0 <= k < prev.len() && prev[k] == p;
                assert(cur[k] == p);
                assert(cur.contains(p));
            }
            if p == point_at(n - 1, sz) {
                assert(cur[cur.len() - 1] == p);
                assert(cur.contains(p));
            }
        }
    }
}

/// A stone played with no neighbor of either color is always accepted by
/// the board: it captures nothing and keeps its own liberties, so it can
/// never be suicide.
pub proof fn lemma_isolated_stone_is_legal(b: Board, color: Color, point: Point)
    requires
        b.wf(),
        b.spec_size() >= 2,
        point.x < b.spec_size(),
        point.y < b.spec_size(),
        b.grid()[point.index(b.spec_size())] is None,
        forall|j: int|
            adj(b.spec_size(), point.index(b.spec_size()), j) ==> b.grid()[j] is None,
    ensures
        group_alive(
            after_capture_grid(b.grid(), b.spec_size(), point.index(b.spec_size()), color),
            b.spec_size(),
            point.index(b.spec_size()),
        ),
        forall|j: int|
            !captured_by_play(
                b.grid().update(point.index(b.spec_size()), Some(color)),
                b.spec_size(),
                point.index(b.spec_size()),
                color,
                j,
            ),
{
    let sz = b.spec_size();
    let g0 = b.grid();
    let idx = point.index(sz);
    let placed = g0.update(idx, Some(color));
    let acg = after_capture_grid(g0, sz, idx, color);
    let x = point.x as int;
    let y = point.y as int;
    assert(idx < g0.len()) by (nonlinear_arith)
        requires
            idx == y * (sz as int) + x,
            0 <= x < sz as int,
            0 <= y < sz as int,
            g0.len() == (sz as int) * (sz as int),
    ;
    assert forall|j: int|
        !captured_by_play(placed, sz, idx, color, j) by {
        if captured_by_play(placed, sz, idx, color, j) {
            let n = choose|n: int|
                #[trigger] adj(sz, idx, n) && placed[n] == Some(color.opp()) && !group_alive(
                    placed,
                    sz,
                    n,
                ) && in_group(placed, sz, n, j);
            assert(n != idx);
            assert(placed[n] == g0[n]);
        }
    }
    assert forall|j: int| 0 <= j < acg.len() implies acg[j] == placed[j] by {}
    // A neighboring cell exists on a board of side two or more, and it is
    // empty, so the played stone keeps a liberty.
    crate::board::lemma_rows(sz, idx, x, y);
    let w = if x > 0 {
        idx - 1
    } else {
        idx + 1
    };
    assert(adj(sz, idx, w));
    assert(acg[w] is None);
    assert(cell_matches(acg, acg[idx], idx));
    lemma_connected_self(acg, acg[idx], sz, idx);
    assert(in_group(acg, sz, idx, idx));
    assert(group_liberty(acg, sz, idx, w));
}

/// Two consecutive passes finish the game: the game-over flag of the
/// second outcome is set, at least two passes are counted, and the board
/// and the capture tallies stand exactly as before the two passes.
pub proof fn lemma_double_pass(
    s0: GameState,
    s1: GameState,
    s2: GameState,
    mv1: Move,
    mv2: Move,
    o1: MoveOutcome,
    o2: MoveOutcome,
)
    requires
        mv1.point is None,
        mv2.point is None,
        play_updates(s0, s1, mv1, o1),
        play_updates(s1, s2, mv2, o2),
    ensures
        o2.game_over,
        s2.spec_passes() >= 2,
        s2.spec_board() == s0.spec_board(),
        s2.spec_captures() == s0.spec_captures(),
{
}

} // verus!

