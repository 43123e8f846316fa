//! The game session: a current board plus turn order, capture tallies,
//! pass counting, the position-repetition history for superko, and the
//! append-only move log. All scores and komi are integers counted in
//! half-points, so a komi of six and a half is stored as thirteen.

use std::collections::HashSet;

use vstd::prelude::*;

use crate::board::{contains_pt_ix, Board};
use crate::color::Color;
use crate::conn::{after_capture_grid, captured_by_play, group_alive, territory_owner};
use crate::error::RuleViolation;
use crate::point::{point_at, Point};
use crate::zobrist::grid_hash;

verus! {

broadcast use vstd::std_specs::hash::group_hash_axioms;

/// The immutable per-game configuration: board side length, komi in
/// half-points (white's fixed bonus), and whether positional superko is
/// enforced.
#[derive(Copy, Clone, Debug, PartialEq, Eq, Structural)]
pub struct GameConfig {
    pub size: usize,
    pub komi: i64,
    pub superko: bool,
}

impl GameConfig {
    /// The configurations the engine accepts: any positive side length up
    /// to 256 (coordinates are bytes), and any komi far enough from the
    /// ends of the `i64` range that adding a score can never overflow.
    pub open spec fn valid(self) -> bool {
        1 <= self.size <= 256 && -4000000000000000000 <= self.komi <= 4000000000000000000
    }
}

impl Default for GameConfig {
    /// A 19-line board with six and a half points of komi and superko on.
    fn default() -> (r: GameConfig)
        ensures
            r == (GameConfig { size: 19, komi: 13, superko: true }),
            r.valid(),
    {
        GameConfig { size: 19, komi: 13, superko: true }
    }
}

/// A plain copy of the grid for transport: side length plus row-major
/// contents.
#[derive(Clone, Debug)]
pub struct BoardSnapshot {
    pub size: usize,
    pub intersections: Vec<Option<Color>>,
}

/// A move: a color plus a target, or a pass when the target is absent.
#[derive(Copy, Clone, Debug, PartialEq, Eq, Structural)]
pub struct Move {
    pub color: Color,
    pub point: Option<Point>,
}

/// Per-color totals of stones captured so far, credited to the capturing
/// color.
#[derive(Copy, Clone, Debug, PartialEq, Eq, Structural)]
pub struct Captures {
    pub black: u32,
    pub white: u32,
}

/// One applied move: the move itself, the points it captured, and its
/// 1-based position in the game.
#[derive(Clone, Debug)]
pub struct MoveRecordSnapshot {
    pub mv: Move,
    pub captured: Vec<Point>,
    pub move_number: usize,
}

/// The full outcome of a successful `play`: the updated position and
/// everything a caller needs to render or continue the game.
#[derive(Clone, Debug)]
pub struct MoveOutcome {
    pub board: BoardSnapshot,
    pub captures: Captures,
    pub to_move: Color,
    pub game_over: bool,
    pub consecutive_passes: u8,
    pub last_move: MoveRecordSnapshot,
    pub legal_moves: Vec<Point>,
}

/// An area score: per-color territory counts, capture totals, komi, and
/// the final scores, all scores in half-points.
#[derive(Copy, Clone, Debug, PartialEq, Eq, Structural)]
pub struct ScoreSummary {
    pub black_score: i64,
    pub white_score: i64,
    pub territory_black: u32,
    pub territory_white: u32,
    pub captures: Captures,
    pub komi: i64,
}

/// A running game: the current board, whose turn it is, every position key
/// seen so far (for superko), capture tallies, the pass counter, and the
/// move log. The history set grows with game length by design: it trades
/// memory for exact repetition detection.
pub struct GameState {
    board: Board,
    to_move: Color,
    history: HashSet<u64>,
    captures: Captures,
    config: GameConfig,
    consecutive_passes: u8,
    moves: Vec<MoveRecordSnapshot>,
}

impl GameState {
    /// The current board.
    pub closed spec fn spec_board(self) -> Board {
        self.board
    }

    /// The color to move.
    pub closed spec fn spec_to_move(self) -> Color {
        self.to_move
    }

    /// The set of position keys seen so far, the initial position included.
    pub closed spec fn spec_history(self) -> Set<u64> {
        self.history@
    }

    /// The capture tallies.
    pub closed spec fn spec_captures(self) -> Captures {
        self.captures
    }

    /// The configuration the session was created with.
    pub closed spec fn spec_config(self) -> GameConfig {
        self.config
    }

    /// How many passes came in a row just now.
    pub closed spec fn spec_passes(self) -> u8 {
        self.consecutive_passes
    }

    /// The move log, in play order.
    pub closed spec fn spec_log(self) -> Seq<MoveRecordSnapshot> {
        self.moves@
    }

    /// The board side length.
    pub open spec fn spec_size(self) -> nat {
        self.spec_board().spec_size()
    }

    /// Well-formedness: the board is sound and sized to the configuration,
    /// and the log numbers its moves 1, 2, 3, ...
    pub open spec fn wf(self) -> bool {
        &&& self.spec_board().wf()
        &&& self.spec_config().valid()
        &&& self.spec_board().spec_size() == self.spec_config().size
        &&& forall|k: int|
            0 <= k < self.spec_log().len() ==> (#[trigger] self.spec_log()[k]).move_number == k
                + 1
    }

    /// The rule check for `mv` in this state: the violation it raises, or
    /// `None` when the move is legal. The checks come in this order: acting
    /// color, coordinate bounds, occupancy, suicide after captures, and
    /// finally superko.
    pub open spec fn play_err(self, mv: Move) -> Option<RuleViolation> {
        if mv.color != self.spec_to_move() {
            Some(RuleViolation::WrongPlayer { expected: self.spec_to_move() })
        } else {
            match mv.point {
                None => None,
                Some(p) => {
                    let sz = self.spec_size();
                    let g0 = self.spec_board().grid();
                    if p.x >= sz || p.y >= sz {
                        Some(RuleViolation::OutOfBounds { point: p })
                    } else if g0[p.index(sz)] is Some {
                        Some(RuleViolation::Occupied { point: p })
                    } else if !group_alive(
                        after_capture_grid(g0, sz, p.index(sz), mv.color),
                        sz,
                        p.index(sz),
                    ) {
                        Some(RuleViolation::Suicide { point: p })
                    } else if self.spec_config().superko && self.spec_history().contains(
                        self.next_position_key(mv),
                    ) {
                        Some(RuleViolation::SuperKo)
                    } else {
                        None
                    }
                },
            }
        }
    }

    /// The superko fingerprint of the position as it will stand after
    /// `mv`: the next board's stone hash XORed with the side-to-move key of
    /// the player who moves next.
    pub open spec fn next_position_key(self, mv: Move) -> u64 {
        let b = self.spec_board();
        match mv.point {
            None => b.spec_position_key(mv.color.opp()),
            Some(p) => {
                let sz = b.spec_size();
                grid_hash(b.keys(), after_capture_grid(b.grid(), sz, p.index(sz), mv.color))
                    ^ b.side_keys()[mv.color.opp().idx()]
            },
        }
    }

    /// A placement at cell `i` by the side to move would succeed.
    pub open spec fn legal_at(self, i: int) -> bool {
        self.play_err(
            Move { color: self.spec_to_move(), point: Some(point_at(i, self.spec_size())) },
        ) is None
    }

    /// The legal placements among the first `n` cells, in row-major order.
    pub open spec fn legal_points_upto(self, n: int) -> Seq<Point>
        decreases n,
    {
        if n <= 0 {
            Seq::empty()
        } else if self.legal_at(n - 1) {
            self.legal_points_upto(n - 1).push(point_at(n - 1, self.spec_size()))
        } else {
            self.legal_points_upto(n - 1)
        }
    }

    /// Every legal placement for the side to move, in row-major order.
    pub open spec fn legal_moves_spec(self) -> Seq<Point> {
        self.legal_points_upto(self.spec_board().grid().len() as int)
    }

    /// The exact score of the current position, in half-points.
    pub open spec fn score_spec(self) -> ScoreSummary {
        let g = self.spec_board().grid();
        let sz = self.spec_size();
        let n = g.len() as int;
        let tb = count_owned_upto(g, sz, Color::Black, n);
        let tw = count_owned_upto(g, sz, Color::White, n);
        ScoreSummary {
            black_score: (2 * (tb + self.spec_captures().black)) as i64,
            white_score: (2 * (tw + self.spec_captures().white) + self.spec_config().komi) as i64,
            territory_black: tb as u32,
            territory_white: tw as u32,
            captures: self.spec_captures(),
            komi: self.spec_config().komi,
        }
    }

    /// A fresh session: an empty board of the configured size, black to
    /// move, no captures, no passes, an empty log, and the initial
    /// position's key already in the history.
    pub fn new(config: GameConfig) -> (r: GameState)
        requires
            config.valid(),
        ensures
            r.wf(),
            r.spec_config() == config,
            r.spec_to_move() == Color::Black,
            r.spec_captures() == (Captures { black: 0, white: 0 }),
            r.spec_passes() == 0,
            r.spec_log() == Seq::<MoveRecordSnapshot>::empty(),
            forall|j: int|
                0 <= j < r.spec_board().grid().len() ==> r.spec_board().grid()[j] is None,
            r.spec_history() == Set::<u64>::empty().insert(
                r.spec_board().spec_position_key(Color::Black),
            ),
    {
        let board = Board::new(config.size);
        let mut history: HashSet<u64> = HashSet::new();
        let key = board.position_key(Color::Black);
        history.insert(key);
        GameState {
            board,
            to_move: Color::Black,
            history,
            captures: Captures { black: 0, white: 0 },
            config,
            consecutive_passes: 0,
            moves: Vec::new(),
        }
    }

    /// The current board contents, as a value the caller may keep.
    pub fn board_snapshot(&self) -> (r: BoardSnapshot)
        requires
            self.wf(),
        ensures
            r.size == self.spec_size(),
            r.intersections@ == self.spec_board().grid(),
    {
        BoardSnapshot {
            size: self.board.size(),
            intersections: copy_cells(self.board.intersections()),
        }
    }

    /// The capture tallies.
    pub fn captures(&self) -> (r: Captures)
        ensures
            r == self.spec_captures(),
    {
        self.captures
    }

    /// The color to move.
    pub fn to_move(&self) -> (r: Color)
        ensures
            r == self.spec_to_move(),
    {
        self.to_move
    }

    /// How many passes came in a row just now.
    pub fn consecutive_passes(&self) -> (r: u8)
        ensures
            r == self.spec_passes(),
    {
        self.consecutive_passes
    }

    /// The configuration the session was created with.
    pub fn config(&self) -> (r: &GameConfig)
        ensures
            *r == self.spec_config(),
    {
        &self.config
    }

    /// How many moves have been applied.
    pub fn move_count(&self) -> (r: usize)
        ensures
            r == self.spec_log().len(),
    {
        self.moves.len()
    }

    /// Checks `mv` against the current position without touching it: on
    /// success hands back the next board, the captured points and the next
    /// position key.
    fn simulate(&self, mv: &Move) -> (r: Result<(Board, Vec<Point>, u64), RuleViolation>)
        requires
            self.wf(),
        ensures
            match r {
                Err(e) => self.play_err(*mv) == Some(e),
                Ok((b, caps, key)) => {
                    let sz = self.spec_size();
                    &&& self.play_err(*mv) is None
                    &&& key == self.next_position_key(*mv)
                    &&& b.wf()
                    &&& b.spec_size() == sz
                    &&& b.keys() == self.spec_board().keys()
                    &&& b.side_keys() == self.spec_board().side_keys()
                    &&& match mv.point {
                        None => b.grid() == self.spec_board().grid() && caps@.len() == 0,
                        Some(p) => {
                            &&& b.grid() == after_capture_grid(
                                self.spec_board().grid(),
                                sz,
                                p.index(sz),
                                mv.color,
                            )
                            &&& forall|j: int| #[trigger]
                                contains_pt_ix(caps@, sz, j) <==> captured_by_play(
                                    self.spec_board().grid().update(p.index(sz), Some(mv.color)),
                                    sz,
                                    p.index(sz),
                                    mv.color,
                                    j,
                                )
                            &&& forall|k1: int, k2: int|
                                0 <= k1 < k2 < caps@.len() ==> (#[trigger] caps@[k1]).index(sz)
                                    != (#[trigger] caps@[k2]).index(sz)
                            &&& forall|k: int|
                                0 <= k < caps@.len() ==> (#[trigger] caps@[k]).x < sz
                                    && caps@[k].y < sz
                        },
                    }
                },
            },
    {
        if mv.color != self.to_move {
            return Err(RuleViolation::WrongPlayer { expected: self.to_move });
        }
        match mv.point {
            None => {
                let key = self.board.position_key(self.to_move.opponent());
                Ok((self.board.duplicate(), Vec::new(), key))
            },
            Some(point) => {
                let size = self.board.size();
                if point.x as usize >= size || point.y as usize >= size {
                    return Err(RuleViolation::OutOfBounds { point });
                }
                proof {
                    assert((point.y as int) * (size as int) + (point.x as int) < (size as int) * (
                    size as int)) by (nonlinear_arith)
                        requires
                            (point.x as int) < (size as int),
                            (point.y as int) < (size as int),
                    ;
                }
                match self.board.after_play(mv.color, point) {
                    Err(e) => Err(e),
                    Ok((next_board, captured)) => {
                        let key = next_board.position_key(self.to_move.opponent());
                        if self.config.superko && self.history.contains(&key) {
                            return Err(RuleViolation::SuperKo);
                        }
                        Ok((next_board, captured, key))
                    },
                }
            },
        }
    }

    /// Applies `mv`: either the move is rejected with its exact rule
    /// violation and the session is left untouched, or the session advances
    /// atomically and the full outcome is returned. A finished game (two
    /// passes) still accepts moves: ending the game is the caller's policy.
    pub fn play(&mut self, mv: Move) -> (r: Result<MoveOutcome, RuleViolation>)
        requires
            old(self).wf(),
        ensures
            final(self).wf(),
            match r {
                Err(e) => old(self).play_err(mv) == Some(e) && *final(self) == *old(self),
                Ok(o) => old(self).play_err(mv) is None && play_updates(
                    *old(self),
                    *final(self),
                    mv,
                    o,
                ),
            },
    {
        let ghost s0 = *self;
        let sim = self.simulate(&mv);
        match sim {
            Err(e) => Err(e),
            Ok((next_board, captured, key)) => {
                match mv.point {
                    None => {
                        self.consecutive_passes = self.consecutive_passes.saturating_add(1);
                    },
                    Some(_) => {
                        self.consecutive_passes = 0;
                        proof {
                            let sz = s0.spec_size();
                            let mapped = Seq::new(
                                captured@.len(),
                                |k: int| captured@[k].index(sz) as usize,
                            );
                            assert forall|a: int, b: int|
                                0 <= a < mapped.len() && 0 <= b < mapped.len() && a
                                    != b implies mapped[a] != mapped[b] by {
                                let (lo, hi) = if a < b {
                                    (a, b)
                                } else {
                                    (b, a)
                                };
                                assert(captured@[lo].index(sz) != captured@[hi].index(sz));
                                assert(captured@[a].index(sz) >= 0 && captured@[b].index(sz) >= 0);
                                assert((captured@[a].y as int) * (sz as int) + (captured@[a].x
                                    as int) <= 255 * 256 + 255) by (nonlinear_arith)
                                    requires
                                        (captured@[a].x as int) <= 255,
                                        (captured@[a].y as int) <= 255,
                                        sz as int <= 256,
                                ;
                                assert((captured@[b].y as int) * (sz as int) + (captured@[b].x
                                    as int) <= 255 * 256 + 255) by (nonlinear_arith)
                                    requires
                                        (captured@[b].x as int) <= 255,
                                        (captured@[b].y as int) <= 255,
                                        sz as int <= 256,
                                ;
                            }
                            assert(mapped.no_duplicates());
                            assert forall|k: int|
                                0 <= k < mapped.len() implies (#[trigger] mapped[k]) < (sz
                                * sz) as nat by {
                                assert((captured@[k].y as int) * (sz as int) + (captured@[k].x
                                    as int) < (sz as int) * (sz as int)) by (nonlinear_arith)
                                    requires
                                        (captured@[k].x as int) < (sz as int),
                                        (captured@[k].y as int) < (sz as int),
                                ;
                            }
                            crate::board::lemma_distinct_bounded(mapped, (sz * sz) as nat);
                            assert((sz as int) * (sz as int) <= 65536) by (nonlinear_arith)
                                requires
                                    sz as int <= 256,
                            ;
                            assert(captured@.len() <= 65536);
                        }
                        let ncap = captured.len() as u32;
                        match mv.color {
                            Color::Black => {
                                self.captures.black = self.captures.black.saturating_add(ncap);
                            },
                            Color::White => {
                                self.captures.white = self.captures.white.saturating_add(ncap);
                            },
                        }
                        self.board = next_board;
                    },
                }
                self.to_move = self.to_move.opponent();
                self.history.insert(key);
                let captured_copy = copy_points(&captured);
                self.moves.push(
                    MoveRecordSnapshot { mv, captured: captured_copy, move_number: 0 },
                );
                let num = self.moves.len();
                let li = num - 1;
                self.moves[li].move_number = num;
                proof {
                    assert(self.spec_log().last().move_number == num);
                    assert forall|k: int|
                        0 <= k < self.spec_log().len() implies (#[trigger] self.spec_log()[k])
                        .move_number == k + 1 by {
                        if k < s0.spec_log().len() {
                            assert(self.spec_log()[k] == s0.spec_log()[k]);
                        }
                    }
                }
                let outcome = MoveOutcome {
                    board: self.board_snapshot(),
                    captures: self.captures,
                    to_move: self.to_move,
                    game_over: self.consecutive_passes >= 2,
                    consecutive_passes: self.consecutive_passes,
                    last_move: MoveRecordSnapshot { mv, captured, move_number: num },
                    legal_moves: self.legal_moves(),
                };
                Ok(outcome)
            },
        }
    }

    /// Every legal placement for the side to move, found by simulating a
    /// move on each empty intersection, in row-major order.
    #[verifier::loop_isolation(false)]
    pub fn legal_moves(&self) -> (r: Vec<Point>)
        requires
            self.wf(),
        ensures
            r@ == self.legal_moves_spec(),
    {
        let ghost sz = self.spec_size();
        let mut legal: Vec<Point> = Vec::new();
        let size = self.board.size();
        proof {
            assert((size as int) * (size as int) <= 65536) by (nonlinear_arith)
                requires
                    size as int <= 256,
            ;
        }
        let n = size * size;
        let mut index: usize = 0;
        while index < n
            invariant
                index <= n,
                legal@ == self.legal_points_upto(index as int),
            decreases n - index,
        {
            proof {
                vstd::arithmetic::div_mod::lemma_fundamental_div_mod(index as int, size as int);
                assert((index as int) / (size as int) < size as int) by (nonlinear_arith)
                    requires
                        1 <= size as int,
                        (index as int) < (size as int) * (size as int),
                ;
            }
            if self.board.intersections()[index].is_none() {
                let p = Point::from_index(index, size);
                let mv = Move { color: self.to_move, point: Some(p) };
                let ok = match self.simulate(&mv) {
                    Ok(_) => true,
                    Err(_) => false,
                };
                proof {
                    assert(p == point_at(index as int, sz));
                    assert(self.legal_at(index as int) == ok);
                }
                if ok {
                    legal.push(p);
                }
            } else {
                proof {
                    let p = point_at(index as int, sz);
                    assert(p.x == (index as int) % (size as int));
                    assert(p.y == (index as int) / (size as int));
                    assert(p.index(sz) == index) by {
                        vstd::arithmetic::div_mod::lemma_fundamental_div_mod(
                            index as int,
                            size as int,
                        );
                        assert(((index as int) / (size as int)) * (size as int) == (size as int)
                            * ((index as int) / (size as int))) by (nonlinear_arith);
                    }
                    assert(!self.legal_at(index as int));
                }
            }
            index += 1;
        }
        legal
    }

    /// The area score of the current position: territory plus captures per
    /// color, komi added to white, in half-points. Reads the position only.
    #[verifier::loop_isolation(false)]
    pub fn score(&self) -> (r: ScoreSummary)
        requires
            self.wf(),
        ensures
            r == self.score_spec(),
    {
        let ghost g = self.spec_board().grid();
        let ghost sz = self.spec_size();
        let territory = self.board.territory_map();
        let n = territory.len();
        proof {
            assert((sz as int) * (sz as int) <= 65536) by (nonlinear_arith)
                requires
                    sz as int <= 256,
            ;
        }
        let mut territory_black: u32 = 0;
        let mut territory_white: u32 = 0;
        let mut i: usize = 0;
        while i < n
            invariant
                i <= n,
                territory_black == count_owned_upto(g, sz, Color::Black, i as int),
                territory_white == count_owned_upto(g, sz, Color::White, i as int),
                territory_black <= i,
                territory_white <= i,
            decreases n - i,
        {
            match territory[i] {
                Some(Color::Black) => {
                    territory_black = territory_black + 1;
                },
                Some(Color::White) => {
                    territory_white = territory_white + 1;
                },
                None => {},
            }
            i += 1;
        }
        let black_score: i64 = 2 * ((territory_black as i64) + (self.captures.black as i64));
        let white_score: i64 = 2 * ((territory_white as i64) + (self.captures.white as i64))
            + self.config.komi;
        ScoreSummary {
            black_score,
            white_score,
            territory_black,
            territory_white,
            captures: self.captures,
            komi: self.config.komi,
        }
    }

    /// The move log as a fresh list, numbered from one in play order.
    #[verifier::loop_isolation(false)]
    pub fn move_history(&self) -> (r: Vec<MoveRecordSnapshot>)
        requires
            self.wf(),
        ensures
            r@.len() == self.spec_log().len(),
            forall|k: int|
                0 <= k < r@.len() ==> (#[trigger] r@[k]).mv == self.spec_log()[k].mv && r@[k]
                    .captured@ == self.spec_log()[k].captured@ && r@[k].move_number == k + 1,
    {
        let mut r: Vec<MoveRecordSnapshot> = Vec::new();
        let mut i: usize = 0;
        while i < self.moves.len()
            invariant
                i <= self.spec_log().len(),
                r@.len() == i,
                forall|k: int|
                    0 <= k < i ==> (#[trigger] r@[k]).mv == self.spec_log()[k].mv && r@[k]
                        .captured@ == self.spec_log()[k].captured@ && r@[k].move_number == k + 1,
            decreases self.spec_log().len() - i,
        {
            let rec = MoveRecordSnapshot {
                mv: self.moves[i].mv,
                captured: copy_points(&self.moves[i].captured),
                move_number: self.moves[i].move_number,
            };
            r.push(rec);
            i += 1;
        }
        r
    }

    /// Replaces the current position wholesale: board, repetition history
    /// and side to move. Tallies, the pass counter and the log stay. This
    /// is the entry for setting up a mid-game position directly.
    pub fn set_internal_state(&mut self, board: Board, history: HashSet<u64>, to_move: Color)
        requires
            old(self).wf(),
            board.wf(),
            board.spec_size() == old(self).spec_config().size,
        ensures
            final(self).wf(),
            final(self).spec_board() == board,
            final(self).spec_history() == history@,
            final(self).spec_to_move() == to_move,
            final(self).spec_captures() == old(self).spec_captures(),
            final(self).spec_config() == old(self).spec_config(),
            final(self).spec_passes() == old(self).spec_passes(),
            final(self).spec_log() == old(self).spec_log(),
    {
        self.board = board;
        self.history = history;
        self.to_move = to_move;
    }
}

/// How many of the first `n` cells are territory of color `c`.
pub open spec fn count_owned_upto(grid: Seq<Option<Color>>, sz: nat, c: Color, n: int) -> int
    decreases n,
{
    if n <= 0 {
        0
    } else {
        count_owned_upto(grid, sz, c, n - 1) + if territory_owner(grid, sz, n - 1) == Some(c) {
            1int
        } else {
            0int
        }
    }
}

/// `count` captured stones credited to `color`, saturating at the tally
/// type's maximum.
pub open spec fn add_capture_tally(c: Captures, color: Color, count: int) -> Captures {
    match color {
        Color::Black => Captures { black: sat_add_u32(c.black, count), white: c.white },
        Color::White => Captures { black: c.black, white: sat_add_u32(c.white, count) },
    }
}

/// `a + b`, held at the top of the `u32` range.
pub open spec fn sat_add_u32(a: u32, b: int) -> u32 {
    if a + b <= u32::MAX {
        (a + b) as u32
    } else {
        u32::MAX
    }
}

/// How a successful `play` changes the session and what the outcome
/// reports: the turn flips, the history grows by the new position key, the
/// pass counter and capture tallies move with the kind of move, the move
/// joins the log with its captured points and 1-based number, and the
/// outcome mirrors the new state, its fresh legal-move list included.
pub open spec fn play_updates(s0: GameState, s1: GameState, mv: Move, o: MoveOutcome) -> bool {
    let sz = s0.spec_size();
    &&& s1.spec_to_move() == s0.spec_to_move().opp()
    &&& s1.spec_config() == s0.spec_config()
    &&& s1.spec_history() == s0.spec_history().insert(s0.next_position_key(mv))
    &&& s1.spec_log().len() == s0.spec_log().len() + 1
    &&& forall|k: int| 0 <= k < s0.spec_log().len() ==> s1.spec_log()[k] == s0.spec_log()[k]
    &&& s1.spec_log().last().mv == mv
    &&& s1.spec_log().last().move_number == s1.spec_log().len()
    &&& s1.spec_log().last().captured@ == o.last_move.captured@
    &&& match mv.point {
        None => {
            &&& s1.spec_board() == s0.spec_board()
            &&& s1.spec_passes() == (if s0.spec_passes() < 255 {
                (s0.spec_passes() + 1) as u8
            } else {
                255u8
            })
            &&& s1.spec_captures() == s0.spec_captures()
            &&& o.last_move.captured@.len() == 0
        },
        Some(p) => {
            &&& s1.spec_passes() == 0
            &&& s1.spec_board().wf()
            &&& s1.spec_board().spec_size() == sz
            &&& s1.spec_board().keys() == s0.spec_board().keys()
            &&& s1.spec_board().side_keys() == s0.spec_board().side_keys()
            &&& s1.spec_board().grid() == after_capture_grid(
                s0.spec_board().grid(),
                sz,
                p.index(sz),
                mv.color,
            )
            &&& forall|j: int| #[trigger]
                contains_pt_ix(o.last_move.captured@, sz, j) <==> captured_by_play(
                    s0.spec_board().grid().update(p.index(sz), Some(mv.color)),
                    sz,
                    p.index(sz),
                    mv.color,
                    j,
                )
            &&& forall|k1: int, k2: int|
                0 <= k1 < k2 < o.last_move.captured@.len() ==> (
                #[trigger] o.last_move.captured@[k1]).index(sz) != (
                #[trigger] o.last_move.captured@[k2]).index(sz)
            &&& s1.spec_captures() == add_capture_tally(
                s0.spec_captures(),
                mv.color,
                o.last_move.captured@.len() as int,
            )
        },
    }
    &&& o.board.size == sz
    &&& o.board.intersections@ == s1.spec_board().grid()
    &&& o.captures == s1.spec_captures()
    &&& o.to_move == s1.spec_to_move()
    &&& o.game_over == (s1.spec_passes() >= 2)
    &&& o.consecutive_passes == s1.spec_passes()
    &&& o.last_move.mv == mv
    &&& o.last_move.move_number == s1.spec_log().len()
    &&& o.legal_moves@ == s1.legal_moves_spec()
}

/// An element-for-element copy of a point list.
fn copy_points(v: &Vec<Point>) -> (r: Vec<Point>)
    ensures
        r@ == v@,
{
    let mut r: Vec<Point> = Vec::new();
    let mut i: usize = 0;
    while i < v.len()
        invariant
            i <= v@.len(),
            r@ == v@.subrange(0, i as int),
        decreases v@.len() - i,
    {
        r.push(v[i]);
        i += 1;
    }
    proof {
        assert(r@ =~= v@);
    }
    r
}

/// An element-for-element copy of a cell vector.
fn copy_cells(v: &Vec<Option<Color>>) -> (r: Vec<Option<Color>>)
    ensures
        r@ == v@,
{
    let mut r: Vec<Option<Color>> = Vec::new();
    let mut i: usize = 0;
    while i < v.len()
        invariant
            i <= v@.len(),
            r@ == v@.subrange(0, i as int),
        decreases v@.len() - i,
    {
        r.push(v[i]);
        i += 1;
    }
    proof {
        assert(r@ =~= v@);
    }
    r
}

} // verus!
