//! The rope simulator: a head point replays unit moves on an
//! unbounded integer grid and a tail point follows it under an
//! eight-neighbourhood adjacency rule; the answer is the number of
//! distinct positions the tail visits.

use vstd::prelude::*;
use crate::bytes::{spec_parse_num, spec_split, spec_trim, parse_num_limited, split_bytes,
    trim_bytes};

verus! {

/// A point on the integer grid.
#[derive(Debug, Clone, Copy, PartialEq, Eq, Structural)]
pub struct Position {
    pub x: i64,
    pub y: i64,
}

/// A unit move direction along one axis.
#[derive(Debug, Clone, Copy, PartialEq, Eq, Structural)]
pub enum Direction {
    Right,
    Left,
    Up,
    Down,
}

/// One move order: a direction repeated `count` times.
#[derive(Debug, Clone, Copy, PartialEq, Eq, Structural)]
pub struct Move {
    pub dir: Direction,
    pub count: u32,
}

#[derive(Debug, Clone, Copy, PartialEq, Eq, Structural)]
pub enum RopeError {
    /// A line is not a direction letter, a space and a decimal count.
    MalformedMove,
    /// The move list asks for more unit steps than the coordinate
    /// type can express.
    TooManySteps,
}

pub open spec fn pt(p: Position) -> (int, int) {
    (p.x as int, p.y as int)
}

/// Chebyshev distance at most one in both axes, overlap included.
pub open spec fn chebyshev_close(h: (int, int), t: (int, int)) -> bool {
    -1 <= h.0 - t.0 <= 1 && -1 <= h.1 - t.1 <= 1
}

/// Whether head and tail touch, so that the tail need not move.
pub fn day9_string_touching(head: Position, tail: Position) -> (r: bool)
    ensures
        r == chebyshev_close(pt(head), pt(tail)),
{
    let dx: i128 = head.x as i128 - tail.x as i128;
    let dy: i128 = head.y as i128 - tail.y as i128;
    -1 <= dx && dx <= 1 && -1 <= dy && dy <= 1
}

/// The displacement from `b` to `a`, component-wise.
pub fn day9_pos_diff(a: Position, b: Position) -> (r: (i64, i64))
    requires
        i64::MIN <= a.x - b.x <= i64::MAX,
        i64::MIN <= a.y - b.y <= i64::MAX,
    ensures
        r.0 == a.x - b.x,
        r.1 == a.y - b.y,
{
    (a.x - b.x, a.y - b.y)
}

/// The fixed displacement table: the unit correction step the tail
/// takes for each of the twelve non-adjacent head-minus-tail
/// displacements; any other displacement has no entry.
pub open spec fn spec_tail_step(d: (int, int)) -> Option<(int, int)> {
    if d == (-1int, 2int) {
        Some((-1int, 1int))
    } else if d == (0int, 2int) {
        Some((0int, 1int))
    } else if d == (1int, 2int) {
        Some((1int, 1int))
    } else if d == (2int, 1int) {
        Some((1int, 1int))
    } else if d == (2int, 0int) {
        Some((1int, 0int))
    } else if d == (2int, -1int) {
        Some((1int, -1int))
    } else if d == (1int, -2int) {
        Some((1int, -1int))
    } else if d == (0int, -2int) {
        Some((0int, -1int))
    } else if d == (-1int, -2int) {
        Some((-1int, -1int))
    } else if d == (-2int, -1int) {
        Some((-1int, -1int))
    } else if d == (-2int, 0int) {
        Some((-1int, 0int))
    } else if d == (-2int, 1int) {
        Some((-1int, 1int))
    } else {
        None
    }
}

/// Looks the displacement up in the fixed table.
pub fn tail_step(dx: i64, dy: i64) -> (r: Option<(i64, i64)>)
    ensures
        (match r {
            Some(s) => spec_tail_step((dx as int, dy as int)) == Some((s.0 as int, s.1 as int)),
            None => spec_tail_step((dx as int, dy as int)) is None,
        }),
{
    if dx == -1 && dy == 2 {
        Some((-1, 1))
    } else if dx == 0 && dy == 2 {
        Some((0, 1))
    } else if dx == 1 && dy == 2 {
        Some((1, 1))
    } else if dx == 2 && dy == 1 {
        Some((1, 1))
    } else if dx == 2 && dy == 0 {
        Some((1, 0))
    } else if dx == 2 && dy == -1 {
        Some((1, -1))
    } else if dx == 1 && dy == -2 {
        Some((1, -1))
    } else if dx == 0 && dy == -2 {
        Some((0, -1))
    } else if dx == -1 && dy == -2 {
        Some((-1, -1))
    } else if dx == -2 && dy == -1 {
        Some((-1, -1))
    } else if dx == -2 && dy == 0 {
        Some((-1, 0))
    } else if dx == -2 && dy == 1 {
        Some((-1, 1))
    } else {
        None
    }
}

/// The mathematical state of the simulation: both points and the set
/// of positions the tail has visited.
#[verifier::ext_equal]
pub struct RopeModel {
    pub head: (int, int),
    pub tail: (int, int),
    pub visited: Set<(int, int)>,
}

/// Both points at the origin, the origin already visited.
pub open spec fn rope_init() -> RopeModel {
    RopeModel { head: (0, 0), tail: (0, 0), visited: set![(0int, 0int)] }
}

pub open spec fn dir_delta(d: Direction) -> (int, int) {
    match d {
        Direction::Right => (1int, 0int),
        Direction::Left => (-1int, 0int),
        Direction::Up => (0int, 1int),
        Direction::Down => (0int, -1int),
    }
}

/// One unit step: the head moves, the tail follows if it is no
/// longer adjacent, and a moved tail is recorded as visited. A
/// displacement outside the table leaves the tail in place; under
/// the adjacency invariant that case never arises.
pub open spec fn spec_step(m: RopeModel, d: Direction) -> RopeModel {
    let h = (m.head.0 + dir_delta(d).0, m.head.1 + dir_delta(d).1);
    if chebyshev_close(h, m.tail) {
        RopeModel { head: h, tail: m.tail, visited: m.visited }
    } else {
        match spec_tail_step((h.0 - m.tail.0, h.1 - m.tail.1)) {
            Some(s) => {
                let t = (m.tail.0 + s.0, m.tail.1 + s.1);
                RopeModel { head: h, tail: t, visited: m.visited.insert(t) }
            },
            None => RopeModel { head: h, tail: m.tail, visited: m.visited },
        }
    }
}

/// `n` unit steps in one direction.
pub open spec fn spec_run_dir(m: RopeModel, d: Direction, n: nat) -> RopeModel
    decreases n,
{
    if n == 0 {
        m
    } else {
        spec_step(spec_run_dir(m, d, (n - 1) as nat), d)
    }
}

/// The whole move list replayed in order.
pub open spec fn spec_run(m: RopeModel, moves: Seq<Move>) -> RopeModel
    decreases moves.len(),
{
    if moves.len() == 0 {
        m
    } else {
        spec_run_dir(
            spec_run(m, moves.drop_last()),
            moves.last().dir,
            moves.last().count as nat,
        )
    }
}

/// The number of unit steps the move list asks for.
pub open spec fn total_steps(moves: Seq<Move>) -> nat
    decreases moves.len(),
{
    if moves.len() == 0 {
        0
    } else {
        total_steps(moves.drop_last()) + moves.last().count as nat
    }
}

/// The state invariant: head and tail are adjacent and the tail's
/// position is recorded.
pub open spec fn model_wf(m: RopeModel) -> bool {
    chebyshev_close(m.head, m.tail) && m.visited.finite() && m.visited.contains(m.tail)
}

/// Law: inserting an already-visited position changes neither the
/// visited set nor its cardinality.
pub proof fn lemma_insert_visited_idempotent(m: RopeModel, p: (int, int))
    requires
        m.visited.finite(),
        m.visited.contains(p),
    ensures
        m.visited.insert(p) == m.visited,
        m.visited.insert(p).len() == m.visited.len(),
{
    assert(m.visited.insert(p) =~= m.visited);
}

/// Law: a unit step keeps head and tail within Chebyshev distance
/// one of each other, and preserves the state invariant.
pub proof fn lemma_step_adjacency(m: RopeModel, d: Direction)
    requires
        model_wf(m),
    ensures
        chebyshev_close(spec_step(m, d).head, spec_step(m, d).tail),
        model_wf(spec_step(m, d)),
{
    let h = spec_step(m, d).head;
    if !chebyshev_close(h, m.tail) {
        assert(spec_tail_step((h.0 - m.tail.0, h.1 - m.tail.1)) is Some);
    }
}

/// Law: the whole replay preserves the state invariant, so the
/// adjacency bound holds after every step of the run.
pub proof fn lemma_run_adjacency(m: RopeModel, d: Direction, n: nat)
    requires
        model_wf(m),
    ensures
        model_wf(spec_run_dir(m, d, n)),
    decreases n,
{
    if n > 0 {
        lemma_run_adjacency(m, d, (n - 1) as nat);
        lemma_step_adjacency(spec_run_dir(m, d, (n - 1) as nat), d);
    }
}

/// The executable simulation state; `visited` holds each visited
/// position exactly once.
pub struct RopeState {
    pub head: Position,
    pub tail: Position,
    pub visited: Vec<Position>,
}

impl RopeState {
    pub open spec fn model(self) -> RopeModel {
        RopeModel {
            head: pt(self.head),
            tail: pt(self.tail),
            visited: self.visited@.map_values(|p: Position| pt(p)).to_set(),
        }
    }

    pub open spec fn wf(self) -> bool {
        &&& self.visited@.no_duplicates()
        &&& chebyshev_close(pt(self.head), pt(self.tail))
        &&& self.visited@.contains(self.tail)
    }

    pub proof fn lemma_model_wf(self)
        requires
            self.wf(),
        ensures
            model_wf(self.model()),
    {
        broadcast use vstd::seq_lib::group_seq_properties;
        broadcast use vstd::set::group_set_axioms;
        broadcast use vstd::seq_lib::seq_to_set_is_finite;

        let vs = self.visited@.map_values(|p: Position| pt(p));
        let i = choose|i: int| 0 <= i < self.visited@.len() && self.visited@[i] == self.tail;
        assert(vs[i] == pt(self.tail));
        assert(vs.to_set().contains(pt(self.tail)));
        vs.lemma_cardinality_of_set();
    }

    /// Both points at the origin, the origin already recorded.
    pub fn new() -> (r: RopeState)
        ensures
            r.wf(),
            r.model() == rope_init(),
    {
        let mut v: Vec<Position> = Vec::new();
        v.push(Position { x: 0, y: 0 });
        let r = RopeState {
            head: Position { x: 0, y: 0 },
            tail: Position { x: 0, y: 0 },
            visited: v,
        };
        proof {
            broadcast use vstd::seq_lib::group_seq_properties;
            broadcast use vstd::set::group_set_axioms;

            let vs = r.visited@.map_values(|p: Position| pt(p));
            assert(r.visited@ =~= seq![Position { x: 0, y: 0 }]);
            assert(vs =~= seq![(0int, 0int)]);
            assert(vs[0] == (0int, 0int));
            assert(vs.to_set() =~= set![(0int, 0int)]);
            assert(r.model() =~= rope_init());
        }
        r
    }

    /// The number of distinct positions the tail has visited.
    pub fn visited_count(&self) -> (r: usize)
        requires
            self.wf(),
        ensures
            r == self.model().visited.len(),
    {
        proof {
            let vs = self.visited@.map_values(|p: Position| pt(p));
            assert(vstd::relations::injective(|p: Position| pt(p))) by {
                assert forall|a: Position, b: Position|
                    #[trigger] pt(a) == #[trigger] pt(b) implies a == b by {}
            }
            self.visited@.lemma_no_duplicates_injective(|p: Position| pt(p));
            vs.unique_seq_to_set();
        }
        self.visited.len()
    }

    fn contains_pos(v: &Vec<Position>, p: Position) -> (r: bool)
        ensures
            r == v@.contains(p),
    {
        let mut i: usize = 0;
        while i < v.len()
            invariant
                i <= v.len(),
                forall|j: int| 0 <= j < i ==> v@[j] != p,
            decreases v.len() - i,
        {
            if v[i] == p {
                return true;
            }
            i += 1;
        }
        false
    }

    /// One unit step of the simulation.
    pub fn step(&mut self, dir: Direction)
        requires
            old(self).wf(),
            i64::MIN < old(self).head.x < i64::MAX,
            i64::MIN < old(self).head.y < i64::MAX,
        ensures
            final(self).wf(),
            final(self).model() == spec_step(old(self).model(), dir),
            final(self).visited@.len() <= old(self).visited@.len() + 1,
    {
        broadcast use vstd::seq_lib::group_seq_properties;
        broadcast use vstd::set::group_set_axioms;
        broadcast use vstd::seq_lib::seq_to_set_is_finite;

        match dir {
            Direction::Right => { self.head.x = self.head.x + 1; },
            Direction::Left => { self.head.x = self.head.x - 1; },
            Direction::Up => { self.head.y = self.head.y + 1; },
            Direction::Down => { self.head.y = self.head.y - 1; },
        }
        let ghost m = old(self).model();
        let ghost h = (m.head.0 + dir_delta(dir).0, m.head.1 + dir_delta(dir).1);
        proof {
            assert(pt(self.head) == h);
            assert(-2 <= h.0 - m.tail.0 <= 2);
            assert(-2 <= h.1 - m.tail.1 <= 2);
        }
        if day9_string_touching(self.head, self.tail) {
            proof {
                assert(self.model() =~= spec_step(m, dir));
            }
            return;
        }
        let dx = self.head.x - self.tail.x;
        let dy = self.head.y - self.tail.y;
        match tail_step(dx, dy) {
            Some(s) => {
                proof {
                    // the tail steps toward the head, so each new
                    // coordinate lies between the old tail's and the
                    // head's
                    assert(s.0 == 1 ==> self.tail.x < self.head.x);
                    assert(s.0 == -1 ==> self.tail.x > self.head.x);
                    assert(s.1 == 1 ==> self.tail.y < self.head.y);
                    assert(s.1 == -1 ==> self.tail.y > self.head.y);
                }
                self.tail.x = self.tail.x + s.0;
                self.tail.y = self.tail.y + s.1;
                let ghost t = pt(self.tail);
                let ghost oldvis = self.visited@;
                if !Self::contains_pos(&self.visited, self.tail) {
                    self.visited.push(self.tail);
                }
                proof {
                    let f = |p: Position| pt(p);
                    let vs = oldvis.map_values(f);
                    if oldvis.contains(self.tail) {
                        let i = choose|i: int|
                            0 <= i < oldvis.len() && oldvis[i] == self.tail;
                        assert(vs[i] == t);
                        assert(vs.to_set().contains(t));
                        assert(vs.to_set().insert(t) =~= vs.to_set());
                    } else {
                        assert(self.visited@ =~= oldvis.push(self.tail));
                        assert(self.visited@.map_values(f) =~= vs.push(t));
                        assert(self.visited@.map_values(f).to_set() =~= vs.to_set().insert(t));
                        assert forall|j: int| 0 <= j < oldvis.len()
                            implies oldvis[j] != self.tail by {}
                    }
                    assert(self.model() =~= spec_step(m, dir));
                    assert(chebyshev_close(pt(self.head), pt(self.tail)));
                }
            },
            None => {
                proof {
                    // the table is exhaustive for non-adjacent
                    // displacements reachable under the invariant
                    assert(dir_delta(dir).0 == 0 || dir_delta(dir).1 == 0);
                    assert(false);
                }
            },
        }
    }
}

/// The most unit steps one run may take; it keeps every coordinate
/// strictly inside the range of `i64`.
pub const STEP_LIMIT: u64 = 0x7fff_ffff_ffff_fffe;

pub open spec fn spec_parse_dir(b: u8) -> Option<Direction> {
    if b == ('R' as u8) {
        Some(Direction::Right)
    } else if b == ('L' as u8) {
        Some(Direction::Left)
    } else if b == ('U' as u8) {
        Some(Direction::Up)
    } else if b == ('D' as u8) {
        Some(Direction::Down)
    } else {
        None
    }
}

/// A move line: a direction letter, one space, and a decimal count
/// no greater than the largest 31-bit value.
pub open spec fn spec_parse_move(line: Seq<u8>) -> Option<Move> {
    if line.len() >= 3 && line[1] == (' ' as u8) {
        match (spec_parse_dir(line[0]), spec_parse_num(line.skip(2))) {
            (Some(d), Some(n)) => if n <= 0x7fffffff {
                Some(Move { dir: d, count: n as u32 })
            } else {
                None
            },
            _ => None,
        }
    } else {
        None
    }
}

/// The move list read from the input's lines; `None` when any line
/// is malformed.
pub open spec fn spec_parse_moves(lines: Seq<Seq<u8>>) -> Option<Seq<Move>>
    decreases lines.len(),
{
    if lines.len() == 0 {
        Some(Seq::empty())
    } else {
        match (spec_parse_moves(lines.drop_last()), spec_parse_move(lines.last())) {
            (Some(ms), Some(m)) => Some(ms.push(m)),
            _ => None,
        }
    }
}

proof fn lemma_parse_moves_none(lines: Seq<Seq<u8>>, k: int)
    requires
        0 <= k < lines.len(),
        spec_parse_move(lines[k]) is None,
    ensures
        spec_parse_moves(lines) is None,
    decreases lines.len(),
{
    if k < lines.len() - 1 {
        lemma_parse_moves_none(lines.drop_last(), k);
    }
}

pub fn parse_move(line: &Vec<u8>) -> (r: Option<Move>)
    ensures
        r == spec_parse_move(line@),
{
    if line.len() < 3 {
        return None;
    }
    let b = line[0];
    let d = if b == ('R' as u8) {
        Direction::Right
    } else if b == ('L' as u8) {
        Direction::Left
    } else if b == ('U' as u8) {
        Direction::Up
    } else if b == ('D' as u8) {
        Direction::Down
    } else {
        return None;
    };
    if line[1] != (' ' as u8) {
        return None;
    }
    match parse_num_limited(line, 2, 0x7fffffff) {
        Some(x) => Some(Move { dir: d, count: x as u32 }),
        None => None,
    }
}

/// Reads one move per line; fails on the first malformed line, as
/// the replay would.
pub fn parse_moves(lines: &Vec<Vec<u8>>) -> (r: Result<Vec<Move>, RopeError>)
    ensures
        (match r {
            Ok(ms) => spec_parse_moves(lines.deep_view()) == Some(ms@),
            Err(e) => e == RopeError::MalformedMove && spec_parse_moves(lines.deep_view()) is None,
        }),
{
    let mut ms: Vec<Move> = Vec::new();
    let mut k: usize = 0;
    while k < lines.len()
        invariant
            k <= lines.len(),
            spec_parse_moves(lines.deep_view().take(k as int)) == Some(ms@),
        decreases lines.len() - k,
    {
        proof {
            assert(lines.deep_view().take(k + 1).drop_last() =~= lines.deep_view().take(k as int));
            assert(lines.deep_view().take(k + 1).last() == lines@[k as int]@);
        }
        match parse_move(&lines[k]) {
            Some(m) => {
                ms.push(m);
            },
            None => {
                proof {
                    lemma_parse_moves_none(lines.deep_view(), k as int);
                }
                return Err(RopeError::MalformedMove);
            },
        }
        k += 1;
    }
    proof {
        assert(lines.deep_view().take(lines.len() as int) =~= lines.deep_view());
    }
    Ok(ms)
}

pub proof fn lemma_total_steps_prefix(moves: Seq<Move>, i: int)
    requires
        0 <= i <= moves.len(),
    ensures
        total_steps(moves.take(i)) <= total_steps(moves),
    decreases moves.len() - i,
{
    if i == moves.len() {
        assert(moves.take(i) =~= moves);
    } else {
        lemma_total_steps_prefix(moves, i + 1);
        assert(moves.take(i + 1).drop_last() =~= moves.take(i));
        assert(moves.take(i + 1).last() == moves[i]);
    }
}

/// The whole computation on the input text: trim it, split it into
/// lines, read the moves, replay them from the origin, and count the
/// distinct positions the tail visited.
pub open spec fn spec_day9(input: Seq<u8>) -> Result<nat, RopeError> {
    let lines = spec_split(spec_trim(input), ('\n' as u8));
    match spec_parse_moves(lines) {
        None => Err(RopeError::MalformedMove),
        Some(ms) => if total_steps(ms) > STEP_LIMIT {
            Err(RopeError::TooManySteps)
        } else {
            Ok(spec_run(rope_init(), ms).visited.len())
        },
    }
}

/// What `day9` promises of its result.
pub open spec fn day9_matches(input: Seq<u8>, r: Result<usize, RopeError>) -> bool {
    match (r, spec_day9(input)) {
        (Ok(n), Ok(m)) => n as nat == m,
        (Err(e1), Err(e2)) => e1 == e2,
        _ => false,
    }
}

/// Law: the answer is a function of the input text alone; any two
/// results the contract admits for one input are equal.
pub proof fn lemma_day9_deterministic(
    input: Seq<u8>,
    r1: Result<usize, RopeError>,
    r2: Result<usize, RopeError>,
)
    requires
        day9_matches(input, r1),
        day9_matches(input, r2),
    ensures
        r1 == r2,
{
}

/// Replays the move list of the input text and returns the number of
/// distinct tail positions.
pub fn day9(input: &Vec<u8>) -> (r: Result<usize, RopeError>)
    ensures
        day9_matches(input@, r),
{
    let trimmed = trim_bytes(input);
    let lines = split_bytes(&trimmed, ('\n' as u8));
    let ms = match parse_moves(&lines) {
        Ok(ms) => ms,
        Err(e) => {
            return Err(e);
        },
    };
    let mut total: u64 = 0;
    let mut k: usize = 0;
    while k < ms.len()
        invariant
            k <= ms.len(),
            total == total_steps(ms@.take(k as int)),
            total <= STEP_LIMIT,
            spec_parse_moves(spec_split(spec_trim(input@), ('\n' as u8))) == Some(ms@),
        decreases ms.len() - k,
    {
        proof {
            assert(ms@.take(k + 1).drop_last() =~= ms@.take(k as int));
            assert(ms@.take(k + 1).last() == ms@[k as int]);
        }
        let c = ms[k].count;
        let nt = total + c as u64;
        if nt > STEP_LIMIT {
            proof {
                lemma_total_steps_prefix(ms@, k + 1);
            }
            return Err(RopeError::TooManySteps);
        }
        total = nt;
        k += 1;
    }
    proof {
        assert(ms@.take(ms.len() as int) =~= ms@);
    }
    let mut st = RopeState::new();
    let mut steps: u64 = 0;
    let mut i: usize = 0;
    while i < ms.len()
        invariant
            i <= ms.len(),
            st.wf(),
            st.model() == spec_run(rope_init(), ms@.take(i as int)),
            steps == total_steps(ms@.take(i as int)),
            total_steps(ms@) <= STEP_LIMIT,
            -(steps as int) <= st.model().head.0 <= steps as int,
            -(steps as int) <= st.model().head.1 <= steps as int,
        decreases ms.len() - i,
    {
        let d = ms[i].dir;
        let c = ms[i].count;
        let ghost base = st.model();
        proof {
            assert(ms@.take(i + 1).drop_last() =~= ms@.take(i as int));
            assert(ms@.take(i + 1).last() == ms@[i as int]);
            lemma_total_steps_prefix(ms@, i + 1);
        }
        let mut j: u32 = 0;
        while j < c
            invariant
                i < ms.len(),
                j <= c,
                st.wf(),
                d == ms@[i as int].dir,
                c == ms@[i as int].count,
                base == st_base(ms@, i as int),
                st.model() == spec_run_dir(base, d, j as nat),
                steps == total_steps(ms@.take(i as int)) + j,
                steps + (c - j) <= STEP_LIMIT,
                -(steps as int) <= st.model().head.0 <= steps as int,
                -(steps as int) <= st.model().head.1 <= steps as int,
            decreases c - j,
        {
            st.step(d);
            steps += 1;
            j += 1;
        }
        proof {
            assert(spec_run(rope_init(), ms@.take(i + 1)) == spec_run_dir(base, d, c as nat));
        }
        i += 1;
    }
    proof {
        assert(ms@.take(ms.len() as int) =~= ms@);
    }
    Ok(st.visited_count())
}

/// The model state reached after the first `i` moves.
pub open spec fn st_base(ms: Seq<Move>, i: int) -> RopeModel {
    spec_run(rope_init(), ms.take(i))
}

} // verus!
