//! A chain of linked knots pulled across the integer plane.
//!
//! The head knot moves one unit at a time in one of the four cardinal
//! directions; every other knot is dragged after its leader under a
//! discrete snapping rule that keeps each adjacent pair within Chebyshev
//! distance one. The puzzle's answer is how many distinct positions the
//! last knot ever occupies.

use vstd::prelude::*;
use vstd::string::*;

use crate::text::{ParseError, all_digits, digits_val, spec_digits};

verus! {

/// A point on the integer plane.
#[derive(Clone, Copy, PartialEq, Eq, Hash, Debug, Structural)]
pub struct Position {
    pub x: i32,
    pub y: i32,
}

impl Default for Position {
    /// The origin.
    fn default() -> (r: Self)
        ensures
            r == (Position { x: 0, y: 0 }),
    {
        Position { x: 0, y: 0 }
    }
}

/// One of the four cardinal directions of motion.
#[derive(Clone, Copy, PartialEq, Eq, Debug, Structural)]
pub enum Direction {
    Left,
    Right,
    Up,
    Down,
}

/// The Chebyshev distance between two positions: the larger of the
/// horizontal and the vertical distance.
pub open spec fn chebyshev(a: Position, b: Position) -> int {
    vstd::math::max(vstd::math::abs(a.x - b.x) as int, vstd::math::abs(a.y - b.y) as int)
}

/// Where a head knot at `p` lands after one unit step in direction `dir`.
pub open spec fn moved_head(p: Position, dir: Direction) -> Position
    recommends
        head_has_room(p, dir),
{
    match dir {
        Direction::Left => Position { x: (p.x - 1) as i32, y: p.y },
        Direction::Right => Position { x: (p.x + 1) as i32, y: p.y },
        Direction::Up => Position { x: p.x, y: (p.y + 1) as i32 },
        Direction::Down => Position { x: p.x, y: (p.y - 1) as i32 },
    }
}

/// Whether a head knot at `p` can take a unit step in direction `dir`
/// without leaving the coordinate range.
pub open spec fn head_has_room(p: Position, dir: Direction) -> bool {
    match dir {
        Direction::Left => p.x > i32::MIN,
        Direction::Right => p.x < i32::MAX,
        Direction::Up => p.y < i32::MAX,
        Direction::Down => p.y > i32::MIN,
    }
}

/// The sign of `d`: `1`, `-1` or `0`.
pub open spec fn sign(d: int) -> int {
    if d > 0 {
        1
    } else if d < 0 {
        -1
    } else {
        0
    }
}

/// Where a follower knot at `follow` lands once its leader stands at
/// `lead`, given integer deltas `(dx, dy) = lead - follow`:
/// - both deltas in `[-1, 1]`: the follower does not move;
/// - `|dx| == 2`, `dy == 0`: one step toward the leader along x;
/// - `dx == 0`, `|dy| == 2`: one step toward the leader along y;
/// - `|dx| == 2`, `|dy| == 1`: align on the leader's row, one step along x;
/// - `|dx| == 1`, `|dy| == 2`: align on the leader's column, one step along y;
/// - `|dx| == 2`, `|dy| == 2`: one diagonal step toward the leader.
/// No other delta arises while heads move one unit at a time.
pub open spec fn follow_target(lead: Position, follow: Position) -> Position
    recommends
        chebyshev(lead, follow) <= 2,
{
    let dx: int = lead.x - follow.x;
    let dy: int = lead.y - follow.y;
    if -1 <= dx <= 1 && -1 <= dy <= 1 {
        follow
    } else if (dx == 2 || dx == -2) && dy == 0 {
        Position { x: (follow.x + sign(dx)) as i32, y: follow.y }
    } else if dx == 0 && (dy == 2 || dy == -2) {
        Position { x: follow.x, y: (follow.y + sign(dy)) as i32 }
    } else if (dx == 2 || dx == -2) && (dy == 1 || dy == -1) {
        Position { x: (follow.x + sign(dx)) as i32, y: lead.y }
    } else if (dx == 1 || dx == -1) && (dy == 2 || dy == -2) {
        Position { x: lead.x, y: (follow.y + sign(dy)) as i32 }
    } else if (dx == 2 || dx == -2) && (dy == 2 || dy == -2) {
        Position { x: (follow.x + sign(dx)) as i32, y: (follow.y + sign(dy)) as i32 }
    } else {
        follow
    }
}

/// After the follower-update rule runs on a pair at most two apart, the
/// follower is adjacent to its leader again, and it has moved at most one
/// unit in each coordinate.
pub proof fn lemma_follow_target_close(lead: Position, follow: Position)
    requires
        chebyshev(lead, follow) <= 2,
    ensures
        chebyshev(lead, follow_target(lead, follow)) <= 1,
        chebyshev(follow, follow_target(lead, follow)) <= 1,
{
}

/// A chain is well formed when every knot is within Chebyshev distance one
/// of the knot before it.
pub open spec fn chain_wf(s: Seq<Position>) -> bool {
    forall|i: int| 0 <= i < s.len() - 1 ==> chebyshev(s[i], #[trigger] s[i + 1]) <= 1
}

/// The chain `s` with knots from index `i` on settled, each one pulled
/// after the (already settled) knot before it.
pub open spec fn settle_from(s: Seq<Position>, i: int) -> Seq<Position>
    recommends
        1 <= i,
    decreases s.len() - i,
{
    if i < 1 || i >= s.len() {
        s
    } else {
        settle_from(s.update(i, follow_target(s[i - 1], s[i])), i + 1)
    }
}

/// The whole chain after one unit step of the head in direction `dir`:
/// the head moves, then every follower settles in order.
pub open spec fn step_chain(s: Seq<Position>, dir: Direction) -> Seq<Position>
    recommends
        s.len() >= 1,
{
    settle_from(s.update(0, moved_head(s[0], dir)), 1)
}

/// A chain of knots, index 0 the head, the last knot the tail.
pub struct Rope3 {
    knots: Vec<Position>,
}

impl View for Rope3 {
    type V = Seq<Position>;

    closed spec fn view(&self) -> Seq<Position> {
        self.knots@
    }
}

impl Rope3 {
    /// Whether the chain is nonempty and every adjacent pair of knots is
    /// within Chebyshev distance one.
    pub open spec fn wf(&self) -> bool {
        self@.len() >= 1 && chain_wf(self@)
    }

    /// A chain of `n` knots, all at the origin.
    pub fn new(n: usize) -> (r: Self)
        requires
            n >= 1,
        ensures
            r@.len() == n,
            forall|i: int| 0 <= i < n ==> r@[i] == (Position { x: 0, y: 0 }),
            r.wf(),
    {
        let mut knots: Vec<Position> = Vec::new();
        let mut i: usize = 0;
        while i < n
            invariant
                0 <= i <= n,
                knots@.len() == i,
                forall|j: int| 0 <= j < i ==> knots@[j] == (Position { x: 0, y: 0 }),
            decreases n - i,
        {
            knots.push(Position { x: 0, y: 0 });
            i = i + 1;
        }
        Rope3 { knots }
    }

    /// The last knot, or `None` for an empty chain.
    pub fn tail(&self) -> (r: Option<Position>)
        ensures
            r == if self@.len() == 0 {
                None::<Position>
            } else {
                Some(self@.last())
            },
    {
        let n: usize = self.knots.len();
        if n == 0 {
            None
        } else {
            Some(self.knots[n - 1])
        }
    }

    /// Moves the head one unit in `dir`, then drags every follower after
    /// its leader under the follower-update rule. No knot moves more than
    /// one unit in either coordinate.
    pub fn step(&mut self, dir: &Direction)
        requires
            old(self).wf(),
            head_has_room(old(self)@[0], *dir),
        ensures
            final(self)@ == step_chain(old(self)@, *dir),
            final(self)@.len() == old(self)@.len(),
            final(self).wf(),
            forall|k: int|
                0 <= k < old(self)@.len() ==> chebyshev(old(self)@[k], #[trigger] final(self)@[k]) <= 1,
    {
        let n: usize = self.knots.len();
        let head: Position = self.knots[0];
        let new_head: Position = match dir {
            Direction::Left => Position { x: head.x - 1, y: head.y },
            Direction::Right => Position { x: head.x + 1, y: head.y },
            Direction::Up => Position { x: head.x, y: head.y + 1 },
            Direction::Down => Position { x: head.x, y: head.y - 1 },
        };
        self.knots[0] = new_head;
        let ghost start = self.knots@;
        let ghost orig = old(self)@;
        let mut i: usize = 1;
        while i < n
            invariant
                1 <= i <= n,
                n == self.knots@.len(),
                n == orig.len(),
                chain_wf(orig),
                settle_from(start, 1) == settle_from(self.knots@, i as int),
                forall|j: int| i <= j < n ==> self.knots@[j] == orig[j],
                forall|k: int| 0 <= k < n ==> chebyshev(orig[k], #[trigger] self.knots@[k]) <= 1,
                forall|j: int| 0 <= j < i - 1 ==> chebyshev(self.knots@[j], #[trigger] self.knots@[j + 1]) <= 1,
            decreases n - i,
        {
            let lead: Position = self.knots[i - 1];
            let mut follow: Position = self.knots[i];
            proof {
                assert(chebyshev(orig[i - 1], self.knots@[i - 1]) <= 1);
                assert(chebyshev(orig[i - 1], orig[i - 1 + 1]) <= 1);
            }
            Self::update_follower(&lead, &mut follow);
            proof {
                lemma_follow_target_close(lead, self.knots@[i as int]);
            }
            self.knots[i] = follow;
            i = i + 1;
        }
    }

    /// Drags a follower knot after its leader by the follower-update rule.
    /// The pair must be at most two apart in Chebyshev distance; afterwards it
    /// is at most one apart, and the follower has moved at most one unit.
    pub fn update_follower(lead: &Position, follow: &mut Position)
        requires
            chebyshev(*lead, *old(follow)) <= 2,
        ensures
            *final(follow) == follow_target(*lead, *old(follow)),
            chebyshev(*lead, *final(follow)) <= 1,
            chebyshev(*old(follow), *final(follow)) <= 1,
    {
        let dx: i32 = lead.x - follow.x;
        let dy: i32 = lead.y - follow.y;
        if -1 <= dx && dx <= 1 && -1 <= dy && dy <= 1 {
            // already touching: no update needed
        } else if (dx == 2 || dx == -2) && dy == 0 {
            follow.x = follow.x + dx / 2;
        } else if dx == 0 && (dy == 2 || dy == -2) {
            follow.y = follow.y + dy / 2;
        } else if (dx == 2 || dx == -2) && (dy == 1 || dy == -1) {
            follow.y = lead.y;
            follow.x = follow.x + dx / 2;
        } else if (dx == 1 || dx == -1) && (dy == 2 || dy == -2) {
            follow.x = lead.x;
            follow.y = follow.y + dy / 2;
        } else {
            follow.x = follow.x + dx / 2;
            follow.y = follow.y + dy / 2;
        }
    }
}

/// A parsed motion command: a direction and a positive step count.
#[derive(Clone, Copy, PartialEq, Eq, Debug, Structural)]
pub struct Motion {
    pub steps: u32,
    pub dir: Direction,
}

/// The character that names direction `d` in a motion line.
pub open spec fn dir_char(d: Direction) -> char {
    match d {
        Direction::Left => 'L',
        Direction::Right => 'R',
        Direction::Up => 'U',
        Direction::Down => 'D',
    }
}

/// The direction that the character `c` names, if any.
pub open spec fn char_dir(c: char) -> Option<Direction> {
    if c == 'L' {
        Some(Direction::Left)
    } else if c == 'R' {
        Some(Direction::Right)
    } else if c == 'U' {
        Some(Direction::Up)
    } else if c == 'D' {
        Some(Direction::Down)
    } else {
        None
    }
}

/// What parsing a motion line yields: the line must be a direction letter,
/// one space, and a positive step count in decimal digits.
pub open spec fn spec_parse_motion(s: Seq<char>) -> Result<Motion, ParseError> {
    if s.len() < 2 || s[1] != ' ' || char_dir(s[0]) is None {
        Err(ParseError::InvalidDirection)
    } else {
        let digits = s.skip(2);
        if digits.len() == 0 || !all_digits(digits) || digits_val(digits) > u32::MAX
            || digits_val(digits) == 0 {
            Err(ParseError::InvalidCount)
        } else {
            match char_dir(s[0]) {
                Some(d) => Ok(Motion { steps: digits_val(digits) as u32, dir: d }),
                None => Err(ParseError::InvalidDirection),
            }
        }
    }
}

/// The text of a motion command: its direction letter, one space, and its
/// step count in decimal digits.
pub open spec fn spec_render_motion(m: Motion) -> Seq<char> {
    seq![dir_char(m.dir), ' '] + spec_digits(m.steps as int)
}

impl Motion {
    /// A motion of `steps` unit steps in direction `dir`.
    pub fn new(steps: u32, dir: Direction) -> (r: Self)
        ensures
            r == (Motion { steps, dir }),
    {
        Motion { steps, dir }
    }

    /// Parses a motion line of the form `"<Dir> <count>"`, where the
    /// direction is one of `L`, `R`, `U`, `D` and the count is a positive
    /// decimal number.
    pub fn parse(s: &str) -> (r: Result<Motion, ParseError>)
        ensures
            r == spec_parse_motion(s@),
    {
        let n: usize = s.unicode_len();
        if n < 2 {
            return Err(ParseError::InvalidDirection);
        }
        let c0: char = s.get_char(0);
        let c1: char = s.get_char(1);
        if c1 != ' ' {
            return Err(ParseError::InvalidDirection);
        }
        let dir: Direction = match c0 {
            'L' => Direction::Left,
            'R' => Direction::Right,
            'U' => Direction::Up,
            'D' => Direction::Down,
            _ => {
                return Err(ParseError::InvalidDirection);
            },
        };
        let mut digits: Vec<char> = Vec::new();
        let mut i: usize = 2;
        while i < n
            invariant
                2 <= i <= n,
                n == s@.len(),
                digits@ == s@.subrange(2, i as int),
            decreases n - i,
        {
            digits.push(s.get_char(i));
            proof {
                assert(digits@ =~= s@.subrange(2, i + 1));
            }
            i = i + 1;
        }
        proof {
            assert(digits@ =~= s@.skip(2));
        }
        match crate::text::parse_u32(&digits) {
            None => Err(ParseError::InvalidCount),
            Some(v) => {
                if v == 0 {
                    Err(ParseError::InvalidCount)
                } else {
                    Ok(Motion { steps: v, dir })
                }
            },
        }
    }

    /// Renders the motion back to its line form `"<Dir> <count>"`.
    pub fn render(&self) -> (r: String)
        ensures
            r@ == spec_render_motion(*self),
    {
        let mut out = String::new();
        let c: char = match self.dir {
            Direction::Left => 'L',
            Direction::Right => 'R',
            Direction::Up => 'U',
            Direction::Down => 'D',
        };
        out.push(c);
        out.push(' ');
        crate::text::push_digits(self.steps, &mut out);
        proof {
            assert(out@ =~= spec_render_motion(*self));
        }
        out
    }
}

/// Rendering a motion and parsing the text back yields the same motion.
pub proof fn lemma_motion_render_parse(m: Motion)
    requires
        m.steps >= 1,
    ensures
        spec_parse_motion(spec_render_motion(m)) == Ok::<Motion, ParseError>(m),
{
    crate::text::lemma_spec_digits_val(m.steps as int);
    let s = spec_render_motion(m);
    assert(s.skip(2) =~= spec_digits(m.steps as int));
    assert(s[0] == dir_char(m.dir) && s[1] == ' ');
}

/// Parsing a canonical motion line (one whose count has no leading zero)
/// and rendering the motion back reproduces the line.
pub proof fn lemma_motion_parse_render(s: Seq<char>)
    requires
        spec_parse_motion(s) is Ok,
        s.len() >= 3 && s[2] != '0',
    ensures
        spec_render_motion(spec_parse_motion(s)->Ok_0) == s,
{
    let digits = s.skip(2);
    assert(digits[0] == s[2]);
    crate::text::lemma_digits_val_nonneg(digits);
    crate::text::lemma_digits_round_trip(digits);
    let m = spec_parse_motion(s)->Ok_0;
    assert(spec_digits(m.steps as int) == digits);
    assert(spec_render_motion(m) =~= s);
}


/// A chain of `n` knots, all at the origin.
pub open spec fn origin_chain(n: nat) -> Seq<Position> {
    Seq::new(n, |i: int| Position { x: 0, y: 0 })
}

/// The chain of `n` knots after the unit steps `dirs` have run, starting
/// from the origin chain.
pub open spec fn chain_after(n: nat, dirs: Seq<Direction>) -> Seq<Position>
    decreases dirs.len(),
{
    if dirs.len() == 0 {
        origin_chain(n)
    } else {
        step_chain(chain_after(n, dirs.drop_last()), dirs.last())
    }
}

/// Every position the tail of an `n`-knot chain occupies while the unit
/// steps `dirs` run, the starting position included.
pub open spec fn visited_tails(n: nat, dirs: Seq<Direction>) -> Set<Position>
    decreases dirs.len(),
{
    if dirs.len() == 0 {
        Set::empty().insert(origin_chain(n).last())
    } else {
        visited_tails(n, dirs.drop_last()).insert(chain_after(n, dirs).last())
    }
}

/// The unit steps that a motion list performs: each motion's direction,
/// repeated once per step of its count.
pub open spec fn unit_dirs(ms: Seq<Motion>) -> Seq<Direction>
    decreases ms.len(),
{
    if ms.len() == 0 {
        Seq::empty()
    } else {
        unit_dirs(ms.drop_last()) + Seq::new(ms.last().steps as nat, |i: int| ms.last().dir)
    }
}

/// How many unit steps a motion list performs in all.
pub open spec fn total_steps(ms: Seq<Motion>) -> int
    decreases ms.len(),
{
    if ms.len() == 0 {
        0
    } else {
        total_steps(ms.drop_last()) + ms.last().steps
    }
}

/// The motion list with every motion pre-expanded into single-step
/// motions of the same direction.
pub open spec fn expand_motions(ms: Seq<Motion>) -> Seq<Motion>
    decreases ms.len(),
{
    if ms.len() == 0 {
        Seq::empty()
    } else {
        expand_motions(ms.drop_last()) + Seq::new(
            ms.last().steps as nat,
            |i: int| Motion { steps: 1, dir: ms.last().dir },
        )
    }
}

/// Every knot of `s` has both coordinates within `b` of the origin.
pub open spec fn chain_bounded(s: Seq<Position>, b: int) -> bool {
    forall|k: int| 0 <= k < s.len() ==> pos_bounded(#[trigger] s[k], b)
}

/// Both coordinates of `p` are within `b` of the origin.
pub open spec fn pos_bounded(p: Position, b: int) -> bool {
    -b <= p.x <= b && -b <= p.y <= b
}

/// The unit steps of a motion list are not changed by splitting over a
/// concatenation.
proof fn lemma_unit_dirs_concat(a: Seq<Motion>, b: Seq<Motion>)
    ensures
        unit_dirs(a + b) == unit_dirs(a) + unit_dirs(b),
    decreases b.len(),
{
    if b.len() == 0 {
        assert(a + b =~= a);
        assert(unit_dirs(a) + unit_dirs(b) =~= unit_dirs(a));
    } else {
        assert((a + b).drop_last() =~= a + b.drop_last());
        assert((a + b).last() == b.last());
        lemma_unit_dirs_concat(a, b.drop_last());
        assert(unit_dirs(a + b) =~= unit_dirs(a) + unit_dirs(b));
    }
}

/// A run of `k` single-step motions in direction `d` performs the same
/// unit steps as one motion of count `k`.
proof fn lemma_unit_dirs_repeat(k: nat, d: Direction)
    ensures
        unit_dirs(Seq::new(k, |i: int| Motion { steps: 1, dir: d })) == Seq::new(k, |i: int| d),
    decreases k,
{
    let ones = Seq::new(k, |i: int| Motion { steps: 1, dir: d });
    if k == 0 {
        assert(unit_dirs(ones) =~= Seq::new(k, |i: int| d));
    } else {
        assert(ones.drop_last() =~= Seq::new((k - 1) as nat, |i: int| Motion { steps: 1, dir: d }));
        lemma_unit_dirs_repeat((k - 1) as nat, d);
        assert(unit_dirs(ones) =~= Seq::new(k, |i: int| d));
    }
}

/// Pre-expanding a motion list into single-step motions leaves its unit
/// steps, and so every position its chain visits, unchanged: running the
/// expanded list gives the same visited-tail set as the list it came from.
pub proof fn lemma_expanded_motions_visit_same(ms: Seq<Motion>, n: nat)
    ensures
        unit_dirs(expand_motions(ms)) == unit_dirs(ms),
        visited_tails(n, unit_dirs(expand_motions(ms))) == visited_tails(n, unit_dirs(ms)),
    decreases ms.len(),
{
    if ms.len() == 0 {
        assert(unit_dirs(expand_motions(ms)) =~= unit_dirs(ms));
    } else {
        lemma_expanded_motions_visit_same(ms.drop_last(), n);
        let ones = Seq::new(ms.last().steps as nat, |i: int| Motion { steps: 1, dir: ms.last().dir });
        lemma_unit_dirs_concat(expand_motions(ms.drop_last()), ones);
        lemma_unit_dirs_repeat(ms.last().steps as nat, ms.last().dir);
        assert(unit_dirs(expand_motions(ms)) =~= unit_dirs(ms));
    }
}

/// Whether `v` holds the position `p`.
fn contains_pos(v: &Vec<Position>, p: Position) -> (b: bool)
    ensures
        b == v@.contains(p),
{
    let mut i: usize = 0;
    while i < v.len()
        invariant
            0 <= i <= v@.len(),
            forall|j: int| 0 <= j < i ==> v@[j] != p,
        decreases v@.len() - i,
    {
        if v[i] == p {
            return true;
        }
        i = i + 1;
    }
    false
}

/// Runs every motion one unit step at a time on a fresh chain of
/// `knots` knots and counts the distinct positions that the last knot
/// occupies, the starting origin included. The total number of unit steps
/// must fit the coordinate range.
pub fn count_tail_positions(motions: &Vec<Motion>, knots: usize) -> (r: usize)
    requires
        knots >= 1,
        total_steps(motions@) <= i32::MAX,
    ensures
        r == visited_tails(knots as nat, unit_dirs(motions@)).len(),
{
    let ghost n = knots as nat;
    let mut rope = Rope3::new(knots);
    let mut visited: Vec<Position> = Vec::new();
    let start: Position = match rope.tail() {
        Some(p) => p,
        None => vstd::pervasive::unreached(),
    };
    visited.push(start);
    proof {
        assert(rope@ =~= origin_chain(n));
        assert(unit_dirs(motions@.take(0)) =~= Seq::<Direction>::empty());
        assert(chain_after(n, Seq::<Direction>::empty()) == origin_chain(n));
        assert(visited@ =~= seq![start]);
        assert(visited@[0] == start);
        assert(visited@.contains(start));
        assert(visited@.to_set() =~= visited_tails(n, Seq::<Direction>::empty()));
        assert(visited@.no_duplicates());
        assert(total_steps(motions@.take(0)) == 0);
        lemma_total_steps_bounds(motions@, 0);
    }
    let mut mi: usize = 0;
    while mi < motions.len()
        invariant
            0 <= mi <= motions@.len(),
            knots >= 1,
            n == knots as nat,
            total_steps(motions@) <= i32::MAX,
            rope@.len() == knots,
            rope.wf(),
            rope@ == chain_after(n, unit_dirs(motions@.take(mi as int))),
            visited@.no_duplicates(),
            visited@.to_set() == visited_tails(n, unit_dirs(motions@.take(mi as int))),
            chain_bounded(rope@, total_steps(motions@.take(mi as int))),
            0 <= total_steps(motions@.take(mi as int)) <= total_steps(motions@),
        decreases motions@.len() - mi,
    {
        let m: Motion = motions[mi];
        let ghost before = unit_dirs(motions@.take(mi as int));
        let ghost base = total_steps(motions@.take(mi as int));
        proof {
            lemma_total_steps_bounds(motions@, mi as int + 1);
            assert(motions@.take(mi as int + 1).drop_last() =~= motions@.take(mi as int));
            assert(motions@.take(mi as int + 1).last() == m);
        }
        let mut j: u32 = 0;
        while j < m.steps
            invariant
                0 <= j <= m.steps,
                knots >= 1,
                n == knots as nat,
                m == motions@[mi as int],
                0 <= mi < motions@.len(),
                base == total_steps(motions@.take(mi as int)),
                before == unit_dirs(motions@.take(mi as int)),
                base + m.steps <= total_steps(motions@),
                0 <= base,
                total_steps(motions@) <= i32::MAX,
                rope@.len() == knots,
                rope.wf(),
                rope@ == chain_after(n, before + Seq::new(j as nat, |i: int| m.dir)),
                visited@.no_duplicates(),
                visited@.to_set() == visited_tails(n, before + Seq::new(j as nat, |i: int| m.dir)),
                chain_bounded(rope@, base + j),
            decreases m.steps - j,
        {
            let ghost cur = before + Seq::new(j as nat, |i: int| m.dir);
            proof {
                assert(pos_bounded(rope@[0], base + j));
                assert(base + j < total_steps(motions@));
            }
            rope.step(&m.dir);
            let t: Position = match rope.tail() {
                Some(p) => p,
                None => vstd::pervasive::unreached(),
            };
            let ghost vis_before = visited@;
            if !contains_pos(&visited, t) {
                visited.push(t);
                proof {
                    vis_before.lemma_push_to_set_commute(t);
                }
            } else {
                proof {
                    assert(vis_before.to_set().contains(t));
                    assert(vis_before.to_set().insert(t) =~= vis_before.to_set());
                }
            }
            proof {
                let next = before + Seq::new((j + 1) as nat, |i: int| m.dir);
                assert(next.drop_last() =~= cur);
                assert(next.last() == m.dir);
                assert(next.len() == cur.len() + 1);
                assert(rope@ == chain_after(n, next));
                assert(t == chain_after(n, next).last());
                assert(visited@.to_set() =~= visited_tails(n, next));
                assert(chain_bounded(rope@, base + j + 1));
            }
            j = j + 1;
        }
        proof {
            lemma_total_steps_bounds(motions@, mi as int + 1);
            assert(motions@.take(mi as int + 1).drop_last() =~= motions@.take(mi as int));
            assert(motions@.take(mi as int + 1).last() == m);
            assert(unit_dirs(motions@.take(mi as int + 1)) =~= before + Seq::new(
                m.steps as nat,
                |i: int| m.dir,
            ));
        }
        mi = mi + 1;
    }
    proof {
        assert(motions@.take(motions@.len() as int) =~= motions@);
        visited@.unique_seq_to_set();
    }
    visited.len()
}

/// The first `i` motions of a list perform at least zero and at most the
/// whole list's unit steps.
proof fn lemma_total_steps_bounds(ms: Seq<Motion>, i: int)
    requires
        0 <= i <= ms.len(),
    ensures
        0 <= total_steps(ms.take(i)),
        total_steps(ms.take(i)) <= total_steps(ms),
        i > 0 ==> total_steps(ms.take(i)) == total_steps(ms.take(i - 1)) + ms[i - 1].steps,
    decreases ms.len() - i, ms.len(), i,
{
    assert(total_steps_nonneg_holds(ms.take(i))) by {
        lemma_total_steps_nonneg(ms.take(i));
    }
    if i > 0 {
        assert(ms.take(i).drop_last() =~= ms.take(i - 1));
        assert(ms.take(i).last() == ms[i - 1]);
    }
    if i < ms.len() {
        lemma_total_steps_bounds(ms, i + 1);
    } else {
        assert(ms.take(i) =~= ms);
    }
}

/// A helper naming for nonnegative totals.
spec fn total_steps_nonneg_holds(ms: Seq<Motion>) -> bool {
    total_steps(ms) >= 0
}

/// A motion list performs at least zero unit steps.
proof fn lemma_total_steps_nonneg(ms: Seq<Motion>)
    ensures
        total_steps(ms) >= 0,
    decreases ms.len(),
{
    if ms.len() > 0 {
        lemma_total_steps_nonneg(ms.drop_last());
    }
}


/// A two-knot chain: one head and one tail, each starting at the origin.
#[derive(Debug)]
pub struct Rope {
    pub head: Position,
    pub tail: Position,
}

impl Default for Rope {
    /// Both knots at the origin.
    fn default() -> (r: Self)
        ensures
            r.head == (Position { x: 0, y: 0 }),
            r.tail == (Position { x: 0, y: 0 }),
    {
        Rope { head: Position { x: 0, y: 0 }, tail: Position { x: 0, y: 0 } }
    }
}

impl Rope {
    /// The head knot.
    pub fn head(&self) -> (r: Position)
        ensures
            r == self.head,
    {
        self.head
    }

    /// The tail knot.
    pub fn tail(&self) -> (r: Position)
        ensures
            r == self.tail,
    {
        self.tail
    }

    /// Moves the head one unit in `dir` and drags the tail after it under
    /// the follower-update rule. The tail moves at most one unit and ends
    /// adjacent to the head again.
    pub fn step(&mut self, dir: &Direction)
        requires
            chebyshev(old(self).head, old(self).tail) <= 1,
            head_has_room(old(self).head, *dir),
        ensures
            final(self).head == moved_head(old(self).head, *dir),
            final(self).tail == follow_target(final(self).head, old(self).tail),
            chebyshev(final(self).head, final(self).tail) <= 1,
            chebyshev(old(self).tail, final(self).tail) <= 1,
    {
        match dir {
            // After the move, the tail lags behind only if it is now two
            // columns (or rows) away; it then snaps onto the head's row
            // (or column) and advances one step after it.
            Direction::Left => {
                self.head.x = self.head.x - 1;
                if self.tail.x - self.head.x >= 2 {
                    self.tail.y = self.head.y;
                    self.tail.x = self.tail.x - 1;
                }
            },
            Direction::Right => {
                self.head.x = self.head.x + 1;
                if self.head.x - self.tail.x >= 2 {
                    self.tail.y = self.head.y;
                    self.tail.x = self.tail.x + 1;
                }
            },
            Direction::Up => {
                self.head.y = self.head.y + 1;
                if self.head.y - self.tail.y >= 2 {
                    self.tail.x = self.head.x;
                    self.tail.y = self.tail.y + 1;
                }
            },
            Direction::Down => {
                self.head.y = self.head.y - 1;
                if self.tail.y - self.head.y >= 2 {
                    self.tail.x = self.head.x;
                    self.tail.y = self.tail.y - 1;
                }
            },
        }
    }
}


} // verus!
