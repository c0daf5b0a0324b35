//! Stacks of crates rearranged by "move N from A to B" steps.
//!
//! A setup drawing lists the crates bottom line last; the line under the
//! drawing names the stacks. A mover takes the top `N` crates of one stack
//! and puts them on another: the older crane moves them one at a time
//! (reversing their order), the newer one moves them as a block.

use vstd::prelude::*;
use vstd::string::*;

use crate::rucksack::is_letter;
use crate::text::{all_digits, digits_val, is_digit, spec_lines, spec_tokens};

verus! {

/// A rearrangement step that cannot run on the current stacks.
#[derive(Clone, Copy, PartialEq, Eq, Debug, Structural)]
pub enum StackError {
    /// The step names a source stack that does not exist.
    InvalidFromIndex,
    /// The source stack holds fewer crates than the step moves.
    StackExhausted,
    /// The step names a destination stack that does not exist.
    InvalidToIndex,
    /// A setup drawing must have at least the line naming the stacks.
    InvalidSetup,
    /// A stack whose top was asked for holds no crate.
    EmptyStack,
    /// A step line is not `"move <n> from <a> to <b>"`.
    InvalidOp,
}

/// One rearrangement step: move `count` crates from stack `from` to stack
/// `to`, both numbered from 1.
#[derive(Debug, Clone, Copy, PartialEq, Eq, Structural)]
pub struct Op {
    pub count: usize,
    pub from: usize,
    pub to: usize,
}

/// Whether `c` is an ASCII letter or digit.
pub open spec fn is_alnum(c: char) -> bool {
    is_digit(c) || is_letter(c)
}

/// Whether `c` is an ASCII letter or digit.
fn alnum(c: char) -> (r: bool)
    ensures
        r == is_alnum(c),
{
    if crate::text::char_digit(c).is_some() {
        return true;
    }
    let v: u32 = c as u32;
    if (97 <= v && v <= 122) || (65 <= v && v <= 90) {
        proof {
            assert(is_letter(c));
        }
        true
    } else {
        proof {
            assert(!is_letter(c));
        }
        false
    }
}

/// What one step does to the stacks: the top `count` crates leave the
/// source stack and land on the destination stack, reversed when moved
/// one at a time, in their order when moved as a block.
pub open spec fn spec_apply_op(stacks: Seq<Seq<char>>, op: Op, one_at_a_time: bool) -> Result<
    Seq<Seq<char>>,
    StackError,
> {
    if op.from < 1 || op.from > stacks.len() {
        Err(StackError::InvalidFromIndex)
    } else if stacks[op.from - 1].len() < op.count {
        Err(StackError::StackExhausted)
    } else if op.to < 1 || op.to > stacks.len() {
        Err(StackError::InvalidToIndex)
    } else {
        let from = stacks[op.from - 1];
        let moved = from.skip(from.len() - op.count);
        let placed = if one_at_a_time {
            moved.reverse()
        } else {
            moved
        };
        let removed = stacks.update(op.from - 1, from.take(from.len() - op.count));
        Ok(removed.update(op.to - 1, removed[op.to - 1] + placed))
    }
}

/// What a sequence of steps does to the stacks: the steps run in order,
/// and the first one that cannot run stops the run with its error.
pub open spec fn spec_rearrange(stacks: Seq<Seq<char>>, ops: Seq<Op>, one_at_a_time: bool) -> Result<
    Seq<Seq<char>>,
    StackError,
> decreases ops.len() {
    if ops.len() == 0 {
        Ok(stacks)
    } else {
        match spec_apply_op(stacks, ops[0], one_at_a_time) {
            Err(e) => Err(e),
            Ok(next) => spec_rearrange(next, ops.skip(1), one_at_a_time),
        }
    }
}

/// Running one more step at the end runs the earlier steps first.
proof fn lemma_rearrange_snoc(stacks: Seq<Seq<char>>, ops: Seq<Op>, op: Op, one_at_a_time: bool)
    ensures
        spec_rearrange(stacks, ops.push(op), one_at_a_time) == (match spec_rearrange(
            stacks,
            ops,
            one_at_a_time,
        ) {
            Ok(t) => spec_apply_op(t, op, one_at_a_time),
            Err(e) => Err(e),
        }),
    decreases ops.len(),
{
    if ops.len() == 0 {
        assert(ops.push(op)[0] == op);
        assert(ops.push(op).skip(1) =~= Seq::<Op>::empty());
        let r = spec_apply_op(stacks, op, one_at_a_time);
        if r is Ok {
            assert(spec_rearrange(r->Ok_0, Seq::<Op>::empty(), one_at_a_time) == Ok::<
                Seq<Seq<char>>,
                StackError,
            >(r->Ok_0));
        }
    } else {
        assert(ops.push(op).skip(1) =~= ops.skip(1).push(op));
        assert(ops.push(op)[0] == ops[0]);
        match spec_apply_op(stacks, ops[0], one_at_a_time) {
            Err(e) => {},
            Ok(next) => {
                lemma_rearrange_snoc(next, ops.skip(1), op, one_at_a_time);
            },
        }
    }
}

/// The stacks of crates, bottom of each stack first.
#[derive(Debug, Clone, Default)]
pub struct Stacks(Vec<Vec<char>>);

impl View for Stacks {
    type V = Seq<Seq<char>>;

    closed spec fn view(&self) -> Seq<Seq<char>> {
        Seq::new(self.0@.len() as nat, |i: int| self.0@[i]@)
    }
}

impl Stacks {
    /// Adds one stack after the existing ones, bottom crate first.
    pub fn add(&mut self, stack: &Vec<char>)
        ensures
            final(self)@ == old(self)@.push(stack@),
    {
        let mut copy: Vec<char> = Vec::new();
        let mut i: usize = 0;
        while i < stack.len()
            invariant
                0 <= i <= stack@.len(),
                copy@ == stack@.take(i as int),
            decreases stack@.len() - i,
        {
            copy.push(stack[i]);
            proof {
                assert(copy@ =~= stack@.take(i + 1));
            }
            i = i + 1;
        }
        proof {
            assert(copy@ =~= stack@);
        }
        self.0.push(copy);
        proof {
            assert(self@ =~= old(self)@.push(stack@));
        }
    }

    /// Runs one step: moves the top `op.count` crates of stack `op.from`
    /// onto stack `op.to`, one at a time when `one_at_a_time` (reversing
    /// their order), as a block otherwise. On an error the stacks are
    /// unchanged.
    fn apply_op(&mut self, op: &Op, one_at_a_time: bool) -> (r: Result<(), StackError>)
        ensures
            match r {
                Ok(()) => spec_apply_op(old(self)@, *op, one_at_a_time) == Ok::<
                    Seq<Seq<char>>,
                    StackError,
                >(final(self)@),
                Err(e) => spec_apply_op(old(self)@, *op, one_at_a_time) == Err::<
                    Seq<Seq<char>>,
                    StackError,
                >(e) && final(self)@ == old(self)@,
            },
    {
        let n: usize = self.0.len();
        if op.from < 1 || op.from > n {
            return Err(StackError::InvalidFromIndex);
        }
        let from_idx: usize = op.from - 1;
        let from_len: usize = self.0[from_idx].len();
        if from_len < op.count {
            return Err(StackError::StackExhausted);
        }
        if op.to < 1 || op.to > n {
            return Err(StackError::InvalidToIndex);
        }
        let to_idx: usize = op.to - 1;
        let keep: usize = from_len - op.count;

        let ghost from0 = self@[from_idx as int];
        let ghost moved = from0.skip(keep as int);

        // Copy out the kept bottom part and the moved top block.
        let mut kept: Vec<char> = Vec::new();
        let mut i: usize = 0;
        while i < keep
            invariant
                0 <= i <= keep <= from_len,
                from_idx < self.0@.len(),
                from_len == self.0@[from_idx as int]@.len(),
                from0 == self.0@[from_idx as int]@,
                kept@ == from0.take(keep as int).take(i as int),
            decreases keep - i,
        {
            kept.push(self.0[from_idx][i]);
            proof {
                assert(kept@ =~= from0.take(keep as int).take(i + 1));
            }
            i = i + 1;
        }
        proof {
            assert(kept@ =~= from0.take(keep as int));
        }
        let mut block: Vec<char> = Vec::new();
        let mut i: usize = keep;
        while i < from_len
            invariant
                keep <= i <= from_len,
                from_idx < self.0@.len(),
                from_len == self.0@[from_idx as int]@.len(),
                from0 == self.0@[from_idx as int]@,
                moved == from0.skip(keep as int),
                block@ == from0.subrange(keep as int, i as int),
            decreases from_len - i,
        {
            block.push(self.0[from_idx][i]);
            proof {
                assert(block@ =~= from0.subrange(keep as int, i + 1));
            }
            i = i + 1;
        }
        proof {
            assert(block@ =~= moved);
        }

        // Order the moved block as the crane places it.
        let count: usize = block.len();
        let mut placed: Vec<char> = Vec::new();
        if one_at_a_time {
            let mut i: usize = count;
            while i > 0
                invariant
                    0 <= i <= count,
                    count == block@.len(),
                    placed@ == block@.skip(i as int).reverse(),
                decreases i,
            {
                placed.push(block[i - 1]);
                proof {
                    assert(placed@ =~= block@.skip(i - 1).reverse());
                }
                i = i - 1;
            }
            proof {
                assert(placed@ =~= block@.reverse());
            }
        } else {
            let mut i: usize = 0;
            while i < count
                invariant
                    0 <= i <= count,
                    count == block@.len(),
                    placed@ == block@.take(i as int),
                decreases count - i,
            {
                placed.push(block[i]);
                proof {
                    assert(placed@ =~= block@.take(i + 1));
                }
                i = i + 1;
            }
            proof {
                assert(placed@ =~= block@);
            }
        }

        // Put the kept part back, then extend the destination stack.
        self.0[from_idx] = kept;
        let ghost removed = old(self)@.update(
            from_idx as int,
            from0.take(keep as int),
        );
        proof {
            assert(self@ =~= removed);
        }
        let ghost to0 = self@[to_idx as int];
        let mut dest: Vec<char> = Vec::new();
        let mut i: usize = 0;
        let to_len: usize = self.0[to_idx].len();
        while i < to_len
            invariant
                0 <= i <= to_len,
                to_idx < self.0@.len(),
                to_len == self.0@[to_idx as int]@.len(),
                to0 == self.0@[to_idx as int]@,
                dest@ == to0.take(i as int),
            decreases to_len - i,
        {
            dest.push(self.0[to_idx][i]);
            proof {
                assert(dest@ =~= to0.take(i + 1));
            }
            i = i + 1;
        }
        proof {
            assert(dest@ =~= to0);
        }
        let mut i: usize = 0;
        let placed_len: usize = placed.len();
        while i < placed_len
            invariant
                0 <= i <= placed_len,
                placed_len == placed@.len(),
                dest@ == to0 + placed@.take(i as int),
            decreases placed_len - i,
        {
            dest.push(placed[i]);
            proof {
                assert(dest@ =~= to0 + placed@.take(i + 1));
            }
            i = i + 1;
        }
        proof {
            assert(dest@ =~= to0 + placed@);
        }
        self.0[to_idx] = dest;
        proof {
            assert(self@ =~= removed.update(to_idx as int, removed[to_idx as int] + (
            if one_at_a_time {
                moved.reverse()
            } else {
                moved
            })));
        }
        Ok(())
    }

    /// Runs the steps in order with the given crane mode. On an error the
    /// steps before the failing one stay applied.
    pub fn rearrange(&mut self, ops: &Vec<Op>, one_at_a_time: bool) -> (r: Result<
        (),
        StackError,
    >)
        ensures
            match r {
                Ok(()) => spec_rearrange(old(self)@, ops@, one_at_a_time) == Ok::<
                    Seq<Seq<char>>,
                    StackError,
                >(final(self)@),
                Err(e) => {
                    &&& spec_rearrange(old(self)@, ops@, one_at_a_time) == Err::<
                        Seq<Seq<char>>,
                        StackError,
                    >(e)
                    &&& exists|k: int|
                        0 <= k < ops@.len() && spec_rearrange(
                            old(self)@,
                            ops@.take(k),
                            one_at_a_time,
                        ) == Ok::<Seq<Seq<char>>, StackError>(final(self)@)
                },
            },
    {
        let mut i: usize = 0;
        while i < ops.len()
            invariant
                0 <= i <= ops@.len(),
                spec_rearrange(old(self)@, ops@.take(i as int), one_at_a_time) == Ok::<
                    Seq<Seq<char>>,
                    StackError,
                >(self@),
            decreases ops@.len() - i,
        {
            let ghost before = self@;
            let op: Op = ops[i];
            let step = self.apply_op(&op, one_at_a_time);
            proof {
                lemma_rearrange_snoc(old(self)@, ops@.take(i as int), op, one_at_a_time);
                assert(ops@.take(i + 1) =~= ops@.take(i as int).push(op));
            }
            match step {
                Ok(()) => {},
                Err(e) => {
                    proof {
                        lemma_rearrange_prefix_err(old(self)@, ops@, i as int, one_at_a_time);
                    }
                    return Err(e);
                },
            }
            i = i + 1;
        }
        proof {
            assert(ops@.take(ops@.len() as int) =~= ops@);
        }
        Ok(())
    }

    /// Runs the steps with the older crane, which moves crates one at a
    /// time, reversing each moved block.
    pub fn rearrange_9000(&mut self, ops: &Vec<Op>) -> (r: Result<(), StackError>)
        ensures
            match r {
                Ok(()) => spec_rearrange(old(self)@, ops@, true) == Ok::<
                    Seq<Seq<char>>,
                    StackError,
                >(final(self)@),
                Err(e) => spec_rearrange(old(self)@, ops@, true) == Err::<
                    Seq<Seq<char>>,
                    StackError,
                >(e),
            },
    {
        self.rearrange(ops, true)
    }

    /// Runs the steps with the newer crane, which moves each block of
    /// crates in one lift, keeping its order.
    pub fn rearrange_9001(&mut self, ops: &Vec<Op>) -> (r: Result<(), StackError>)
        ensures
            match r {
                Ok(()) => spec_rearrange(old(self)@, ops@, false) == Ok::<
                    Seq<Seq<char>>,
                    StackError,
                >(final(self)@),
                Err(e) => spec_rearrange(old(self)@, ops@, false) == Err::<
                    Seq<Seq<char>>,
                    StackError,
                >(e),
            },
    {
        self.rearrange(ops, false)
    }

    /// The top crate of each stack, in stack order. Fails when some stack
    /// is empty.
    pub fn tops(self) -> (r: Result<String, StackError>)
        ensures
            match r {
                Ok(s) => {
                    &&& forall|i: int| 0 <= i < self@.len() ==> (#[trigger] self@[i]).len() > 0
                    &&& s@.len() == self@.len()
                    &&& forall|i: int| 0 <= i < self@.len() ==> s@[i] == (#[trigger] self@[i]).last()
                },
                Err(_) => exists|i: int| 0 <= i < self@.len() && (#[trigger] self@[i]).len() == 0,
            },
    {
        let mut res = String::new();
        let n: usize = self.0.len();
        let mut i: usize = 0;
        while i < n
            invariant
                0 <= i <= n,
                n == self@.len(),
                res@.len() == i,
                forall|k: int| 0 <= k < i ==> (#[trigger] self@[k]).len() > 0,
                forall|k: int| 0 <= k < i ==> res@[k] == (#[trigger] self@[k]).last(),
            decreases n - i,
        {
            let stack: &Vec<char> = &self.0[i];
            let m: usize = stack.len();
            if m == 0 {
                proof {
                    assert(self@[i as int].len() == 0);
                }
                return Err(StackError::EmptyStack);
            }
            res.push(stack[m - 1]);
            i = i + 1;
        }
        Ok(res)
    }
}

/// A run that fails at step `k` leaves exactly the first `k` steps applied.
proof fn lemma_rearrange_prefix_err(
    stacks: Seq<Seq<char>>,
    ops: Seq<Op>,
    k: int,
    one_at_a_time: bool,
)
    requires
        0 <= k < ops.len(),
        spec_rearrange(stacks, ops.take(k + 1), one_at_a_time) is Err,
    ensures
        spec_rearrange(stacks, ops, one_at_a_time) == spec_rearrange(
            stacks,
            ops.take(k + 1),
            one_at_a_time,
        ),
    decreases ops.len() - k,
{
    if k + 1 == ops.len() {
        assert(ops.take(k + 1) =~= ops);
    } else {
        lemma_rearrange_snoc(
            stacks,
            ops.take(k + 1),
            ops[k + 1],
            one_at_a_time,
        );
        assert(ops.take(k + 2) =~= ops.take(k + 1).push(ops[k + 1]));
        lemma_rearrange_prefix_err(stacks, ops, k + 1, one_at_a_time);
    }
}

impl Op {
    /// The step that moves `count` crates from stack `from` to stack `to`.
    pub fn new(count: usize, from: usize, to: usize) -> (r: Self)
        ensures
            r == (Op { count, from, to }),
    {
        Op { count, from, to }
    }

    /// Parses a step line `"move <n> from <a> to <b>"`, where the three
    /// numbers are decimal and fit in 32 bits.
    pub fn parse(s: &str) -> (r: Result<Op, StackError>)
        ensures
            r == spec_parse_op(s@),
    {
        let n: usize = s.unicode_len();
        let mut chars: Vec<char> = Vec::new();
        let mut i: usize = 0;
        while i < n
            invariant
                0 <= i <= n,
                n == s@.len(),
                chars@ == s@.take(i as int),
            decreases n - i,
        {
            chars.push(s.get_char(i));
            proof {
                assert(chars@ =~= s@.take(i + 1));
            }
            i = i + 1;
        }
        proof {
            assert(chars@ =~= s@);
        }
        let toks: Vec<Vec<char>> = crate::text::tokens(&chars);
        if toks.len() != 6 {
            return Err(StackError::InvalidOp);
        }
        if !crate::text::is_word(&toks[0], "move") || !crate::text::is_word(&toks[2], "from")
            || !crate::text::is_word(&toks[4], "to") {
            return Err(StackError::InvalidOp);
        }
        let count: u32 = match crate::text::parse_u32(&toks[1]) {
            Some(v) => v,
            None => {
                return Err(StackError::InvalidOp);
            },
        };
        let from: u32 = match crate::text::parse_u32(&toks[3]) {
            Some(v) => v,
            None => {
                return Err(StackError::InvalidOp);
            },
        };
        let to: u32 = match crate::text::parse_u32(&toks[5]) {
            Some(v) => v,
            None => {
                return Err(StackError::InvalidOp);
            },
        };
        Ok(Op { count: count as usize, from: from as usize, to: to as usize })
    }
}

/// Whether a number token is a nonempty digit string whose value fits in
/// 32 bits.
pub open spec fn num_token_ok(t: Seq<char>) -> bool {
    t.len() > 0 && all_digits(t) && digits_val(t) <= u32::MAX
}

/// What parsing a step line yields: the words `move`, `from` and `to`
/// around three decimal numbers, each fitting in 32 bits.
pub open spec fn spec_parse_op(s: Seq<char>) -> Result<Op, StackError> {
    let t = spec_tokens(s);
    if t.len() != 6 || t[0] != "move"@ || t[2] != "from"@ || t[4] != "to"@ || !num_token_ok(t[1])
        || !num_token_ok(t[3]) || !num_token_ok(t[5]) {
        Err(StackError::InvalidOp)
    } else {
        Ok(
            Op {
                count: digits_val(t[1]) as usize,
                from: digits_val(t[3]) as usize,
                to: digits_val(t[5]) as usize,
            },
        )
    }
}

/// The crate letters of column `idx`, read from line `k` of the drawing
/// upward to line 0: the bottom crate of a stack comes first.
pub open spec fn column_from(lines: Seq<Seq<char>>, k: int, idx: int) -> Seq<char>
    decreases k + 1,
{
    if k < 0 {
        Seq::<char>::empty()
    } else {
        (if idx < lines[k].len() && is_alnum(lines[k][idx]) {
            seq![lines[k][idx]]
        } else {
            Seq::<char>::empty()
        }) + column_from(lines, k - 1, idx)
    }
}

/// One stack per letter or digit of the naming line `names`: the stack
/// under name position `idx` holds the crate letters of column `idx` of
/// the drawing above, bottom first.
pub open spec fn stacks_of(names: Seq<char>, lines: Seq<Seq<char>>) -> Seq<Seq<char>>
    decreases names.len(),
{
    if names.len() == 0 {
        Seq::<Seq<char>>::empty()
    } else {
        stacks_of(names.drop_last(), lines) + (if is_alnum(names.last()) {
            seq![column_from(lines, lines.len() - 2, names.len() - 1)]
        } else {
            Seq::<Seq<char>>::empty()
        })
    }
}

/// What parsing a setup drawing yields: the last line names the stacks,
/// and each name position that holds a letter or digit opens one stack,
/// filled with that column's crate letters from the lines above.
pub open spec fn spec_parse_stacks(s: Seq<char>) -> Result<Seq<Seq<char>>, StackError> {
    let lines = spec_lines(s);
    if lines.len() == 0 {
        Err(StackError::InvalidSetup)
    } else {
        Ok(stacks_of(lines.last(), lines))
    }
}

impl Stacks {
    /// Parses a setup drawing. The last line names the stacks; each
    /// letter or digit on it opens one stack, read bottom-up from the
    /// same column of the lines above it.
    pub fn parse(s: &str) -> (r: Result<Stacks, StackError>)
        ensures
            match r {
                Ok(st) => spec_parse_stacks(s@) == Ok::<Seq<Seq<char>>, StackError>(st@),
                Err(e) => spec_parse_stacks(s@) == Err::<Seq<Seq<char>>, StackError>(e),
            },
    {
        let lines: Vec<Vec<char>> = crate::text::split_lines(s);
        let ghost sl = spec_lines(s@);
        if lines.len() == 0 {
            return Err(StackError::InvalidSetup);
        }
        let names: &Vec<char> = &lines[lines.len() - 1];
        let crates_cnt: usize = lines.len() - 1;
        let mut st = Stacks(Vec::new());
        proof {
            assert(st@ =~= stacks_of(names@.take(0), sl));
        }
        let mut idx: usize = 0;
        while idx < names.len()
            invariant
                0 <= idx <= names@.len(),
                sl == spec_lines(s@),
                lines@.len() == sl.len(),
                sl.len() >= 1,
                crates_cnt == sl.len() - 1,
                names@ == sl.last(),
                forall|k: int| 0 <= k < lines@.len() ==> #[trigger] lines@[k]@ == sl[k],
                st@ == stacks_of(names@.take(idx as int), sl),
            decreases names@.len() - idx,
        {
            let c: char = names[idx];
            proof {
                assert(names@.take(idx + 1).drop_last() =~= names@.take(idx as int));
                assert(names@.take(idx + 1).last() == names@[idx as int]);
            }
            if alnum(c) {
                let mut stack: Vec<char> = Vec::new();
                let mut j: usize = crates_cnt;
                while j > 0
                    invariant
                        0 <= j <= crates_cnt,
                        crates_cnt == sl.len() - 1,
                        lines@.len() == sl.len(),
                        idx < names@.len(),
                        forall|k: int| 0 <= k < lines@.len() ==> #[trigger] lines@[k]@ == sl[k],
                        stack@ + column_from(sl, j - 1, idx as int) == column_from(
                            sl,
                            crates_cnt - 1,
                            idx as int,
                        ),
                    decreases j,
                {
                    let row: &Vec<char> = &lines[j - 1];
                    if idx < row.len() {
                        let rc: char = row[idx];
                        if alnum(rc) {
                            stack.push(rc);
                        }
                    }
                    proof {
                        assert(stack@ + column_from(sl, j - 2, idx as int) =~= column_from(
                            sl,
                            crates_cnt - 1,
                            idx as int,
                        ));
                    }
                    j = j - 1;
                }
                proof {
                    assert(column_from(sl, -1, idx as int) =~= Seq::<char>::empty());
                    assert(stack@ =~= column_from(sl, crates_cnt - 1, idx as int));
                }
                st.add(&stack);
                proof {
                    assert(st@ =~= stacks_of(names@.take(idx + 1), sl));
                }
            } else {
                proof {
                    assert(st@ + Seq::<Seq<char>>::empty() =~= st@);
                    assert(st@ =~= stacks_of(names@.take(idx + 1), sl));
                }
            }
            idx = idx + 1;
        }
        proof {
            assert(names@.take(names@.len() as int) =~= names@);
        }
        Ok(st)
    }
}

} // verus!
