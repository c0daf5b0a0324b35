//! Calorie counting: grouped numbers summed per group, then the largest
//! and the three largest group totals.
//!
//! The input lists one number per line; an empty line ends a group.

use vstd::prelude::*;

use crate::text::{all_digits, digits_val, spec_lines};

verus! {

/// A calorie line that is not a number.
#[derive(Clone, Copy, PartialEq, Eq, Debug, Structural)]
pub enum CalorieError {
    /// A nonempty line must be a decimal number that fits in 32 bits.
    InvalidCalorie,
}

/// The lines split into groups at empty lines: always one more group than
/// there are empty lines.
pub open spec fn spec_groups(lines: Seq<Seq<char>>) -> Seq<Seq<Seq<char>>>
    decreases lines.len(),
{
    if lines.len() == 0 {
        seq![Seq::<Seq<char>>::empty()]
    } else if lines.last().len() == 0 {
        spec_groups(lines.drop_last()).push(Seq::<Seq<char>>::empty())
    } else {
        let r = spec_groups(lines.drop_last());
        r.update(r.len() - 1, r.last().push(lines.last()))
    }
}

/// Whether a calorie line is a number: nonempty, all digits, within 32
/// bits.
pub open spec fn calorie_line_ok(line: Seq<char>) -> bool {
    line.len() > 0 && all_digits(line) && digits_val(line) <= u32::MAX
}

/// Whether every line of every group is a number.
pub open spec fn groups_ok(groups: Seq<Seq<Seq<char>>>) -> bool {
    forall|i: int, j: int|
        0 <= i < groups.len() && 0 <= j < groups[i].len() ==> calorie_line_ok(
            #[trigger] groups[i][j],
        )
}

/// The sum of the numbers of one group.
pub open spec fn group_total(g: Seq<Seq<char>>) -> int
    decreases g.len(),
{
    if g.len() == 0 {
        0
    } else {
        group_total(g.drop_last()) + digits_val(g.last())
    }
}

/// Sums each group of calorie lines: groups are separated by empty lines,
/// and every nonempty line must be a decimal number within 32 bits.
pub fn group_totals(s: &str) -> (r: Result<Vec<u128>, CalorieError>)
    ensures
        match r {
            Ok(v) => {
                let groups = spec_groups(spec_lines(s@));
                &&& groups_ok(groups)
                &&& v@.len() == groups.len()
                &&& forall|i: int| 0 <= i < v@.len() ==> #[trigger] v@[i] == group_total(groups[i])
                &&& forall|i: int| 0 <= i < v@.len() ==> #[trigger] v@[i] <= u128::MAX / 3
            },
            Err(_) => !groups_ok(spec_groups(spec_lines(s@))),
        },
{
    let lines: Vec<Vec<char>> = crate::text::split_lines(s);
    let ghost sl = spec_lines(s@);
    let mut totals: Vec<u128> = Vec::new();
    let mut cur: u128 = 0;
    let ghost mut cur_group = Seq::<Seq<char>>::empty();
    let mut cur_count: usize = 0;
    let mut i: usize = 0;
    proof {
        assert(spec_groups(sl.take(0)) =~= seq![Seq::<Seq<char>>::empty()]);
    }
    while i < lines.len()
        invariant
            0 <= i <= lines@.len(),
            sl == spec_lines(s@),
            lines@.len() == sl.len(),
            forall|k: int| 0 <= k < lines@.len() ==> #[trigger] lines@[k]@ == sl[k],
            spec_groups(sl.take(i as int)).len() == totals@.len() + 1,
            spec_groups(sl.take(i as int)).last() == cur_group,
            groups_ok(spec_groups(sl.take(i as int))),
            forall|k: int|
                0 <= k < totals@.len() ==> #[trigger] totals@[k] == group_total(
                    spec_groups(sl.take(i as int))[k],
                ),
            forall|k: int| 0 <= k < totals@.len() ==> #[trigger] totals@[k] <= u128::MAX / 3,
            cur == group_total(cur_group),
            cur_count == cur_group.len(),
            cur_count <= i,
            cur <= cur_count * (u32::MAX as int),
        decreases lines@.len() - i,
    {
        let line: &Vec<char> = &lines[i];
        proof {
            assert(sl.take(i + 1).drop_last() =~= sl.take(i as int));
            assert(sl.take(i + 1).last() == sl[i as int]);
        }
        if line.len() == 0 {
            proof {
                assert(cur_count * (u32::MAX as int) <= usize::MAX as int * (u32::MAX as int))
                    by (nonlinear_arith)
                    requires
                        0 <= cur_count <= usize::MAX,
                ;
                assert(usize::MAX as int * (u32::MAX as int) <= u128::MAX / 3) by (nonlinear_arith);
                let gs = spec_groups(sl.take(i as int));
                let gs2 = spec_groups(sl.take(i + 1));
                assert(gs2 == gs.push(Seq::<Seq<char>>::empty()));
                assert forall|a: int, b: int|
                    0 <= a < gs2.len() && 0 <= b < gs2[a].len() implies calorie_line_ok(
                    #[trigger] gs2[a][b],
                ) by {
                    assert(gs2[a] == gs[a]);
                }
            }
            totals.push(cur);
            cur = 0;
            cur_count = 0;
            proof {
                cur_group = Seq::<Seq<char>>::empty();
            }
        } else {
            let v: u32 = match crate::text::parse_u32(line) {
                Some(v) => v,
                None => {
                    proof {
                        let gs = spec_groups(sl);
                        lemma_groups_cover(sl, i as int);
                        assert(!groups_ok(gs));
                    }
                    return Err(CalorieError::InvalidCalorie);
                },
            };
            proof {
                assert(cur_count * (u32::MAX as int) + (u32::MAX as int) == (cur_count + 1) * (
                u32::MAX as int)) by (nonlinear_arith);
                assert((cur_count + 1) * (u32::MAX as int) <= usize::MAX as int * (
                u32::MAX as int)) by (nonlinear_arith)
                    requires
                        0 <= cur_count + 1 <= usize::MAX,
                ;
                assert(usize::MAX as int * (u32::MAX as int) <= u128::MAX) by (nonlinear_arith);
                let gs = spec_groups(sl.take(i as int));
                let gs2 = spec_groups(sl.take(i + 1));
                assert(gs2 == gs.update(gs.len() - 1, cur_group.push(sl[i as int])));
                assert(calorie_line_ok(sl[i as int]));
                assert forall|a: int, b: int|
                    0 <= a < gs2.len() && 0 <= b < gs2[a].len() implies calorie_line_ok(
                    #[trigger] gs2[a][b],
                ) by {
                    if a < gs2.len() - 1 {
                        assert(gs2[a] == gs[a]);
                    } else {
                        assert(gs2[a] == cur_group.push(sl[i as int]));
                        assert(gs[a] == cur_group);
                    }
                }
            }
            cur = cur + v as u128;
            cur_count = cur_count + 1;
            proof {
                cur_group = cur_group.push(sl[i as int]);
                assert(cur_group.drop_last() =~= spec_groups(sl.take(i as int)).last());
                assert(cur_group.last() == sl[i as int]);
            }
        }
        i = i + 1;
    }
    proof {
        assert(sl.take(sl.len() as int) =~= sl);
        assert(cur_count * (u32::MAX as int) <= usize::MAX as int * (u32::MAX as int))
            by (nonlinear_arith)
            requires
                0 <= cur_count <= usize::MAX,
        ;
        assert(usize::MAX as int * (u32::MAX as int) <= u128::MAX / 3) by (nonlinear_arith);
    }
    totals.push(cur);
    proof {
        let gs = spec_groups(sl);
        assert(totals@.last() == group_total(gs[gs.len() - 1]));
    }
    Ok(totals)
}

/// A grouping always has at least one group.
proof fn lemma_spec_groups_len(lines: Seq<Seq<char>>)
    ensures
        spec_groups(lines).len() >= 1,
    decreases lines.len(),
{
    if lines.len() > 0 {
        lemma_spec_groups_len(lines.drop_last());
    }
}

/// Every line belongs to some group: a line that is not a number makes
/// its group, and so the whole grouping, invalid.
proof fn lemma_groups_cover(lines: Seq<Seq<char>>, i: int)
    requires
        0 <= i < lines.len(),
        lines[i].len() > 0,
        !calorie_line_ok(lines[i]),
    ensures
        !groups_ok(spec_groups(lines)),
    decreases lines.len() - i,
{
    if i == lines.len() - 1 {
        let prev = spec_groups(lines.drop_last());
        lemma_spec_groups_len(lines.drop_last());
        let gs = spec_groups(lines);
        assert(gs.last() == prev.last().push(lines[i]));
        assert(gs.last().last() == lines[i]);
        assert(gs[gs.len() - 1][gs.last().len() - 1] == lines[i]);
    } else {
        lemma_groups_cover(lines.drop_last(), i);
        lemma_spec_groups_len(lines.drop_last());
        let prev = spec_groups(lines.drop_last());
        let gs = spec_groups(lines);
        let (bi, bj) = choose|bi: int, bj: int|
            0 <= bi < prev.len() && 0 <= bj < prev[bi].len() && !calorie_line_ok(
                #[trigger] prev[bi][bj],
            );
        if lines.last().len() == 0 {
            assert(gs[bi][bj] == prev[bi][bj]);
        } else {
            if bi < prev.len() - 1 {
                assert(gs[bi][bj] == prev[bi][bj]);
            } else {
                assert(gs[bi][bj] == prev[bi][bj]);
            }
        }
    }
}

/// The largest of the totals. There must be at least one.
pub fn max_total(totals: &Vec<u128>) -> (r: u128)
    requires
        totals@.len() >= 1,
    ensures
        exists|i: int| 0 <= i < totals@.len() && r == totals@[i],
        forall|i: int| 0 <= i < totals@.len() ==> totals@[i] <= r,
{
    let mut best: u128 = totals[0];
    let mut i: usize = 1;
    while i < totals.len()
        invariant
            1 <= i <= totals@.len(),
            exists|k: int| 0 <= k < i && best == totals@[k],
            forall|k: int| 0 <= k < i ==> totals@[k] <= best,
        decreases totals@.len() - i,
    {
        if totals[i] > best {
            best = totals[i];
        }
        i = i + 1;
    }
    best
}

/// The sum of the three largest totals; of all of them when there are
/// fewer than three. Each total must leave room for a sum of three.
#[verifier::rlimit(30)]
pub fn top3_total(totals: &Vec<u128>) -> (r: u128)
    requires
        forall|i: int| 0 <= i < totals@.len() ==> #[trigger] totals@[i] <= u128::MAX / 3,
    ensures
        totals@.len() == 0 ==> r == 0,
        totals@.len() == 1 ==> r == totals@[0],
        totals@.len() == 2 ==> r == totals@[0] + totals@[1],
        totals@.len() >= 3 ==> {
            &&& exists|a: int, b: int, c: int|
                0 <= a < b && b < c < totals@.len() && r == totals@[a] + totals@[b] + totals@[c]
            &&& forall|a: int, b: int, c: int|
                0 <= a < b && b < c < totals@.len() ==> totals@[a] + totals@[b] + totals@[c] <= r
        },
{
    let n: usize = totals.len();
    if n == 0 {
        return 0;
    }
    if n == 1 {
        return totals[0];
    }
    if n == 2 {
        return totals[0] + totals[1];
    }
    let mut m1: u128 = totals[0];
    let mut m2: u128 = totals[1];
    let mut m3: u128 = totals[2];
    if m2 > m1 {
        let t: u128 = m1;
        m1 = m2;
        m2 = t;
    }
    if m3 > m2 {
        let t: u128 = m2;
        m2 = m3;
        m3 = t;
    }
    if m2 > m1 {
        let t: u128 = m1;
        m1 = m2;
        m2 = t;
    }
    let mut i: usize = 3;
    while i < n
        invariant
            3 <= i <= n,
            n == totals@.len(),
            forall|k: int| 0 <= k < totals@.len() ==> #[trigger] totals@[k] <= u128::MAX / 3,
            m1 >= m2 >= m3,
            exists|a: int, b: int, c: int|
                0 <= a < i && 0 <= b < i && 0 <= c < i && a != b && b != c && a != c && m1
                    == totals@[a] && m2 == totals@[b] && m3 == totals@[c],
            forall|k: int| 0 <= k < i ==> totals@[k] <= m1,
            forall|a: int, b: int| 0 <= a < b < i ==> totals@[a] + totals@[b] <= m1 + m2,
            forall|a: int, b: int, c: int|
                0 <= a < b && b < c < i ==> totals@[a] + totals@[b] + totals@[c] <= m1 + m2 + m3,
        decreases n - i,
    {
        let x: u128 = totals[i];
        if x >= m1 {
            m3 = m2;
            m2 = m1;
            m1 = x;
        } else if x >= m2 {
            m3 = m2;
            m2 = x;
        } else if x > m3 {
            m3 = x;
        }
        i = i + 1;
    }
    proof {
        let (a, b, c) = choose|a: int, b: int, c: int|
            0 <= a < n && 0 <= b < n && 0 <= c < n && a != b && b != c && a != c && m1
                == totals@[a] && m2 == totals@[b] && m3 == totals@[c];
        assert(totals@[a] <= u128::MAX / 3);
        assert(totals@[b] <= u128::MAX / 3);
        assert(totals@[c] <= u128::MAX / 3);
    }
    m1 + m2 + m3
}

} // verus!
