//! Scanning a signal for the first window of pairwise-distinct characters.
//!
//! The answer is the end index of the first run of `len` distinct
//! characters: the number of characters read when the marker completes.

use vstd::prelude::*;
use vstd::string::*;

verus! {

/// Whether the `len` characters of `s` that end just before `end` are
/// pairwise distinct.
pub open spec fn window_unique(s: Seq<char>, end: int, len: int) -> bool {
    forall|a: int, b: int| end - len <= a < b < end ==> s[a] != s[b]
}

/// Whether the window of `len` characters ending just before `end` is
/// pairwise distinct.
fn window_distinct(v: &Vec<char>, end: usize, len: usize) -> (r: bool)
    requires
        len <= end <= v@.len(),
    ensures
        r == window_unique(v@, end as int, len as int),
{
    let mut a: usize = end - len;
    while a < end
        invariant
            end - len <= a <= end <= v@.len(),
            forall|p: int, q: int| end - len <= p < q < end && p < a ==> v@[p] != v@[q],
        decreases end - a,
    {
        let mut b: usize = a + 1;
        while b < end
            invariant
                end - len <= a < b <= end <= v@.len(),
                forall|q: int| a < q < b ==> v@[a as int] != v@[q],
            decreases end - b,
        {
            if v[a] == v[b] {
                return false;
            }
            b = b + 1;
        }
        a = a + 1;
    }
    true
}

/// The first index `i` with `len <= i < msg.len()` such that the `len`
/// characters ending just before `i` are pairwise distinct, or `None` if
/// no window within the message is distinct.
pub fn find_unique(msg: &str, len: usize) -> (r: Option<usize>)
    ensures
        match r {
            Some(i) => {
                &&& len <= i < msg@.len()
                &&& window_unique(msg@, i as int, len as int)
                &&& forall|k: int| len <= k < i ==> !window_unique(msg@, k, len as int)
            },
            None => forall|k: int| len <= k < msg@.len() ==> !window_unique(msg@, k, len as int),
        },
{
    let n: usize = msg.unicode_len();
    let mut chars: Vec<char> = Vec::new();
    let mut i: usize = 0;
    while i < n
        invariant
            0 <= i <= n,
            n == msg@.len(),
            chars@ == msg@.take(i as int),
        decreases n - i,
    {
        chars.push(msg.get_char(i));
        proof {
            assert(chars@ =~= msg@.take(i + 1));
        }
        i = i + 1;
    }
    proof {
        assert(chars@ =~= msg@);
    }
    let mut idx: usize = len;
    while idx < n
        invariant
            len <= idx,
            n == msg@.len(),
            chars@ == msg@,
            forall|k: int| len <= k < idx ==> !window_unique(msg@, k, len as int),
        decreases n - idx,
    {
        if window_distinct(&chars, idx, len) {
            return Some(idx);
        }
        idx = idx + 1;
    }
    None
}

} // verus!
