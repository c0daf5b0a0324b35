//! Finding the item common to the compartments of a rucksack, and its
//! priority value.
//!
//! Items are letters: `a`-`z` are worth 1 to 26 and `A`-`Z` are worth
//! 27 to 52. A rucksack line splits into two halves, and the item in both
//! halves (or, for badge groups, in every bag of the group) is the answer.

use vstd::prelude::*;
use vstd::string::*;

verus! {

/// An item character that is not a letter.
#[derive(Clone, Copy, PartialEq, Eq, Debug, Structural)]
pub enum ItemError {
    /// Only ASCII letters have a priority value.
    NotALetter,
}

/// Whether `c` is an ASCII letter, lower or upper case.
pub open spec fn is_letter(c: char) -> bool {
    (97 <= c as u32 <= 122) || (65 <= c as u32 <= 90)
}

/// The priority of the letter `c`: 1 to 26 for `a`-`z`, 27 to 52 for
/// `A`-`Z`.
pub open spec fn letter_value(c: char) -> int
    recommends
        is_letter(c),
{
    if 97 <= c as u32 <= 122 {
        c as u32 - 96
    } else {
        c as u32 - 64 + 26
    }
}

/// The priority value of the item `c`, or an error if `c` is not a letter.
pub fn value_of(c: char) -> (r: Result<u32, ItemError>)
    ensures
        match r {
            Ok(v) => is_letter(c) && v == letter_value(c),
            Err(_) => !is_letter(c),
        },
{
    let v: u32 = c as u32;
    if 97 <= v && v <= 122 {
        Ok(v - 96)
    } else if 65 <= v && v <= 90 {
        Ok(v - 64 + 26)
    } else {
        Err(ItemError::NotALetter)
    }
}

/// Splits a bag into its two compartments at the middle of the line. The
/// line must be ASCII, and its two halves are its two compartments.
pub fn compartments(bag: &str) -> (r: (&str, &str))
    requires
        bag.is_ascii(),
    ensures
        r.0@ == bag@.take(bag@.len() as int / 2),
        r.1@ == bag@.skip(bag@.len() as int / 2),
        r.0.is_ascii(),
        r.1.is_ascii(),
{
    let n: usize = bag.unicode_len();
    let front = bag.substring_ascii(0, n / 2);
    let back = bag.substring_ascii(n / 2, n);
    proof {
        assert(front@ =~= bag@.take(bag@.len() as int / 2));
        assert(back@ =~= bag@.skip(bag@.len() as int / 2));
    }
    (front, back)
}

/// Whether the characters of `s` include `c`.
pub open spec fn has_char(s: Seq<char>, c: char) -> bool {
    exists|i: int| 0 <= i < s.len() && s[i] == c
}

/// Whether `s` holds the character `c`.
fn str_has_char(s: &str, c: char) -> (r: bool)
    ensures
        r == has_char(s@, c),
{
    let n: usize = s.unicode_len();
    let mut i: usize = 0;
    while i < n
        invariant
            0 <= i <= n,
            n == s@.len(),
            forall|k: int| 0 <= k < i ==> s@[k] != c,
        decreases n - i,
    {
        if s.get_char(i) == c {
            return true;
        }
        i = i + 1;
    }
    false
}

/// The first character of `bag1` that `bag2` also holds, or `None` when
/// the bags share no character.
pub fn common_element(bag1: &str, bag2: &str) -> (r: Option<char>)
    ensures
        match r {
            Some(c) => {
                &&& has_char(bag1@, c)
                &&& has_char(bag2@, c)
                &&& exists|i: int|
                    0 <= i < bag1@.len() && bag1@[i] == c && forall|j: int|
                        0 <= j < i ==> !has_char(bag2@, #[trigger] bag1@[j])
            },
            None => forall|i: int| 0 <= i < bag1@.len() ==> !has_char(bag2@, #[trigger] bag1@[i]),
        },
{
    let n: usize = bag1.unicode_len();
    let mut i: usize = 0;
    while i < n
        invariant
            0 <= i <= n,
            n == bag1@.len(),
            forall|k: int| 0 <= k < i ==> !has_char(bag2@, #[trigger] bag1@[k]),
        decreases n - i,
    {
        let c: char = bag1.get_char(i);
        if str_has_char(bag2, c) {
            proof {
                assert(bag1@[i as int] == c);
            }
            return Some(c);
        }
        i = i + 1;
    }
    None
}

/// Whether every bag of `bags` holds the character `c`.
pub open spec fn in_all_bags(bags: Seq<&str>, c: char) -> bool {
    forall|k: int| 0 <= k < bags.len() ==> has_char((#[trigger] bags[k])@, c)
}

/// The first character of the first bag that every bag holds, or `None`
/// when no character is common to all bags. The group must hold at least
/// one bag.
pub fn common_element_2(bags: &Vec<&str>) -> (r: Option<char>)
    requires
        bags@.len() >= 1,
    ensures
        match r {
            Some(c) => {
                &&& in_all_bags(bags@, c)
                &&& exists|i: int|
                    0 <= i < bags@[0]@.len() && bags@[0]@[i] == c && forall|j: int|
                        0 <= j < i ==> !in_all_bags(bags@, #[trigger] bags@[0]@[j])
            },
            None => forall|i: int|
                0 <= i < bags@[0]@.len() ==> !in_all_bags(bags@, #[trigger] bags@[0]@[i]),
        },
{
    let first: &str = bags[0];
    let n: usize = first.unicode_len();
    let mut i: usize = 0;
    while i < n
        invariant
            0 <= i <= n,
            bags@.len() >= 1,
            first == bags@[0],
            n == first@.len(),
            forall|k: int| 0 <= k < i ==> !in_all_bags(bags@, #[trigger] first@[k]),
        decreases n - i,
    {
        let c: char = first.get_char(i);
        let mut all: bool = true;
        let mut k: usize = 0;
        while k < bags.len()
            invariant
                0 <= k <= bags@.len(),
                all <==> forall|b: int| 0 <= b < k ==> has_char((#[trigger] bags@[b])@, c),
            decreases bags@.len() - k,
        {
            if !str_has_char(bags[k], c) {
                all = false;
            }
            k = k + 1;
        }
        if all {
            proof {
                assert(first@[i as int] == c);
                assert(in_all_bags(bags@, c));
            }
            return Some(c);
        } else {
            proof {
                assert(!in_all_bags(bags@, first@[i as int]));
            }
        }
        i = i + 1;
    }
    None
}

} // verus!
