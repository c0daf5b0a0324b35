//! Shared text-handling helpers: reading and rendering decimal numbers,
//! splitting input into lines, together with the error type that the
//! parsers return.

use vstd::prelude::*;

verus! {

/// An input line or grid that does not have the expected shape.
#[derive(Clone, Copy, PartialEq, Eq, Debug, Structural)]
pub enum ParseError {
    /// The rows of a grid do not all have the same length.
    NonRectangular,
    /// A grid cell holds something other than a decimal digit.
    InvalidDigit,
    /// A motion line names no known direction.
    InvalidDirection,
    /// A motion line's step count is not a positive decimal number
    /// that fits in 32 bits.
    InvalidCount,
}

/// Relies on `String::push`: appends the given character to the end of
/// the string.
pub assume_specification[ String::push ](s: &mut String, ch: char)
    ensures
        final(s)@ == old(s)@.push(ch),
;

/// Whether `c` is a decimal digit.
pub open spec fn is_digit(c: char) -> bool {
    c == '0' || c == '1' || c == '2' || c == '3' || c == '4' || c == '5' || c == '6' || c == '7'
        || c == '8' || c == '9'
}

/// The numeric value of the digit `c`.
pub open spec fn digit_val(c: char) -> int
    recommends
        is_digit(c),
{
    if c == '0' {
        0
    } else if c == '1' {
        1
    } else if c == '2' {
        2
    } else if c == '3' {
        3
    } else if c == '4' {
        4
    } else if c == '5' {
        5
    } else if c == '6' {
        6
    } else if c == '7' {
        7
    } else if c == '8' {
        8
    } else if c == '9' {
        9
    } else {
        0
    }
}

/// The digit character with value `d`.
pub open spec fn digit_char(d: int) -> char
    recommends
        0 <= d <= 9,
{
    if d == 0 {
        '0'
    } else if d == 1 {
        '1'
    } else if d == 2 {
        '2'
    } else if d == 3 {
        '3'
    } else if d == 4 {
        '4'
    } else if d == 5 {
        '5'
    } else if d == 6 {
        '6'
    } else if d == 7 {
        '7'
    } else if d == 8 {
        '8'
    } else {
        '9'
    }
}

/// Whether every character of `s` is a decimal digit.
pub open spec fn all_digits(s: Seq<char>) -> bool {
    forall|i: int| 0 <= i < s.len() ==> is_digit(#[trigger] s[i])
}

/// The number that the digit string `s` denotes, most significant digit first.
pub open spec fn digits_val(s: Seq<char>) -> int
    recommends
        all_digits(s),
    decreases s.len(),
{
    if s.len() == 0 {
        0
    } else {
        digits_val(s.drop_last()) * 10 + digit_val(s.last())
    }
}

/// The decimal digit string of the number `n`, most significant digit
/// first, with no leading zero.
pub open spec fn spec_digits(n: int) -> Seq<char>
    recommends
        n >= 0,
    decreases n,
{
    if n < 10 {
        seq![digit_char(n)]
    } else {
        spec_digits(n / 10).push(digit_char(n % 10))
    }
}

/// The numeric value of `c` if it is a digit.
pub fn char_digit(c: char) -> (r: Option<u32>)
    ensures
        r == if is_digit(c) {
            Some(digit_val(c) as u32)
        } else {
            None::<u32>
        },
{
    match c {
        '0' => Some(0),
        '1' => Some(1),
        '2' => Some(2),
        '3' => Some(3),
        '4' => Some(4),
        '5' => Some(5),
        '6' => Some(6),
        '7' => Some(7),
        '8' => Some(8),
        '9' => Some(9),
        _ => None,
    }
}

/// The digit character with value `d`.
pub fn digit_to_char(d: u32) -> (c: char)
    requires
        d <= 9,
    ensures
        c == digit_char(d as int),
{
    match d {
        0 => '0',
        1 => '1',
        2 => '2',
        3 => '3',
        4 => '4',
        5 => '5',
        6 => '6',
        7 => '7',
        8 => '8',
        _ => '9',
    }
}

/// Reads `s` as an unsigned decimal number.
/// Returns `None` unless `s` is a nonempty, all-digit string whose value
/// fits in a `u32`.
pub fn parse_u32(s: &Vec<char>) -> (r: Option<u32>)
    ensures
        match r {
            Some(v) => s@.len() > 0 && all_digits(s@) && digits_val(s@) == v,
            None => s@.len() == 0 || !all_digits(s@) || digits_val(s@) > u32::MAX,
        },
{
    if s.len() == 0 {
        return None;
    }
    let mut acc: u32 = 0;
    let mut i: usize = 0;
    while i < s.len()
        invariant
            0 <= i <= s@.len(),
            all_digits(s@.take(i as int)),
            acc == digits_val(s@.take(i as int)),
        decreases s@.len() - i,
    {
        let c: char = s[i];
        let d: u32 = match char_digit(c) {
            Some(d) => d,
            None => {
                assert(!is_digit(s@[i as int]));
                return None;
            },
        };
        if acc > (u32::MAX - d) / 10 {
            proof {
                lemma_digits_val_grows(s@, i as int);
            }
            return None;
        }
        proof {
            assert(s@.take(i + 1).drop_last() =~= s@.take(i as int));
        }
        acc = acc * 10 + d;
        i = i + 1;
    }
    proof {
        assert(s@.take(i as int) =~= s@);
    }
    Some(acc)
}

/// A string of digits denotes a number that is not negative.
pub proof fn lemma_digits_val_nonneg(s: Seq<char>)
    requires
        all_digits(s),
    ensures
        digits_val(s) >= 0,
    decreases s.len(),
{
    if s.len() > 0 {
        assert(all_digits(s.drop_last()));
        assert(is_digit(s.last()));
        lemma_digits_val_nonneg(s.drop_last());
    }
}

/// A digit string that does not start with a zero denotes at least 1,
/// and at least 10 once it has two or more digits.
pub proof fn lemma_digits_val_pos(s: Seq<char>)
    requires
        all_digits(s),
        s.len() >= 1,
        s[0] != '0',
    ensures
        digits_val(s) >= 1,
        s.len() >= 2 ==> digits_val(s) >= 10,
    decreases s.len(),
{
    if s.len() == 1 {
        assert(is_digit(s[0]));
        assert(s.last() == s[0]);
        assert(s.drop_last() =~= Seq::<char>::empty());
        assert(digits_val(Seq::<char>::empty()) == 0);
    } else {
        assert(all_digits(s.drop_last()));
        assert(s.drop_last()[0] == s[0]);
        lemma_digits_val_pos(s.drop_last());
        assert(is_digit(s.last()));
    }
}

/// Rendering a number to digits yields a nonempty all-digit string with
/// no leading zero, and reading the digits back yields the same number.
pub proof fn lemma_spec_digits_val(n: int)
    requires
        n >= 0,
    ensures
        all_digits(spec_digits(n)),
        digits_val(spec_digits(n)) == n,
        spec_digits(n).len() >= 1,
        n >= 1 ==> spec_digits(n)[0] != '0',
    decreases n,
{
    if n < 10 {
        assert(spec_digits(n) =~= seq![digit_char(n)]);
        assert(spec_digits(n).drop_last() =~= Seq::<char>::empty());
        assert(digits_val(Seq::<char>::empty()) == 0);
        assert(is_digit(digit_char(n)));
    } else {
        lemma_spec_digits_val(n / 10);
        assert(spec_digits(n).drop_last() =~= spec_digits(n / 10));
        assert(spec_digits(n)[0] == spec_digits(n / 10)[0]);
    }
}

/// Reading a digit string with no leading zero and rendering the value
/// back yields the same digits.
pub proof fn lemma_digits_round_trip(s: Seq<char>)
    requires
        all_digits(s),
        s.len() >= 1,
        s[0] != '0',
    ensures
        spec_digits(digits_val(s)) == s,
    decreases s.len(),
{
    lemma_digits_val_nonneg(s);
    lemma_digits_val_pos(s);
    if s.len() == 1 {
        assert(is_digit(s[0]));
        assert(digits_val(s) == digit_val(s[0]));
        assert(spec_digits(digits_val(s)) =~= s);
    } else {
        let hd = s.drop_last();
        assert(all_digits(hd));
        assert(hd[0] == s[0]);
        lemma_digits_round_trip(hd);
        lemma_digits_val_pos(hd);
        lemma_digits_val_nonneg(hd);
        let v: int = digits_val(s);
        assert(is_digit(s.last()));
        assert(v == digits_val(hd) * 10 + digit_val(s.last()));
        assert(v / 10 == digits_val(hd) && v % 10 == digit_val(s.last()));
        assert(spec_digits(v) =~= s);
    }
}

/// Appends the decimal digit string of `n` to `out`.
pub fn push_digits(n: u32, out: &mut String)
    ensures
        final(out)@ == old(out)@ + spec_digits(n as int),
    decreases n,
{
    if n < 10 {
        out.push(digit_to_char(n));
        proof {
            assert((*out)@ =~= old(out)@ + spec_digits(n as int));
        }
    } else {
        push_digits(n / 10, out);
        out.push(digit_to_char(n % 10));
        proof {
            assert((*out)@ =~= old(out)@ + spec_digits(n as int));
        }
    }
}

/// A digit string's value only grows as more digits follow: once the value
/// of a prefix extended by one digit is out of range, so is the whole.
proof fn lemma_digits_val_grows(s: Seq<char>, i: int)
    requires
        0 <= i < s.len(),
        digits_val(s.take(i)) * 10 + digit_val(s[i]) > u32::MAX,
    ensures
        all_digits(s) ==> digits_val(s) > u32::MAX,
    decreases s.len() - i,
{
    if all_digits(s) {
        assert(s.take(i + 1).drop_last() =~= s.take(i));
        assert(digits_val(s.take(i + 1)) == digits_val(s.take(i)) * 10 + digit_val(s[i]));
        if i + 1 == s.len() {
            assert(s.take(i + 1) =~= s);
        } else {
            assert(is_digit(s[i + 1]));
            lemma_digits_val_grows(s, i + 1);
        }
    }
}


/// The pieces of `s` between occurrences of `sep`: always one more piece
/// than there are separators, empty pieces included.
pub open spec fn spec_split(s: Seq<char>, sep: char) -> Seq<Seq<char>>
    decreases s.len(),
{
    if s.len() == 0 {
        seq![Seq::<char>::empty()]
    } else if s.last() == sep {
        spec_split(s.drop_last(), sep).push(Seq::<char>::empty())
    } else {
        let r = spec_split(s.drop_last(), sep);
        r.update(r.len() - 1, r.last().push(s.last()))
    }
}

/// The lines of `s`: the pieces between newline characters, except that a
/// trailing newline opens no empty final line.
pub open spec fn spec_lines(s: Seq<char>) -> Seq<Seq<char>> {
    if s.len() == 0 {
        Seq::<Seq<char>>::empty()
    } else if s.last() == '\n' {
        spec_split(s.drop_last(), '\n')
    } else {
        spec_split(s, '\n')
    }
}

/// The maximal nonempty runs of non-space characters of `s`, in order.
pub open spec fn spec_tokens(s: Seq<char>) -> Seq<Seq<char>>
    decreases s.len(),
{
    if s.len() == 0 {
        Seq::<Seq<char>>::empty()
    } else if s.last() == ' ' {
        spec_tokens(s.drop_last())
    } else if s.len() == 1 || s[s.len() - 2] == ' ' {
        spec_tokens(s.drop_last()).push(seq![s.last()])
    } else {
        let r = spec_tokens(s.drop_last());
        r.update(r.len() - 1, r.last().push(s.last()))
    }
}

/// Splits `v` at every occurrence of `sep`, empty pieces included.
pub fn split_on(v: &Vec<char>, sep: char) -> (r: Vec<Vec<char>>)
    ensures
        r@.len() == spec_split(v@, sep).len(),
        forall|k: int| 0 <= k < r@.len() ==> #[trigger] r@[k]@ == spec_split(v@, sep)[k],
{
    let mut out: Vec<Vec<char>> = Vec::new();
    let mut cur: Vec<char> = Vec::new();
    let mut i: usize = 0;
    while i < v.len()
        invariant
            0 <= i <= v@.len(),
            spec_split(v@.take(i as int), sep).len() == out@.len() + 1,
            forall|k: int|
                0 <= k < out@.len() ==> #[trigger] out@[k]@ == spec_split(v@.take(i as int), sep)[k],
            cur@ == spec_split(v@.take(i as int), sep).last(),
        decreases v@.len() - i,
    {
        let c: char = v[i];
        proof {
            assert(v@.take(i + 1).drop_last() =~= v@.take(i as int));
            assert(v@.take(i + 1).last() == v@[i as int]);
        }
        if c == sep {
            out.push(cur);
            cur = Vec::new();
        } else {
            cur.push(c);
        }
        i = i + 1;
    }
    proof {
        assert(v@.take(i as int) =~= v@);
    }
    out.push(cur);
    out
}

/// Splits `s` into its lines: pieces between newline characters, where a
/// trailing newline opens no empty final line.
pub fn split_lines(s: &str) -> (r: Vec<Vec<char>>)
    ensures
        r@.len() == spec_lines(s@).len(),
        forall|k: int| 0 <= k < r@.len() ==> #[trigger] r@[k]@ == spec_lines(s@)[k],
{
    let n: usize = s.unicode_len();
    let mut out: Vec<Vec<char>> = Vec::new();
    let mut cur: Vec<char> = Vec::new();
    let mut i: usize = 0;
    while i < n
        invariant
            0 <= i <= n,
            n == s@.len(),
            spec_split(s@.take(i as int), '\n').len() == out@.len() + 1,
            forall|k: int|
                0 <= k < out@.len() ==> #[trigger] out@[k]@ == spec_split(
                    s@.take(i as int),
                    '\n',
                )[k],
            cur@ == spec_split(s@.take(i as int), '\n').last(),
        decreases n - i,
    {
        let c: char = s.get_char(i);
        proof {
            assert(s@.take(i + 1).drop_last() =~= s@.take(i as int));
            assert(s@.take(i + 1).last() == s@[i as int]);
        }
        if c == '\n' {
            out.push(cur);
            cur = Vec::new();
        } else {
            cur.push(c);
        }
        i = i + 1;
    }
    proof {
        assert(s@.take(i as int) =~= s@);
    }
    if n == 0 {
        return out;
    }
    let last: char = s.get_char(n - 1);
    if last != '\n' {
        out.push(cur);
        proof {
            assert(spec_lines(s@) == spec_split(s@, '\n'));
        }
    } else {
        proof {
            assert(spec_lines(s@) == spec_split(s@.drop_last(), '\n'));
            assert(spec_split(s@, '\n') == spec_split(s@.drop_last(), '\n').push(
                Seq::<char>::empty(),
            ));
            assert(forall|k: int|
                0 <= k < out@.len() ==> #[trigger] spec_split(s@, '\n')[k] == spec_lines(s@)[k]);
        }
    }
    out
}

/// The maximal nonempty runs of non-space characters of `v`, in order.
pub fn tokens(v: &Vec<char>) -> (r: Vec<Vec<char>>)
    ensures
        r@.len() == spec_tokens(v@).len(),
        forall|k: int| 0 <= k < r@.len() ==> #[trigger] r@[k]@ == spec_tokens(v@)[k],
{
    let mut out: Vec<Vec<char>> = Vec::new();
    let mut cur: Vec<char> = Vec::new();
    let mut i: usize = 0;
    while i < v.len()
        invariant
            0 <= i <= v@.len(),
            cur@.len() == 0 ==> i == 0 || v@[i - 1] == ' ',
            cur@.len() == 0 ==> spec_tokens(v@.take(i as int)).len() == out@.len(),
            cur@.len() > 0 ==> spec_tokens(v@.take(i as int)).len() == out@.len() + 1
                && spec_tokens(v@.take(i as int)).last() == cur@ && i > 0 && v@[i - 1] != ' ',
            forall|k: int|
                0 <= k < out@.len() ==> #[trigger] out@[k]@ == spec_tokens(v@.take(i as int))[k],
        decreases v@.len() - i,
    {
        let c: char = v[i];
        proof {
            assert(v@.take(i + 1).drop_last() =~= v@.take(i as int));
            assert(v@.take(i + 1).last() == v@[i as int]);
            if i > 0 {
                assert(v@.take(i + 1)[i - 1] == v@[i - 1]);
            }
        }
        if c == ' ' {
            if cur.len() > 0 {
                out.push(cur);
                cur = Vec::new();
            }
        } else {
            cur.push(c);
            proof {
                assert(spec_tokens(v@.take(i + 1)).last() == cur@);
            }
        }
        i = i + 1;
    }
    proof {
        assert(v@.take(i as int) =~= v@);
    }
    if cur.len() > 0 {
        out.push(cur);
    }
    out
}


/// Reads `s` as an unsigned decimal number.
/// Returns `None` unless `s` is a nonempty, all-digit string whose value
/// fits in a `usize`.
pub fn parse_usize(s: &Vec<char>) -> (r: Option<usize>)
    ensures
        match r {
            Some(v) => s@.len() > 0 && all_digits(s@) && digits_val(s@) == v,
            None => s@.len() == 0 || !all_digits(s@) || digits_val(s@) > usize::MAX,
        },
{
    if s.len() == 0 {
        return None;
    }
    let mut acc: usize = 0;
    let mut i: usize = 0;
    while i < s.len()
        invariant
            0 <= i <= s@.len(),
            all_digits(s@.take(i as int)),
            acc == digits_val(s@.take(i as int)),
        decreases s@.len() - i,
    {
        let c: char = s[i];
        let d: usize = match char_digit(c) {
            Some(d) => d as usize,
            None => {
                assert(!is_digit(s@[i as int]));
                return None;
            },
        };
        if acc > (usize::MAX - d) / 10 {
            proof {
                lemma_digits_val_grows_usize(s@, i as int);
            }
            return None;
        }
        proof {
            assert(s@.take(i + 1).drop_last() =~= s@.take(i as int));
        }
        acc = acc * 10 + d;
        i = i + 1;
    }
    proof {
        assert(s@.take(i as int) =~= s@);
    }
    Some(acc)
}

/// As `lemma_digits_val_grows`, against the `usize` limit.
proof fn lemma_digits_val_grows_usize(s: Seq<char>, i: int)
    requires
        0 <= i < s.len(),
        digits_val(s.take(i)) * 10 + digit_val(s[i]) > usize::MAX,
    ensures
        all_digits(s) ==> digits_val(s) > usize::MAX,
    decreases s.len() - i,
{
    if all_digits(s) {
        assert(s.take(i + 1).drop_last() =~= s.take(i));
        assert(digits_val(s.take(i + 1)) == digits_val(s.take(i)) * 10 + digit_val(s[i]));
        if i + 1 == s.len() {
            assert(s.take(i + 1) =~= s);
        } else {
            assert(is_digit(s[i + 1]));
            lemma_digits_val_grows_usize(s, i + 1);
        }
    }
}

/// Whether `tok` spells the word `w`.
pub fn is_word(tok: &Vec<char>, w: &str) -> (r: bool)
    ensures
        r == (tok@ == w@),
{
    let wn: usize = w.unicode_len();
    if tok.len() != wn {
        return false;
    }
    let mut i: usize = 0;
    while i < wn
        invariant
            0 <= i <= wn,
            wn == w@.len(),
            tok@.len() == wn,
            forall|k: int| 0 <= k < i ==> tok@[k] == w@[k],
        decreases wn - i,
    {
        if tok[i] != w.get_char(i) {
            return false;
        }
        i = i + 1;
    }
    proof {
        assert(tok@ =~= w@);
    }
    true
}


} // verus!
