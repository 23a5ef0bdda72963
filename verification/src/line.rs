//! Splitting a single line of the interchange format into its tokens.
//!
//! Every line has the shape `level key [value]`: the decimal nesting depth,
//! a space, the tag key, and optionally a space followed by the value.
//! Depth-0 record openers additionally carry a cross-reference token
//! delimited by `@` on both sides. All the scanning here is bounds-checked:
//! a short or malformed line yields empty tokens, never a panic.

use vstd::prelude::*;
use vstd::string::StrSliceExecFns;
use vstd::string::StringExecFns;

verus! {

/// A decimal digit character.
pub open spec fn is_digit(c: char) -> bool {
    48 <= c as int && c as int <= 57
}

/// The character for a single decimal digit.
pub open spec fn digit_char(d: nat) -> char {
    if d == 0 {
        '0'
    } else if d == 1 {
        '1'
    } else if d == 2 {
        '2'
    } else if d == 3 {
        '3'
    } else if d == 4 {
        '4'
    } else if d == 5 {
        '5'
    } else if d == 6 {
        '6'
    } else if d == 7 {
        '7'
    } else if d == 8 {
        '8'
    } else {
        '9'
    }
}

/// The decimal representation of a natural number, most significant digit
/// first.
pub open spec fn decimal(n: nat) -> Seq<char>
    decreases n,
{
    if n < 10 {
        seq![digit_char(n)]
    } else {
        decimal(n / 10).push(digit_char(n % 10))
    }
}

/// The position of the first occurrence of `c` in `s` at or after `from`,
/// or `s.len()` if there is none.
pub open spec fn first_at(s: Seq<char>, c: char, from: int) -> int
    decreases s.len() - from,
{
    if from < 0 || from >= s.len() {
        s.len() as int
    } else if s[from] == c {
        from
    } else {
        first_at(s, c, from + 1)
    }
}

/// `first_at` returns the first occurrence: nothing before it matches, and
/// the returned position (when inside the sequence) holds `c`.
pub proof fn lemma_first_at(s: Seq<char>, c: char, from: int)
    requires
        0 <= from <= s.len(),
    ensures
        from <= first_at(s, c, from) <= s.len(),
        forall|i: int| from <= i < first_at(s, c, from) ==> s[i] != c,
        first_at(s, c, from) < s.len() ==> s[first_at(s, c, from)] == c,
    decreases s.len() - from,
{
    if from < s.len() && s[from] != c {
        lemma_first_at(s, c, from + 1);
    }
}

/// `first_at` is the one position before which `c` does not occur and at
/// which `c` stands, or the length when `c` does not occur at all.
pub proof fn lemma_first_at_is(s: Seq<char>, c: char, from: int, at: int)
    requires
        0 <= from <= at <= s.len(),
        forall|i: int| from <= i < at ==> s[i] != c,
        at < s.len() ==> s[at] == c,
    ensures
        first_at(s, c, from) == at,
    decreases at - from,
{
    if from < at {
        lemma_first_at_is(s, c, from + 1, at);
    }
}

/// The key token of a line: the characters from the fixed key offset up to
/// the first space, or up to the end of the line if it has no further space.
/// Lines too short to reach the key offset have an empty key.
pub open spec fn key_of(line: Seq<char>) -> Seq<char> {
    if line.len() <= 2 {
        Seq::empty()
    } else {
        line.subrange(2, first_at(line, ' ', 2))
    }
}

/// The value token of a line: everything after the space that ends the key,
/// or empty if the line ends at the key.
pub open spec fn value_of(line: Seq<char>) -> Seq<char> {
    if line.len() <= 2 {
        Seq::empty()
    } else {
        let sp = first_at(line, ' ', 2);
        if sp == line.len() {
            Seq::empty()
        } else {
            line.subrange(sp + 1, line.len() as int)
        }
    }
}

/// Whether `line` begins with `prefix` immediately followed by a non-digit
/// boundary (or the end of the line).
pub open spec fn opens_prefix(line: Seq<char>, prefix: Seq<char>) -> bool {
    &&& line.len() >= prefix.len()
    &&& line.subrange(0, prefix.len() as int) == prefix
    &&& (line.len() == prefix.len() || !is_digit(line[prefix.len() as int]))
}

/// Whether `line` opens a new sibling at nesting depth `level`: it begins
/// with the decimal representation of `level` followed by a non-digit
/// boundary.
pub open spec fn opens_line(line: Seq<char>, level: nat) -> bool {
    opens_prefix(line, decimal(level))
}

/// Whether `line` ends with `suffix`.
pub open spec fn ends_with(line: Seq<char>, suffix: Seq<char>) -> bool {
    &&& line.len() >= suffix.len()
    &&& line.subrange(line.len() - suffix.len(), line.len() as int) == suffix
}

/// The cross-reference token of a record-opening line: the characters
/// strictly between the first two `@` markers, or empty if the line does not
/// carry two markers.
pub open spec fn xref_of(line: Seq<char>) -> Seq<char> {
    let a = first_at(line, '@', 0);
    if a == line.len() {
        Seq::empty()
    } else {
        let b = first_at(line, '@', a + 1);
        if b == line.len() {
            Seq::empty()
        } else {
            line.subrange(a + 1, b)
        }
    }
}

/// The position of the first occurrence of `c` in `s` at or after `from`,
/// or the character length of `s` if there is none.
pub(crate) fn find_char(s: &str, c: char, from: usize) -> (r: usize)
    requires
        from <= s@.len(),
    ensures
        r == first_at(s@, c, from as int),
{
    let len = s.unicode_len();
    let mut i = from;
    while i < len
        invariant
            from <= i <= len,
            len == s@.len(),
            first_at(s@, c, from as int) == first_at(s@, c, i as int),
        decreases len - i,
    {
        if s.get_char(i) == c {
            return i;
        }
        i = i + 1;
    }
    i
}

/// Whether two string slices hold the same characters.
pub(crate) fn str_eq(a: &str, b: &str) -> (r: bool)
    ensures
        r == (a@ == b@),
{
    let na = a.unicode_len();
    let nb = b.unicode_len();
    if na != nb {
        return false;
    }
    let mut i: usize = 0;
    while i < na
        invariant
            0 <= i <= na,
            na == a@.len(),
            na == b@.len(),
            forall|j: int| 0 <= j < i ==> a@[j] == b@[j],
        decreases na - i,
    {
        if a.get_char(i) != b.get_char(i) {
            return false;
        }
        i = i + 1;
    }
    proof {
        assert(a@ =~= b@);
    }
    true
}

/// Whether `s` ends with `suffix`.
pub(crate) fn str_ends_with(s: &str, suffix: &str) -> (r: bool)
    ensures
        r == ends_with(s@, suffix@),
{
    let n = s.unicode_len();
    let m = suffix.unicode_len();
    if n < m {
        return false;
    }
    let tail = s.substring_char(n - m, n);
    str_eq(tail, suffix)
}

/// Whether `line` begins with `prefix` followed by a non-digit boundary.
pub(crate) fn line_opens(line: &str, prefix: &str) -> (r: bool)
    ensures
        r == opens_prefix(line@, prefix@),
{
    let n = line.unicode_len();
    let m = prefix.unicode_len();
    if n < m {
        return false;
    }
    let head = line.substring_char(0, m);
    if !str_eq(head, prefix) {
        return false;
    }
    if n == m {
        return true;
    }
    let c = line.get_char(m);
    let code = c as u32;
    !(48 <= code && code <= 57)
}

/// The key and value tokens of a line.
pub(crate) fn split_key_value(line: &str) -> (kv: (String, String))
    ensures
        kv.0@ == key_of(line@),
        kv.1@ == value_of(line@),
{
    let n = line.unicode_len();
    if n <= 2 {
        return (String::new(), String::new());
    }
    let sp = find_char(line, ' ', 2);
    proof {
        lemma_first_at(line@, ' ', 2);
    }
    let key = line.substring_char(2, sp).to_owned();
    if sp == n {
        (key, String::new())
    } else {
        let value = line.substring_char(sp + 1, n).to_owned();
        (key, value)
    }
}

/// The cross-reference token between the first two `@` markers of a line.
pub(crate) fn xref_token(line: &str) -> (r: String)
    ensures
        r@ == xref_of(line@),
{
    let n = line.unicode_len();
    let a = find_char(line, '@', 0);
    proof {
        lemma_first_at(line@, '@', 0);
    }
    if a == n {
        return String::new();
    }
    let b = find_char(line, '@', a + 1);
    proof {
        lemma_first_at(line@, '@', a + 1);
    }
    if b == n {
        return String::new();
    }
    line.substring_char(a + 1, b).to_owned()
}

/// The decimal representation of `n` as a string.
pub(crate) fn decimal_string(n: usize) -> (s: String)
    ensures
        s@ == decimal(n as nat),
    decreases n,
{
    if n < 10 {
        digit_str(n).to_owned()
    } else {
        let mut s = decimal_string(n / 10);
        s.append(digit_str(n % 10));
        proof {
            assert(s@ =~= decimal(n as nat));
        }
        s
    }
}

/// The one-character string for a decimal digit.
fn digit_str(d: usize) -> (s: &'static str)
    requires
        d < 10,
    ensures
        s@ =~= seq![digit_char(d as nat)],
{
    proof {
        reveal_strlit("0");
        reveal_strlit("1");
        reveal_strlit("2");
        reveal_strlit("3");
        reveal_strlit("4");
        reveal_strlit("5");
        reveal_strlit("6");
        reveal_strlit("7");
        reveal_strlit("8");
        reveal_strlit("9");
    }
    if d == 0 {
        "0"
    } else if d == 1 {
        "1"
    } else if d == 2 {
        "2"
    } else if d == 3 {
        "3"
    } else if d == 4 {
        "4"
    } else if d == 5 {
        "5"
    } else if d == 6 {
        "6"
    } else if d == 7 {
        "7"
    } else if d == 8 {
        "8"
    } else {
        "9"
    }
}

} // verus!
