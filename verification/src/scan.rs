//! Character classes and the longest-prefix scan that every grammar rule is built on.

use vstd::prelude::*;

verus! {

/// The characters a tag or attribute name is made of: ASCII letters and digits.
pub open spec fn is_name_char(c: char) -> bool {
    ('a' <= c && c <= 'z') || ('A' <= c && c <= 'Z') || ('0' <= c && c <= '9')
}

/// The code points that carry the Unicode property `White_Space`: the characters of which
/// `char::is_whitespace` holds.
pub open spec fn is_whitespace_char(c: char) -> bool {
    let v = c as u32;
    (0x09 <= v && v <= 0x0D) || v == 0x20 || v == 0x85 || v == 0xA0 || v == 0x1680 || (0x2000 <= v
        && v <= 0x200A) || v == 0x2028 || v == 0x2029 || v == 0x202F || v == 0x205F || v == 0x3000
}

/// The predicate that holds of whitespace.
pub open spec fn whitespace() -> spec_fn(char) -> bool {
    |c: char| is_whitespace_char(c)
}

/// The predicate that holds of the characters of names.
pub open spec fn name_chars() -> spec_fn(char) -> bool {
    |c: char| is_name_char(c)
}

/// The predicate that holds of every character but `x`.
pub open spec fn other_than(x: char) -> spec_fn(char) -> bool {
    |c: char| c != x
}

/// Length of the longest prefix of `s` whose characters all satisfy `p`.
pub open spec fn run_length(s: Seq<char>, p: spec_fn(char) -> bool) -> nat
    decreases s.len(),
{
    if s.len() > 0 && p(s[0]) {
        1 + run_length(s.skip(1), p)
    } else {
        0
    }
}

/// The pieces of `s` between occurrences of `separator`, in order. Two separators in a row,
/// and a separator at either end, give an empty piece; the empty text is one empty piece.
pub open spec fn split_on(s: Seq<char>, separator: char) -> Seq<Seq<char>>
    decreases s.len(),
{
    let n = run_length(s, other_than(separator)) as int;
    if n < s.len() {
        seq![s.take(n)] + split_on(s.skip(n + 1), separator)
    } else {
        seq![s]
    }
}

/// Is `c` a character of names?
pub fn name_char(c: char) -> (b: bool)
    ensures
        b == is_name_char(c),
{
    ('a' <= c && c <= 'z') || ('A' <= c && c <= 'Z') || ('0' <= c && c <= '9')
}

/// Is `c` whitespace?
pub fn whitespace_char(c: char) -> (b: bool)
    ensures
        b == is_whitespace_char(c),
{
    let v: u32 = c as u32;
    (0x09 <= v && v <= 0x0D) || v == 0x20 || v == 0x85 || v == 0xA0 || v == 0x1680 || (0x2000 <= v
        && v <= 0x200A) || v == 0x2028 || v == 0x2029 || v == 0x202F || v == 0x205F || v == 0x3000
}

/// `run_length(s, p)` is the one `n` such that the first `n` characters satisfy `p` and the
/// next one, if there is one, does not.
pub proof fn lemma_run_length_unique(s: Seq<char>, p: spec_fn(char) -> bool, n: int)
    requires
        0 <= n <= s.len(),
        forall|i: int| 0 <= i < n ==> p(#[trigger] s[i]),
        n < s.len() ==> !p(s[n]),
    ensures
        run_length(s, p) == n,
    decreases s.len(),
{
    if n > 0 {
        let t = s.skip(1);
        assert forall|i: int| 0 <= i < n - 1 implies p(#[trigger] t[i]) by {
            assert(t[i] == s[i + 1]);
        }
        lemma_run_length_unique(t, p, n - 1);
    }
}

/// The prefix that `run_length` measures satisfies `p` throughout and cannot be extended.
pub proof fn lemma_run_length_bounds(s: Seq<char>, p: spec_fn(char) -> bool)
    ensures
        run_length(s, p) <= s.len(),
        forall|i: int| 0 <= i < run_length(s, p) ==> p(#[trigger] s[i]),
        run_length(s, p) < s.len() ==> !p(s[run_length(s, p) as int]),
    decreases s.len(),
{
    if s.len() > 0 && p(s[0]) {
        let t = s.skip(1);
        lemma_run_length_bounds(t, p);
        assert forall|i: int| 0 <= i < run_length(s, p) implies p(#[trigger] s[i]) by {
            if i > 0 {
                assert(s[i] == t[i - 1]);
            }
        }
        if run_length(s, p) < s.len() {
            assert(t[run_length(t, p) as int] == s[run_length(s, p) as int]);
        }
    }
}

/// Where the first `n` characters of `s` are no separators and a separator or the end
/// follows them, they are the first piece of `s`.
pub proof fn lemma_split_on_first(s: Seq<char>, separator: char, n: int)
    requires
        0 <= n <= s.len(),
        forall|i: int| 0 <= i < n ==> #[trigger] s[i] != separator,
        n < s.len() ==> s[n] == separator,
    ensures
        n < s.len() ==> split_on(s, separator) == seq![s.take(n)] + split_on(
            s.skip(n + 1),
            separator,
        ),
        n == s.len() ==> split_on(s, separator) == seq![s],
{
    lemma_run_length_unique(s, other_than(separator), n);
}

} // verus!
