//! Character-level text helpers used by classification and rendering:
//! trimming surrounding whitespace and lowercasing ASCII letters.

use vstd::prelude::*;

verus! {

/// The whitespace characters stripped from the ends of a word.
pub open spec fn is_space(c: char) -> bool {
    c == ' ' || c == '\t' || c == '\n' || c == '\r'
}

/// Number of leading whitespace characters.
pub open spec fn ltrim_len(s: Seq<char>) -> int
    decreases s.len(),
{
    if s.len() == 0 {
        0
    } else if is_space(s[0]) {
        1 + ltrim_len(s.subrange(1, s.len() as int))
    } else {
        0
    }
}

/// Number of trailing whitespace characters.
pub open spec fn rtrim_len(s: Seq<char>) -> int
    decreases s.len(),
{
    if s.len() == 0 {
        0
    } else if is_space(s[s.len() - 1]) {
        1 + rtrim_len(s.subrange(0, s.len() - 1))
    } else {
        0
    }
}

/// The word with surrounding whitespace removed.
pub open spec fn trimmed(s: Seq<char>) -> Seq<char> {
    if ltrim_len(s) == s.len() {
        Seq::empty()
    } else {
        s.subrange(ltrim_len(s), s.len() - rtrim_len(s))
    }
}

/// `ltrim_len` is pinned down by its characterisation: `k` leading spaces
/// followed by a non-space (or the end).
pub proof fn lemma_ltrim_unique(s: Seq<char>, k: int)
    requires
        0 <= k <= s.len(),
        forall|j: int| 0 <= j < k ==> is_space(s[j]),
        k < s.len() ==> !is_space(s[k]),
    ensures
        ltrim_len(s) == k,
    decreases s.len(),
{
    if s.len() > 0 && is_space(s[0]) {
        let tail = s.subrange(1, s.len() as int);
        lemma_ltrim_unique(tail, k - 1);
    }
}

/// `rtrim_len` is pinned down by its characterisation: `k` trailing spaces
/// preceded by a non-space (or the start).
pub proof fn lemma_rtrim_unique(s: Seq<char>, k: int)
    requires
        0 <= k <= s.len(),
        forall|j: int| s.len() - k <= j < s.len() ==> is_space(s[j]),
        k < s.len() ==> !is_space(s[s.len() - 1 - k]),
    ensures
        rtrim_len(s) == k,
    decreases s.len(),
{
    if s.len() > 0 && is_space(s[s.len() - 1]) {
        let head = s.subrange(0, s.len() - 1);
        lemma_rtrim_unique(head, k - 1);
    }
}

/// Whether a character is one of the whitespace characters trimming strips.
pub fn is_space_char(c: char) -> (r: bool)
    ensures
        r == is_space(c),
{
    c == ' ' || c == '\t' || c == '\n' || c == '\r'
}

/// The word with surrounding whitespace removed.
pub fn trim(s: &str) -> (r: &str)
    ensures
        r@ == trimmed(s@),
{
    let n = s.unicode_len();
    let mut start: usize = 0;
    while start < n && is_space_char(s.get_char(start))
        invariant
            n == s@.len(),
            start <= n,
            forall|j: int| 0 <= j < start ==> is_space(s@[j]),
        decreases n - start,
    {
        start = start + 1;
    }
    proof {
        lemma_ltrim_unique(s@, start as int);
    }
    if start == n {
        let r = s.substring_char(0, 0);
        proof {
            assert(r@ =~= trimmed(s@));
        }
        return r;
    }
    let mut end: usize = n;
    while end > start + 1 && is_space_char(s.get_char(end - 1))
        invariant
            n == s@.len(),
            start < n,
            start + 1 <= end <= n,
            forall|j: int| end <= j < n ==> is_space(s@[j]),
        decreases end,
    {
        end = end - 1;
    }
    proof {
        lemma_rtrim_unique(s@, (n - end) as int);
    }
    let r = s.substring_char(start, end);
    proof {
        assert(r@ =~= trimmed(s@));
    }
    r
}

/// An ASCII uppercase letter mapped to its lowercase form; any other
/// character unchanged.
pub open spec fn lower_char(c: char) -> char {
    if c == 'A' {
        'a'
    } else if c == 'B' {
        'b'
    } else if c == 'C' {
        'c'
    } else if c == 'D' {
        'd'
    } else if c == 'E' {
        'e'
    } else if c == 'F' {
        'f'
    } else if c == 'G' {
        'g'
    } else if c == 'H' {
        'h'
    } else if c == 'I' {
        'i'
    } else if c == 'J' {
        'j'
    } else if c == 'K' {
        'k'
    } else if c == 'L' {
        'l'
    } else if c == 'M' {
        'm'
    } else if c == 'N' {
        'n'
    } else if c == 'O' {
        'o'
    } else if c == 'P' {
        'p'
    } else if c == 'Q' {
        'q'
    } else if c == 'R' {
        'r'
    } else if c == 'S' {
        's'
    } else if c == 'T' {
        't'
    } else if c == 'U' {
        'u'
    } else if c == 'V' {
        'v'
    } else if c == 'W' {
        'w'
    } else if c == 'X' {
        'x'
    } else if c == 'Y' {
        'y'
    } else if c == 'Z' {
        'z'
    } else {
        c
    }
}

/// A word lowercased character by character.
pub open spec fn lower(s: Seq<char>) -> Seq<char> {
    s.map_values(|c: char| lower_char(c))
}

/// An ASCII uppercase letter mapped to its lowercase form.
pub fn lower_char_exec(c: char) -> (r: char)
    ensures
        r == lower_char(c),
{
    if c == 'A' {
        'a'
    } else if c == 'B' {
        'b'
    } else if c == 'C' {
        'c'
    } else if c == 'D' {
        'd'
    } else if c == 'E' {
        'e'
    } else if c == 'F' {
        'f'
    } else if c == 'G' {
        'g'
    } else if c == 'H' {
        'h'
    } else if c == 'I' {
        'i'
    } else if c == 'J' {
        'j'
    } else if c == 'K' {
        'k'
    } else if c == 'L' {
        'l'
    } else if c == 'M' {
        'm'
    } else if c == 'N' {
        'n'
    } else if c == 'O' {
        'o'
    } else if c == 'P' {
        'p'
    } else if c == 'Q' {
        'q'
    } else if c == 'R' {
        'r'
    } else if c == 'S' {
        's'
    } else if c == 'T' {
        't'
    } else if c == 'U' {
        'u'
    } else if c == 'V' {
        'v'
    } else if c == 'W' {
        'w'
    } else if c == 'X' {
        'x'
    } else if c == 'Y' {
        'y'
    } else if c == 'Z' {
        'z'
    } else {
        c
    }
}

/// Relies on `String::push`: appends exactly the given character to the
/// end of the string.
#[verifier::external_body]
fn push_char(s: &mut String, c: char)
    ensures
        final(s)@ == old(s)@.push(c),
{
    s.push(c)
}

/// The word lowercased character by character.
pub fn to_lowercase(s: &str) -> (r: String)
    ensures
        r@ == lower(s@),
{
    let n = s.unicode_len();
    let mut out = String::new();
    let mut i: usize = 0;
    while i < n
        invariant
            n == s@.len(),
            i <= n,
            out@ =~= lower(s@.subrange(0, i as int)),
        decreases n - i,
    {
        let c = lower_char_exec(s.get_char(i));
        push_char(&mut out, c);
        proof {
            assert(s@.subrange(0, i + 1 as int) =~= s@.subrange(0, i as int).push(s@[i as int]));
            assert(lower(s@.subrange(0, i + 1)) =~= lower(s@.subrange(0, i as int)).push(
                lower_char(s@[i as int]),
            ));
        }
        i = i + 1;
    }
    proof {
        assert(s@.subrange(0, n as int) =~= s@);
    }
    out
}

} // verus!
