//! Splitting a string at every occurrence of a delimiter substring.
//!
//! [`StrSplit`] yields the pieces one by one through [`StrSplit::next`]: the
//! text before the first occurrence of the delimiter, then the text between
//! occurrences, and finally the text after the last one.  A haystack with no
//! occurrence yields itself, once.  All positions are character positions.

use vstd::prelude::*;

verus! {

/// The delimiter `n` occurs in `h` at position `i`.
pub open spec fn match_at(h: Seq<char>, n: Seq<char>, i: int) -> bool {
    0 <= i && i + n.len() <= h.len() && h.subrange(i, i + n.len()) == n
}

/// The position of the first occurrence of `n` in `h`: the least `i` at
/// which the delimiter matches (meaningful when [`has_match`] holds).
pub open spec fn first_match(h: Seq<char>, n: Seq<char>) -> int {
    choose|i: int| match_at(h, n, i) && forall|j: int| 0 <= j < i ==> !match_at(h, n, j)
}

/// Whether the delimiter occurs anywhere in the haystack.
pub open spec fn has_match(h: Seq<char>, n: Seq<char>) -> bool {
    exists|i: int| match_at(h, n, i)
}

/// Whether the delimiter matches the haystack at position `i`.
fn match_at_exec(h: &str, n: &str, i: usize) -> (r: bool)
    requires
        i + n@.len() <= h@.len(),
    ensures
        r == match_at(h@, n@, i as int),
{
    let h_len = h.unicode_len();
    let n_len = n.unicode_len();
    let mut j: usize = 0;
    while j < n_len
        invariant
            j <= n_len,
            n_len == n@.len(),
            h_len == h@.len(),
            i + n@.len() <= h@.len(),
            forall|t: int| 0 <= t < j ==> h@[i + t] == n@[t],
        decreases n_len - j,
    {
        if h.get_char(i + j) != n.get_char(j) {
            proof {
                assert(h@.subrange(i as int, i + n@.len())[j as int] != n@[j as int]);
            }
            return false;
        }
        j = j + 1;
    }
    proof {
        assert(h@.subrange(i as int, i + n@.len()) =~= n@);
    }
    true
}

/// The position of the first occurrence of `n` in `h`, in characters, or
/// `None` if there is none.
fn find_sub(h: &str, n: &str) -> (r: Option<usize>)
    ensures
        match r {
            Some(i) => match_at(h@, n@, i as int) && forall|j: int|
                0 <= j < i ==> !match_at(h@, n@, j),
            None => !has_match(h@, n@),
        },
{
    let h_len = h.unicode_len();
    let n_len = n.unicode_len();
    if n_len > h_len {
        proof {
            assert forall|i: int| !match_at(h@, n@, i) by {}
        }
        return None;
    }
    if n_len == 0 {
        proof {
            assert(h@.subrange(0, 0) =~= n@);
        }
        return Some(0);
    }
    let mut i: usize = 0;
    while i <= h_len - n_len
        invariant
            1 <= n_len <= h_len,
            h_len == h@.len(),
            n_len == n@.len(),
            i <= h_len - n_len + 1,
            forall|j: int| 0 <= j < i ==> !match_at(h@, n@, j),
        decreases h_len + 1 - n_len - i,
    {
        if match_at_exec(h, n, i) {
            return Some(i);
        }
        i = i + 1;
    }
    proof {
        assert forall|j: int| !match_at(h@, n@, j) by {}
    }
    None
}

/// An iterator-like splitter: holds what is left of the haystack and hands
/// out one piece per call of [`StrSplit::next`].
#[derive(Debug)]
pub struct StrSplit<'haystack, 'delimiter> {
    remainder: Option<&'haystack str>,
    delimiter: &'delimiter str,
}

impl<'haystack, 'delimiter> StrSplit<'haystack, 'delimiter> {
    /// What is left to split, if anything.
    pub closed spec fn remainder_view(self) -> Option<Seq<char>> {
        match self.remainder {
            Some(r) => Some(r@),
            None => None,
        }
    }

    /// The delimiter the splitter was built with.
    pub closed spec fn delimiter_view(self) -> Seq<char> {
        self.delimiter@
    }

    /// A splitter over `haystack`, not yet advanced.
    pub fn new(haystack: &'haystack str, delimiter: &'delimiter str) -> (s: StrSplit<
        'haystack,
        'delimiter,
    >)
        ensures
            s.remainder_view() == Some(haystack@),
            s.delimiter_view() == delimiter@,
    {
        StrSplit { remainder: Some(haystack), delimiter }
    }

    /// The next piece: the text before the first occurrence of the delimiter
    /// in the remainder, with the remainder advanced past that occurrence —
    /// or the whole remainder (and then `None` forever) once the delimiter
    /// no longer occurs.
    pub fn next(&mut self) -> (r: Option<&'haystack str>)
        ensures
            match old(self).remainder_view() {
                None => r is None && *final(self) == *old(self),
                Some(rem) => {
                    &&& final(self).delimiter_view() == old(self).delimiter_view()
                    &&& if has_match(rem, old(self).delimiter_view()) {
                        let i = first_match(rem, old(self).delimiter_view());
                        &&& r matches Some(piece) && piece@ == rem.subrange(0, i)
                        &&& final(self).remainder_view() == Some(
                            rem.skip(i + old(self).delimiter_view().len()),
                        )
                    } else {
                        (r matches Some(piece) && piece@ == rem) && final(self).remainder_view()
                            is None
                    }
                },
            },
    {
        match self.remainder {
            Some(remainder) => {
                let rem_len = remainder.unicode_len();
                let delim_len = self.delimiter.unicode_len();
                match find_sub(remainder, self.delimiter) {
                    Some(next_delim) => {
                        let until_delimiter = remainder.substring_char(0, next_delim);
                        self.remainder = Some(
                            remainder.substring_char(next_delim + delim_len, rem_len),
                        );
                        proof {
                            let rem = remainder@;
                            let d = old(self).delimiter_view();
                            lemma_first_match_is(rem, d, next_delim as int);
                            assert(rem.subrange(
                                next_delim + d.len(),
                                rem.len() as int,
                            ) =~= rem.skip(next_delim + d.len()));
                        }
                        Some(until_delimiter)
                    },
                    None => {
                        let r = self.remainder;
                        self.remainder = None;
                        r
                    },
                }
            },
            None => None,
        }
    }
}

/// The text before the first occurrence of the character `c`, or all of `s`
/// if `c` does not occur: the first piece of splitting `s` at `c`.
pub fn until_char<'a>(s: &'a str, c: char) -> (r: &'a str)
    ensures
        has_match(s@, seq![c]) ==> r@ == s@.subrange(0, first_match(s@, seq![c])),
        !has_match(s@, seq![c]) ==> r@ == s@,
{
    let s_len = s.unicode_len();
    let mut i: usize = 0;
    while i < s_len
        invariant
            i <= s_len,
            s_len == s@.len(),
            forall|j: int| 0 <= j < i ==> s@[j] != c,
        decreases s_len - i,
    {
        if s.get_char(i) == c {
            proof {
                lemma_char_match(s@, c, i as int);
            }
            return s.substring_char(0, i);
        }
        i = i + 1;
    }
    proof {
        assert forall|j: int| !match_at(s@, seq![c], j) by {
            if match_at(s@, seq![c], j) {
                assert(s@.subrange(j, j + 1)[0] == s@[j]);
            }
        }
        assert(s@.subrange(0, s@.len() as int) =~= s@);
    }
    s.substring_char(0, s_len)
}

/// If the delimiter matches at `i` and nowhere earlier, then `i` is the
/// first match.
proof fn lemma_first_match_is(h: Seq<char>, n: Seq<char>, i: int)
    requires
        match_at(h, n, i),
        forall|j: int| 0 <= j < i ==> !match_at(h, n, j),
    ensures
        has_match(h, n),
        first_match(h, n) == i,
{
    let fm = first_match(h, n);
    assert(match_at(h, n, fm) && (forall|j: int| 0 <= j < fm ==> !match_at(h, n, j)));
    if fm < i {
        assert(!match_at(h, n, fm));
    }
    if fm > i {
        assert(!match_at(h, n, i));
    }
}

/// A single character matches at `i` iff it is the character at `i`; the
/// first such position is the first occurrence of the character.
proof fn lemma_char_match(s: Seq<char>, c: char, i: int)
    requires
        0 <= i < s.len(),
        s[i] == c,
        forall|j: int| 0 <= j < i ==> s[j] != c,
    ensures
        has_match(s, seq![c]),
        first_match(s, seq![c]) == i,
{
    assert(s.subrange(i, i + 1) =~= seq![c]);
    assert(match_at(s, seq![c], i));
    assert forall|j: int| 0 <= j < i implies !match_at(s, seq![c], j) by {
        if match_at(s, seq![c], j) {
            assert(s.subrange(j, j + 1)[0] == s[j]);
        }
    }
    lemma_first_match_is(s, seq![c], i);
}

} // verus!
