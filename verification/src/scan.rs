//! Locating the first occurrence of a character in a sequence.
//!
//! Both the record parser (first `|` in a line) and the line splitter
//! (each `\n` in the file content) need the position of the first
//! occurrence of a character. `char_pos` is the mathematical definition;
//! `find_char_from` is the executable scan.

use vstd::prelude::*;

verus! {

/// The position of the first occurrence of `c` in `s`, if any.
pub open spec fn char_pos(s: Seq<char>, c: char) -> Option<int>
    decreases s.len(),
{
    if s.len() == 0 {
        None
    } else if s[0] == c {
        Some(0)
    } else {
        match char_pos(s.drop_first(), c) {
            None => None,
            Some(i) => Some(i + 1),
        }
    }
}

/// `char_pos` finds exactly the first occurrence: `None` means `c` does not
/// occur in `s`, and `Some(i)` means `s[i] == c` with no occurrence before `i`.
pub proof fn lemma_char_pos(s: Seq<char>, c: char)
    ensures
        match char_pos(s, c) {
            None => forall|j: int| 0 <= j < s.len() ==> s[j] != c,
            Some(i) => 0 <= i < s.len() && s[i] == c && (forall|j: int| 0 <= j < i ==> s[j] != c),
        },
    decreases s.len(),
{
    if s.len() > 0 && s[0] != c {
        lemma_char_pos(s.drop_first(), c);
        assert forall|j: int| 0 <= j < s.len() && char_pos(s, c) is None implies s[j] != c by {
            if j > 0 {
                assert(s.drop_first()[j - 1] == s[j]);
            }
        }
        if let Some(i) = char_pos(s.drop_first(), c) {
            assert forall|j: int| 0 <= j < i + 1 implies s[j] != c by {
                if j > 0 {
                    assert(s.drop_first()[j - 1] == s[j]);
                }
            }
        }
    }
}

/// An index that holds `c`, with no occurrence of `c` before it, is where
/// `char_pos` points.
pub proof fn lemma_char_pos_unique(s: Seq<char>, c: char, i: int)
    requires
        0 <= i < s.len(),
        s[i] == c,
        forall|j: int| 0 <= j < i ==> s[j] != c,
    ensures
        char_pos(s, c) == Some(i),
{
    lemma_char_pos(s, c);
    match char_pos(s, c) {
        None => {
            assert(false);
        },
        Some(k) => {
            if k < i {
                assert(s[k] != c);
            } else if k > i {
                assert(s[i] != c);
            }
        },
    }
}

/// The first occurrence within a prefix is the first occurrence of the whole.
pub proof fn lemma_char_pos_in_prefix(s: Seq<char>, t: Seq<char>, c: char)
    requires
        char_pos(s, c) is Some,
    ensures
        char_pos(s + t, c) == char_pos(s, c),
{
    let i = char_pos(s, c)->Some_0;
    lemma_char_pos(s, c);
    assert forall|j: int| 0 <= j < i implies (s + t)[j] != c by {
        assert((s + t)[j] == s[j]);
    }
    lemma_char_pos_unique(s + t, c, i);
}

/// When `c` does not occur in `s`, the first occurrence in `s + t` is the
/// first occurrence in `t`, shifted past `s`.
pub proof fn lemma_char_pos_past_prefix(s: Seq<char>, t: Seq<char>, c: char)
    requires
        char_pos(s, c) is None,
    ensures
        char_pos(s + t, c) == match char_pos(t, c) {
            None => None::<int>,
            Some(i) => Some(i + s.len()),
        },
{
    lemma_char_pos(s, c);
    lemma_char_pos(t, c);
    match char_pos(t, c) {
        None => {
            lemma_char_pos(s + t, c);
            if let Some(k) = char_pos(s + t, c) {
                if k < s.len() {
                    assert((s + t)[k] == s[k]);
                } else {
                    assert((s + t)[k] == t[k - s.len()]);
                }
                assert(false);
            }
        },
        Some(i) => {
            assert forall|j: int| 0 <= j < i + s.len() implies (s + t)[j] != c by {
                if j < s.len() {
                    assert((s + t)[j] == s[j]);
                } else {
                    assert((s + t)[j] == t[j - s.len()]);
                }
            }
            assert((s + t)[i + s.len()] == t[i]);
            lemma_char_pos_unique(s + t, c, i + s.len());
        },
    }
}

/// The first occurrence of `c` in `s` at or after position `from`,
/// as an executable scan.
pub fn find_char_from(s: &str, from: usize, c: char) -> (r: Option<usize>)
    requires
        from <= s@.len(),
    ensures
        match r {
            None => char_pos(s@.skip(from as int), c) is None,
            Some(i) => from <= i < s@.len() && char_pos(s@.skip(from as int), c) == Some(
                i - from,
            ),
        },
{
    let n = s.unicode_len();
    let mut i = from;
    while i < n
        invariant
            from <= i <= n,
            n == s@.len(),
            forall|j: int| from <= j < i ==> s@[j] != c,
        decreases n - i,
    {
        if s.get_char(i) == c {
            proof {
                let tail = s@.skip(from as int);
                assert forall|j: int| 0 <= j < i - from implies tail[j] != c by {
                    assert(tail[j] == s@[j + from]);
                }
                assert(tail[i - from] == s@[i as int]);
                lemma_char_pos_unique(tail, c, i - from);
            }
            return Some(i);
        }
        i = i + 1;
    }
    proof {
        let tail = s@.skip(from as int);
        lemma_char_pos(tail, c);
        if let Some(k) = char_pos(tail, c) {
            assert(tail[k] == s@[k + from]);
        }
    }
    None
}

} // verus!
