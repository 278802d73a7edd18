//! Format patterns: a literal prefix and suffix around a single `%v`
//! placeholder, used to mark which part of a filename is the version.

use vstd::prelude::*;

verus! {

/// The placeholder text that a format pattern must contain exactly once.
pub open spec fn placeholder() -> Seq<char> {
    seq!['%', 'v']
}

/// True when the placeholder occurs in `s` starting at index `i`.
pub open spec fn placeholder_at(s: Seq<char>, i: int) -> bool {
    &&& 0 <= i
    &&& i + 2 <= s.len()
    &&& s[i] == '%'
    &&& s[i + 1] == 'v'
}

/// True when the placeholder occurs at `i` and nowhere else in `s`.
pub open spec fn single_placeholder_at(s: Seq<char>, i: int) -> bool {
    &&& placeholder_at(s, i)
    &&& forall|j: int| placeholder_at(s, j) ==> j == i
}

/// A format pattern is valid when it splits into exactly two literal
/// segments around one placeholder.
pub open spec fn pattern_ok(s: Seq<char>) -> bool {
    exists|i: int| single_placeholder_at(s, i)
}

/// Index of the unique placeholder of a valid pattern.
pub open spec fn placeholder_index(s: Seq<char>) -> int {
    choose|i: int| single_placeholder_at(s, i)
}

/// Character length of the literal text before the placeholder.
pub open spec fn prefix_len(s: Seq<char>) -> int {
    placeholder_index(s)
}

/// Character length of the literal text after the placeholder.
pub open spec fn suffix_len(s: Seq<char>) -> int {
    s.len() - placeholder_index(s) - 2
}

/// Whether `raw` is long enough to cut the pattern's literal prefix and
/// suffix off either end.
pub open spec fn pattern_fits(raw: Seq<char>, fmt: Option<Seq<char>>) -> bool {
    match fmt {
        None => true,
        Some(p) => prefix_len(p) + suffix_len(p) <= raw.len(),
    }
}

/// The substring of `raw` that stands for just the version: `raw` itself
/// when no pattern is configured, otherwise `raw` with the pattern's literal
/// prefix and suffix lengths cut off either end. The literals are trusted to
/// be present at those positions; their content is not checked.
pub open spec fn canonical_of(raw: Seq<char>, fmt: Option<Seq<char>>) -> Seq<char> {
    match fmt {
        None => raw,
        Some(p) => raw.subrange(prefix_len(p), raw.len() - suffix_len(p)),
    }
}

/// Scans a pattern for its placeholder: `Some(i)` exactly when `%v` occurs
/// once in `p`, at character index `i`.
pub fn find_placeholder(p: &str) -> (r: Option<usize>)
    ensures
        match r {
            Some(i) => single_placeholder_at(p@, i as int),
            None => !pattern_ok(p@),
        },
{
    let n = p.unicode_len();
    let mut first: Option<usize> = None;
    let mut extra: bool = false;
    let mut i: usize = 0;
    while i < n
        invariant
            n == p@.len(),
            i <= n,
            match first {
                None => !extra && forall|j: int| 0 <= j < i ==> !placeholder_at(p@, j),
                Some(f) => {
                    &&& f < i
                    &&& placeholder_at(p@, f as int)
                    &&& forall|j: int| 0 <= j < f ==> !placeholder_at(p@, j)
                    &&& !extra ==> forall|j: int| f < j < i ==> !placeholder_at(p@, j)
                    &&& extra ==> exists|j: int|
                        f < j < i && placeholder_at(p@, j)
                },
            },
        decreases n - i,
    {
        if i + 1 < n && p.get_char(i) == '%' && p.get_char(i + 1) == 'v' {
            assert(placeholder_at(p@, i as int));
            if first.is_none() {
                first = Some(i);
            } else {
                extra = true;
            }
        } else {
            assert(!placeholder_at(p@, i as int));
        }
        i = i + 1;
    }
    proof {
        assert(forall|j: int| placeholder_at(p@, j) ==> 0 <= j < n);
    }
    if extra {
        proof {
            let f = first->Some_0 as int;
            let j2 = choose|j: int| f < j < n && placeholder_at(p@, j);
            assert(forall|i0: int| !single_placeholder_at(p@, i0)) by {
                assert forall|i0: int| !single_placeholder_at(p@, i0) by {
                    if single_placeholder_at(p@, i0) {
                        assert(f == i0 && j2 == i0);
                    }
                }
            }
        }
        None
    } else {
        first
    }
}

/// Checks that a pattern is well formed: exactly one `%v` placeholder.
pub fn check_pattern(p: &str) -> (r: bool)
    ensures
        r == pattern_ok(p@),
{
    find_placeholder(p).is_some()
}

/// A pattern assembled from a prefix and suffix that are themselves free of
/// the placeholder has exactly one placeholder, between them: `%v` cannot
/// straddle the boundary, because its two characters differ.
pub proof fn lemma_single_placeholder_build(prefix: Seq<char>, suffix: Seq<char>)
    requires
        forall|j: int| !placeholder_at(prefix, j),
        forall|j: int| !placeholder_at(suffix, j),
    ensures
        single_placeholder_at(prefix + placeholder() + suffix, prefix.len() as int),
{
    let pat = prefix + placeholder() + suffix;
    let n = prefix.len() as int;
    assert(placeholder_at(pat, n));
    assert forall|j: int| placeholder_at(pat, j) implies j == n by {
        if j + 2 <= n {
            assert(placeholder_at(prefix, j));
        } else if j == n - 1 {
            assert(pat[j + 1] == '%');
        } else if j == n + 1 {
            assert(pat[j] == 'v');
        } else if j > n + 1 {
            assert(placeholder_at(suffix, j - n - 2));
        }
    }
}

/// Round trip: the canonical string extracted with a pattern
/// `prefix %v suffix` from the input `prefix + v + suffix` is exactly `v`,
/// whenever the pattern's placeholder is the one between prefix and suffix.
pub proof fn lemma_canonical_round_trip(prefix: Seq<char>, v: Seq<char>, suffix: Seq<char>)
    requires
        single_placeholder_at(prefix + placeholder() + suffix, prefix.len() as int),
    ensures
        canonical_of(prefix + v + suffix, Some(prefix + placeholder() + suffix)) == v,
{
    let pat = prefix + placeholder() + suffix;
    let raw = prefix + v + suffix;
    let i0 = placeholder_index(pat);
    assert(single_placeholder_at(pat, i0));
    assert(i0 == prefix.len());
    assert(suffix_len(pat) == suffix.len());
    assert(raw.subrange(prefix.len() as int, raw.len() - suffix.len()) =~= v);
}

} // verus!
