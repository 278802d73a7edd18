//! Ordering of versions: lexicographic over the numeric groups
//! `(major, minor, patch, rest...)`, where a shorter `rest` that is a prefix
//! of a longer one ranks lower. The canonical string plays no part.

use core::cmp::Ordering;
use vstd::prelude::*;

use crate::version::Version;

verus! {

/// The full numeric key of a version: major, minor, patch, then the rest.
pub open spec fn key(v: Version) -> Seq<u32> {
    seq![v.major, v.minor, v.patch] + v.rest@
}

/// Strict lexicographic order on number sequences: decided by the first
/// differing position, with a strict prefix ranking below its extension.
pub open spec fn lex_lt(a: Seq<u32>, b: Seq<u32>) -> bool
    decreases a.len(),
{
    if b.len() == 0 {
        false
    } else if a.len() == 0 {
        true
    } else if a[0] != b[0] {
        a[0] < b[0]
    } else {
        lex_lt(a.drop_first(), b.drop_first())
    }
}

/// One version is strictly older than another exactly when its key is
/// lexicographically smaller.
pub open spec fn version_lt(a: Version, b: Version) -> bool {
    lex_lt(key(a), key(b))
}

/// The order is irreflexive: no sequence is below itself.
pub proof fn lemma_lex_irreflexive(a: Seq<u32>)
    ensures
        !lex_lt(a, a),
    decreases a.len(),
{
    if a.len() > 0 {
        lemma_lex_irreflexive(a.drop_first());
    }
}

/// The order is antisymmetric: two sequences are never below each other.
pub proof fn lemma_lex_antisymmetric(a: Seq<u32>, b: Seq<u32>)
    requires
        lex_lt(a, b),
    ensures
        !lex_lt(b, a),
    decreases a.len(),
{
    if a.len() > 0 && b.len() > 0 && a[0] == b[0] {
        lemma_lex_antisymmetric(a.drop_first(), b.drop_first());
    }
}

/// The order is transitive.
pub proof fn lemma_lex_transitive(a: Seq<u32>, b: Seq<u32>, c: Seq<u32>)
    requires
        lex_lt(a, b),
        lex_lt(b, c),
    ensures
        lex_lt(a, c),
    decreases a.len(),
{
    if a.len() > 0 && b.len() > 0 && c.len() > 0 && a[0] == b[0] && b[0] == c[0] {
        lemma_lex_transitive(a.drop_first(), b.drop_first(), c.drop_first());
    }
}

/// The order is total: any two sequences are below one another or equal.
pub proof fn lemma_lex_trichotomy(a: Seq<u32>, b: Seq<u32>)
    ensures
        lex_lt(a, b) || lex_lt(b, a) || a == b,
    decreases a.len(),
{
    if a.len() > 0 && b.len() > 0 && a[0] == b[0] {
        lemma_lex_trichotomy(a.drop_first(), b.drop_first());
        if a.drop_first() == b.drop_first() {
            assert forall|j: int| 0 <= j < a.len() implies a[j] == b[j] by {
                if j >= 1 {
                    assert(a[j] == a.drop_first()[j - 1]);
                    assert(b[j] == b.drop_first()[j - 1]);
                }
            }
            assert(a =~= b);
        }
    }
}

/// A strict prefix ranks below its extension: the explicit rule that a
/// shorter `rest` compares as less when all present elements tie.
pub proof fn lemma_lex_prefix_below(a: Seq<u32>, b: Seq<u32>)
    requires
        a.len() < b.len(),
        a == b.subrange(0, a.len() as int),
    ensures
        lex_lt(a, b),
    decreases a.len(),
{
    if a.len() > 0 {
        assert(a[0] == b[0]);
        assert(a.drop_first() =~= b.drop_first().subrange(0, a.len() - 1));
        lemma_lex_prefix_below(a.drop_first(), b.drop_first());
    }
}

/// With equal prefixes up to `i`, the comparison is decided by the suffixes.
pub proof fn lemma_lex_skip(a: Seq<u32>, b: Seq<u32>, i: int)
    requires
        0 <= i <= a.len(),
        i <= b.len(),
        forall|j: int| 0 <= j < i ==> a[j] == b[j],
    ensures
        lex_lt(a, b) == lex_lt(a.skip(i), b.skip(i)),
    decreases i,
{
    if i > 0 {
        assert(a.len() > 0 && b.len() > 0 && a[0] == b[0]);
        assert(forall|j: int| 0 <= j < i - 1 ==> a.drop_first()[j] == b.drop_first()[j]);
        lemma_lex_skip(a.drop_first(), b.drop_first(), i - 1);
        assert(a.drop_first().skip(i - 1) =~= a.skip(i));
        assert(b.drop_first().skip(i - 1) =~= b.skip(i));
    } else {
        assert(a.skip(0) =~= a);
        assert(b.skip(0) =~= b);
    }
}

/// The version order is consistent with tuple-style lexicographic
/// comparison on `(major, minor, patch, rest...)`.
pub proof fn lemma_version_order_tuple(a: Version, b: Version)
    ensures
        version_lt(a, b) <==> (a.major < b.major || (a.major == b.major && (a.minor < b.minor
            || (a.minor == b.minor && (a.patch < b.patch || (a.patch == b.patch && lex_lt(
            a.rest@,
            b.rest@,
        ))))))),
{
    let ka = key(a);
    let kb = key(b);
    assert(ka.len() >= 3 && kb.len() >= 3);
    assert(ka[0] == a.major && ka[1] == a.minor && ka[2] == a.patch);
    assert(kb[0] == b.major && kb[1] == b.minor && kb[2] == b.patch);
    if a.major != b.major {
        assert(lex_lt(ka, kb) == (a.major < b.major));
    } else if a.minor != b.minor {
        lemma_lex_skip(ka, kb, 1);
        assert(ka.skip(1)[0] == ka[1] && kb.skip(1)[0] == kb[1]);
        assert(lex_lt(ka.skip(1), kb.skip(1)) == (a.minor < b.minor));
    } else if a.patch != b.patch {
        lemma_lex_skip(ka, kb, 2);
        assert(ka.skip(2)[0] == ka[2] && kb.skip(2)[0] == kb[2]);
        assert(lex_lt(ka.skip(2), kb.skip(2)) == (a.patch < b.patch));
    } else {
        lemma_lex_skip(ka, kb, 3);
        assert(ka.skip(3) =~= a.rest@);
        assert(kb.skip(3) =~= b.rest@);
    }
}

/// The version order is reflexive-equal, antisymmetric and transitive.
pub proof fn lemma_version_order_total(a: Version, b: Version, c: Version)
    ensures
        !version_lt(a, a),
        version_lt(a, b) ==> !version_lt(b, a),
        version_lt(a, b) && version_lt(b, c) ==> version_lt(a, c),
        version_lt(a, b) || version_lt(b, a) || key(a) == key(b),
{
    lemma_lex_irreflexive(key(a));
    if version_lt(a, b) {
        lemma_lex_antisymmetric(key(a), key(b));
        if version_lt(b, c) {
            lemma_lex_transitive(key(a), key(b), key(c));
        }
    }
    lemma_lex_trichotomy(key(a), key(b));
}

/// Three-way exec comparison of number vectors under `lex_lt`.
fn lex_cmp(a: &Vec<u32>, b: &Vec<u32>) -> (r: Ordering)
    ensures
        r == Ordering::Less <==> lex_lt(a@, b@),
        r == Ordering::Greater <==> lex_lt(b@, a@),
        r == Ordering::Equal <==> a@ == b@,
{
    let mut i: usize = 0;
    loop
        invariant
            i <= a.len(),
            i <= b.len(),
            forall|j: int| 0 <= j < i ==> a@[j] == b@[j],
        decreases a.len() - i,
    {
        proof {
            lemma_lex_skip(a@, b@, i as int);
            lemma_lex_skip(b@, a@, i as int);
        }
        if i == a.len() && i == b.len() {
            proof {
                assert(a@ =~= b@);
            }
            return Ordering::Equal;
        } else if i == a.len() {
            proof {
                assert(a@.skip(i as int).len() == 0 && b@.skip(i as int).len() > 0);
                lemma_lex_irreflexive(a@);
            }
            return Ordering::Less;
        } else if i == b.len() {
            proof {
                assert(b@.skip(i as int).len() == 0 && a@.skip(i as int).len() > 0);
                lemma_lex_irreflexive(b@);
            }
            return Ordering::Greater;
        } else if a[i] < b[i] {
            proof {
                assert(a@.skip(i as int)[0] == a@[i as int]);
                assert(b@.skip(i as int)[0] == b@[i as int]);
                lemma_lex_antisymmetric(a@, b@);
                if a@ == b@ {
                    assert(a@[i as int] == b@[i as int]);
                }
            }
            return Ordering::Less;
        } else if b[i] < a[i] {
            proof {
                assert(a@.skip(i as int)[0] == a@[i as int]);
                assert(b@.skip(i as int)[0] == b@[i as int]);
                lemma_lex_antisymmetric(b@, a@);
                if a@ == b@ {
                    assert(a@[i as int] == b@[i as int]);
                }
            }
            return Ordering::Greater;
        }
        i = i + 1;
    }
}

impl Version {
    /// Compares two versions by their numeric keys, lexicographically.
    pub fn compare(&self, other: &Version) -> (r: Ordering)
        ensures
            r == Ordering::Less <==> version_lt(*self, *other),
            r == Ordering::Greater <==> version_lt(*other, *self),
            r == Ordering::Equal <==> key(*self) == key(*other),
    {
        let ka = self.key_vec();
        let kb = other.key_vec();
        lex_cmp(&ka, &kb)
    }

    /// The numeric key as a vector: major, minor, patch, then the rest.
    pub fn key_vec(&self) -> (r: Vec<u32>)
        ensures
            r@ == key(*self),
    {
        let mut r: Vec<u32> = Vec::new();
        r.push(self.major);
        r.push(self.minor);
        r.push(self.patch);
        let mut i: usize = 0;
        while i < self.rest.len()
            invariant
                i <= self.rest.len(),
                r@ == seq![self.major, self.minor, self.patch] + self.rest@.subrange(0, i as int),
            decreases self.rest.len() - i,
        {
            r.push(self.rest[i]);
            proof {
                assert(r@ =~= seq![self.major, self.minor, self.patch] + self.rest@.subrange(
                    0,
                    i as int + 1,
                ));
            }
            i = i + 1;
        }
        proof {
            assert(self.rest@.subrange(0, self.rest@.len() as int) =~= self.rest@);
        }
        r
    }
}

/// Picks the newest of the given versions: `None` only on empty input. When
/// several tie on the numeric key, the last of them is returned.
pub fn max_version(versions: Vec<Version>) -> (r: Option<Version>)
    ensures
        match r {
            None => versions@.len() == 0,
            Some(m) => exists|i: int|
                {
                    &&& 0 <= i < versions@.len()
                    &&& m == versions@[i]
                    &&& forall|j: int|
                        0 <= j < versions@.len() ==> !version_lt(m, #[trigger] versions@[j])
                    &&& forall|j: int|
                        i < j < versions@.len() ==> version_lt(#[trigger] versions@[j], m)
                },
        },
{
    if versions.len() == 0 {
        return None;
    }
    let mut best: usize = 0;
    let mut j: usize = 1;
    proof {
        lemma_lex_irreflexive(key(versions@[0]));
    }
    while j < versions.len()
        invariant
            versions@.len() > 0,
            best < j <= versions@.len(),
            forall|k: int|
                0 <= k < j ==> !version_lt(versions@[best as int], #[trigger] versions@[k]),
            forall|k: int|
                best < k < j ==> version_lt(#[trigger] versions@[k], versions@[best as int]),
        decreases versions@.len() - j,
    {
        let c = versions[j].compare(&versions[best]);
        let take = !matches!(c, Ordering::Less);
        proof {
            let vb = versions@[best as int];
            let vj = versions@[j as int];
            if take {
                assert forall|k: int| 0 <= k < j + 1 implies !version_lt(
                    vj,
                    #[trigger] versions@[k],
                ) by {
                    if k < j && version_lt(vj, versions@[k]) {
                        if key(vj) == key(vb) {
                            assert(version_lt(vb, versions@[k]));
                        } else {
                            crate::order::lemma_lex_transitive(
                                key(vb),
                                key(vj),
                                key(versions@[k]),
                            );
                        }
                    }
                    if k == j {
                        lemma_lex_irreflexive(key(vj));
                    }
                }
            } else {
                lemma_lex_antisymmetric(key(vj), key(vb));
            }
        }
        if take {
            best = j;
        }
        j = j + 1;
    }
    let mut vs = versions;
    let m = vs.remove(best);
    Some(m)
}

} // verus!
