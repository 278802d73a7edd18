//! The update cycle's decisions: which filesystem notifications start a
//! rescan, which directory entries count as kernel images, which of them is
//! newest, whether it beats the running kernel, and exactly which two
//! processes an update must spawn.

use vstd::prelude::*;

use crate::order::{key, lemma_lex_irreflexive, lemma_lex_antisymmetric, lemma_lex_transitive,
    lemma_lex_trichotomy, lex_lt, max_version, version_lt};
use crate::pattern::{canonical_of, find_placeholder, pattern_fits, pattern_ok, placeholder_index,
    single_placeholder_at};
use crate::template::{build, subst_all, template_tokens, ProcessSpec};
use crate::version::{extracted, ParseError, Version};

verus! {

/// A filesystem change notification, as the watch collaborator reports it.
pub enum FsEvent {
    Create(String),
    Remove(String),
    Other,
}

/// Only non-remove notifications start a rescan: a removal is the boot
/// manager's own housekeeping or a deletion, never a new kernel image.
pub fn should_rescan(event: &FsEvent) -> (r: bool)
    ensures
        r == !(event is Remove),
{
    !(matches!(event, FsEvent::Remove(_)))
}

/// The pair of process specifications of one boot-entry update: first the
/// removal of the stale entry, then the creation of the new one.
#[derive(Debug)]
pub struct BootEntrySpec {
    pub remove: ProcessSpec,
    pub create: ProcessSpec,
}

/// What an update cycle decided to do: the two processes, and whether the
/// removal is really to be spawned (a dry run only logs it; the creation is
/// spawned regardless).
#[derive(Debug)]
pub struct UpdatePlan {
    pub entry: BootEntrySpec,
    pub run_remove: bool,
}

/// `needle` occurs in `hay` starting at `i`.
pub open spec fn contains_at(hay: Seq<char>, needle: Seq<char>, i: int) -> bool {
    &&& 0 <= i
    &&& i + needle.len() <= hay.len()
    &&& hay.subrange(i, i + needle.len()) == needle
}

/// `needle` occurs somewhere in `hay`.
pub open spec fn contains_seq(hay: Seq<char>, needle: Seq<char>) -> bool {
    exists|i: int| contains_at(hay, needle, i)
}

/// A directory entry qualifies as a kernel image candidate: it carries the
/// configured marker, it is long enough for the naming pattern, and at least
/// three numbers can be extracted from it.
pub open spec fn qualifies(name: Seq<char>, marker: Seq<char>, fmt: Option<Seq<char>>) -> bool {
    &&& contains_seq(name, marker)
    &&& pattern_fits(name, fmt)
    &&& extracted(name).len() >= 3
}

/// The qualifying names among `names`, in their original order.
pub open spec fn candidates(names: Seq<Seq<char>>, marker: Seq<char>, fmt: Option<Seq<char>>)
    -> Seq<Seq<char>>
    decreases names.len(),
{
    if names.len() == 0 {
        Seq::<Seq<char>>::empty()
    } else {
        let prev = candidates(names.drop_last(), marker, fmt);
        if qualifies(names.last(), marker, fmt) {
            prev.push(names.last())
        } else {
            prev
        }
    }
}

/// The index of the last candidate with the greatest extracted number
/// sequence.
pub open spec fn max_cand_idx(cands: Seq<Seq<char>>) -> int
    decreases cands.len(),
{
    if cands.len() <= 1 {
        0
    } else {
        let p = max_cand_idx(cands.drop_last());
        if !lex_lt(extracted(cands.last()), extracted(cands[p])) {
            cands.len() - 1
        } else {
            p
        }
    }
}

/// The winning candidate name: the last one with the greatest version.
pub open spec fn best_name(cands: Seq<Seq<char>>) -> Seq<char> {
    cands[max_cand_idx(cands)]
}

/// An update is due when a candidate exists and its version is strictly
/// greater than the running one; with no running version known, whichever
/// image is newest wins unconditionally.
pub open spec fn update_due(cands: Seq<Seq<char>>, running: Option<Version>) -> bool {
    &&& cands.len() > 0
    &&& match running {
        None => true,
        Some(rv) => lex_lt(key(rv), extracted(best_name(cands))),
    }
}

/// The running version as an exec parameter carries it.
pub open spec fn running_of(r: Option<&Version>) -> Option<Version> {
    match r {
        None => None,
        Some(v) => Some(*v),
    }
}

/// `max_cand_idx` names a candidate that no other exceeds, and that strictly
/// exceeds every later one.
pub proof fn lemma_max_cand_idx(cands: Seq<Seq<char>>)
    requires
        cands.len() > 0,
    ensures
        0 <= max_cand_idx(cands) < cands.len(),
        forall|j: int|
            0 <= j < cands.len() ==> !lex_lt(
                extracted(best_name(cands)),
                extracted(#[trigger] cands[j]),
            ),
        forall|j: int|
            max_cand_idx(cands) < j < cands.len() ==> lex_lt(
                extracted(#[trigger] cands[j]),
                extracted(best_name(cands)),
            ),
    decreases cands.len(),
{
    let i = max_cand_idx(cands);
    if cands.len() == 1 {
        lemma_lex_irreflexive(extracted(cands[0]));
    } else {
        let d = cands.drop_last();
        let p = max_cand_idx(d);
        lemma_max_cand_idx(d);
        let last = cands.last();
        assert(forall|j: int| 0 <= j < d.len() ==> d[j] == cands[j]);
        if !lex_lt(extracted(last), extracted(d[p])) {
            assert(i == cands.len() - 1);
            lemma_lex_irreflexive(extracted(last));
            assert forall|j: int| 0 <= j < cands.len() implies !lex_lt(
                extracted(cands[i]),
                extracted(#[trigger] cands[j]),
            ) by {
                if j < cands.len() - 1 && lex_lt(extracted(last), extracted(cands[j])) {
                    lemma_lex_trichotomy(extracted(last), extracted(d[p]));
                    if extracted(last) == extracted(d[p]) {
                        assert(lex_lt(extracted(d[p]), extracted(d[j])));
                    } else {
                        lemma_lex_transitive(
                            extracted(d[p]),
                            extracted(last),
                            extracted(cands[j]),
                        );
                    }
                }
            }
        } else {
            assert(i == p);
            lemma_lex_antisymmetric(extracted(last), extracted(d[p]));
        }
    }
}

/// A scan that finds nothing strictly newer than the running version plans
/// no process spawns.
pub proof fn lemma_no_newer_no_update(
    names: Seq<Seq<char>>,
    marker: Seq<char>,
    fmt: Option<Seq<char>>,
    rv: Version,
)
    requires
        forall|j: int|
            0 <= j < candidates(names, marker, fmt).len() ==> !lex_lt(
                key(rv),
                extracted(#[trigger] candidates(names, marker, fmt)[j]),
            ),
    ensures
        !update_due(candidates(names, marker, fmt), Some(rv)),
{
    let cands = candidates(names, marker, fmt);
    if cands.len() > 0 {
        lemma_max_cand_idx(cands);
    }
}

/// Idempotence of the cycle: once the running version is the scan's own
/// maximum, re-running the scan over the unchanged directory plans nothing.
pub proof fn lemma_rescan_idempotent(
    names: Seq<Seq<char>>,
    marker: Seq<char>,
    fmt: Option<Seq<char>>,
    rv: Version,
)
    requires
        candidates(names, marker, fmt).len() > 0,
        key(rv) == extracted(best_name(candidates(names, marker, fmt))),
    ensures
        !update_due(candidates(names, marker, fmt), Some(rv)),
{
    lemma_lex_irreflexive(key(rv));
}

/// Does `needle` occur in `hay` starting at position `i`?
fn match_at(hay: &str, needle: &str, i: usize) -> (r: bool)
    requires
        i + needle@.len() <= hay@.len(),
    ensures
        r == contains_at(hay@, needle@, i as int),
{
    let nh = hay.unicode_len();
    let nn = needle.unicode_len();
    let mut k: usize = 0;
    while k < nn
        invariant
            nn == needle@.len(),
            nh == hay@.len(),
            i + nn <= hay@.len(),
            k <= nn,
            forall|t: int| 0 <= t < k ==> hay@[i + t] == needle@[t],
        decreases nn - k,
    {
        if hay.get_char(i + k) != needle.get_char(k) {
            proof {
                assert(!contains_at(hay@, needle@, i as int)) by {
                    if contains_at(hay@, needle@, i as int) {
                        assert(hay@.subrange(i as int, i as int + nn as int)[k as int]
                            == needle@[k as int]);
                    }
                }
            }
            return false;
        }
        k = k + 1;
    }
    proof {
        assert(hay@.subrange(i as int, i as int + nn as int) =~= needle@);
    }
    true
}

/// Substring search: does `hay` contain `needle`?
pub fn contains_str(hay: &str, needle: &str) -> (r: bool)
    ensures
        r == contains_seq(hay@, needle@),
{
    let nh = hay.unicode_len();
    let nn = needle.unicode_len();
    if nn > nh {
        proof {
            assert(forall|i: int| !contains_at(hay@, needle@, i));
        }
        return false;
    }
    if nn == 0 {
        proof {
            assert(hay@.subrange(0, 0) =~= needle@);
            assert(contains_at(hay@, needle@, 0));
        }
        return true;
    }
    let mut i: usize = 0;
    while i <= nh - nn
        invariant
            1 <= nn <= nh,
            nh == hay@.len(),
            nn == needle@.len(),
            i <= nh - nn + 1,
            forall|t: int| 0 <= t < i ==> !contains_at(hay@, needle@, t),
        decreases nh - nn - i + 1,
    {
        if match_at(hay, needle, i) {
            return true;
        }
        i = i + 1;
    }
    proof {
        assert forall|t: int| !contains_at(hay@, needle@, t) by {
            if contains_at(hay@, needle@, t) {
                assert(0 <= t < i);
            }
        }
    }
    false
}

/// One scan's worth of deciding, from the raw directory listing to the two
/// process specifications. Entries carrying `marker` are parsed against the
/// naming pattern (entries that fail to parse, or are too short for the
/// pattern's literal text, are skipped); the newest qualifying version is
/// compared against `running` (none means: always proceed); when an update
/// is due, the removal and creation processes are assembled, the former
/// gated by `dry_run`. A malformed pattern is refused, as is a command
/// template without tokens.
pub fn plan_update(
    filenames: &Vec<String>,
    marker: &str,
    format: Option<&str>,
    running: Option<&Version>,
    bootnum: &str,
    template: &str,
    dry_run: bool,
) -> (r: Result<Option<UpdatePlan>, ParseError>)
    ensures
        plan_spec(
            filenames.deep_view(),
            marker@,
            format.deep_view(),
            running_of(running),
            bootnum@,
            template@,
            dry_run,
            r,
        ),
{
    let ghost names = filenames.deep_view();
    let ghost fmtv = format.deep_view();

    // Validate the pattern once; remember its prefix and suffix lengths.
    let mut pre: usize = 0;
    let mut suf: usize = 0;
    match format {
        None => {},
        Some(f) => {
            match find_placeholder(f) {
                None => {
                    return Err(ParseError::BadPattern);
                },
                Some(ix) => {
                    proof {
                        let i0 = placeholder_index(f@);
                        assert(single_placeholder_at(f@, i0));
                        assert(i0 == ix as int);
                    }
                    pre = ix;
                    suf = f.unicode_len() - ix - 2;
                },
            }
        },
    }

    // Scan: parse every qualifying entry.
    let mut vers: Vec<Version> = Vec::new();
    let mut i: usize = 0;
    proof {
        assert(names.subrange(0, 0) =~= Seq::<Seq<char>>::empty());
    }
    while i < filenames.len()
        invariant
            i <= filenames@.len(),
            names == filenames.deep_view(),
            fmtv == format.deep_view(),
            match format {
                None => fmtv is None,
                Some(f) => {
                    &&& fmtv == Some(f@)
                    &&& pattern_ok(f@)
                    &&& pre == placeholder_index(f@)
                    &&& pre + suf == f@.len() - 2
                },
            },
            vers@.len() == candidates(names.subrange(0, i as int), marker@, fmtv).len(),
            forall|j: int|
                0 <= j < vers@.len() ==> {
                    let cs = candidates(names.subrange(0, i as int), marker@, fmtv);
                    &&& key(#[trigger] vers@[j]) == extracted(cs[j])
                    &&& vers@[j].string@ == canonical_of(cs[j], fmtv)
                },
        decreases filenames@.len() - i,
    {
        let ghost pfx = names.subrange(0, i as int);
        let ghost cs = candidates(pfx, marker@, fmtv);
        proof {
            assert(names.subrange(0, i as int + 1).drop_last() =~= pfx);
            assert(names.subrange(0, i as int + 1).last() == names[i as int]);
            assert(names[i as int] == filenames@[i as int]@);
        }
        let name = &filenames[i];
        let marked = contains_str(name.as_str(), marker);
        let fits: bool = match format {
            None => true,
            Some(_) => {
                let nl = name.as_str().unicode_len();
                pre <= nl && suf <= nl - pre
            },
        };
        if marked && fits {
            match Version::new(name.clone(), format) {
                Ok(v) => {
                    proof {
                        let e = extracted(names[i as int]);
                        assert(qualifies(names[i as int], marker@, fmtv));
                        assert(key(v) =~= e);
                        let cs1 = candidates(names.subrange(0, i as int + 1), marker@, fmtv);
                        assert(cs1 == cs.push(names[i as int]));
                    }
                    vers.push(v);
                },
                Err(_) => {
                    proof {
                        assert(extracted(names[i as int]).len() < 3);
                        assert(!qualifies(names[i as int], marker@, fmtv));
                        assert(candidates(names.subrange(0, i as int + 1), marker@, fmtv) == cs);
                    }
                },
            }
        } else {
            proof {
                assert(!qualifies(names[i as int], marker@, fmtv));
                assert(candidates(names.subrange(0, i as int + 1), marker@, fmtv) == cs);
            }
        }
        i = i + 1;
    }
    proof {
        assert(names.subrange(0, filenames@.len() as int) =~= names);
    }

    let ghost cands = candidates(names, marker@, fmtv);
    let ghost versv = vers@;

    // Pick the newest candidate.
    let m = match max_version(vers) {
        None => {
            return Ok(None);
        },
        Some(m) => m,
    };
    proof {
        lemma_max_cand_idx(cands);
        let mk = max_cand_idx(cands);
        let istar = choose|i0: int|
            {
                &&& 0 <= i0 < versv.len()
                &&& m == versv[i0]
                &&& forall|j: int| 0 <= j < versv.len() ==> !version_lt(m, #[trigger] versv[j])
                &&& forall|j: int| i0 < j < versv.len() ==> version_lt(#[trigger] versv[j], m)
            };
        if istar < mk {
            assert(version_lt(versv[mk], m));
            assert(!lex_lt(extracted(cands[mk]), extracted(cands[istar])));
            assert(false);
        }
        if istar > mk {
            assert(lex_lt(extracted(cands[istar]), extracted(cands[mk])));
            assert(!version_lt(m, versv[mk]));
            assert(false);
        }
        assert(key(m) == extracted(best_name(cands)));
        assert(m.string@ == canonical_of(best_name(cands), fmtv));
    }

    // Compare against the running kernel, when one is known.
    match running {
        None => {},
        Some(rv) => {
            let c = m.compare(rv);
            if !(matches!(c, core::cmp::Ordering::Greater)) {
                return Ok(None);
            }
        },
    }

    // Assemble the two process specifications.
    let create = match build(template, m.string.as_str()) {
        Err(_) => {
            return Err(ParseError::EmptyCommand);
        },
        Ok(ps) => ps,
    };
    let mut rargs: Vec<String> = Vec::new();
    rargs.push("-b".to_owned());
    rargs.push(bootnum.to_owned());
    rargs.push("-B".to_owned());
    proof {
        assert(rargs.deep_view() =~= seq!["-b"@, bootnum@, "-B"@]);
    }
    let remove = ProcessSpec { program: "efibootmgr".to_owned(), args: rargs };
    Ok(Some(UpdatePlan { entry: BootEntrySpec { remove, create }, run_remove: !dry_run }))
}

/// The full contract of one scan: which error comes on which input, when no
/// action is planned, and the exact program names and argument vectors of a
/// planned update.
pub open spec fn plan_spec(
    names: Seq<Seq<char>>,
    marker: Seq<char>,
    fmt: Option<Seq<char>>,
    running: Option<Version>,
    bootnum: Seq<char>,
    template: Seq<char>,
    dry_run: bool,
    r: Result<Option<UpdatePlan>, ParseError>,
) -> bool {
    let cands = candidates(names, marker, fmt);
    let fmt_good = match fmt {
        None => true,
        Some(p) => pattern_ok(p),
    };
    let due = update_due(cands, running);
    match r {
        Err(ParseError::BadPattern) => !fmt_good,
        Err(ParseError::EmptyCommand) => fmt_good && due && template_tokens(template).len() == 0,
        Err(ParseError::InsufficientComponents) => false,
        Ok(None) => fmt_good && !due,
        Ok(Some(plan)) => {
            let v = canonical_of(best_name(cands), fmt);
            let toks = subst_all(template_tokens(template), v);
            &&& fmt_good
            &&& due
            &&& toks.len() > 0
            &&& plan.entry.create.program@ == toks[0]
            &&& plan.entry.create.args.deep_view() == toks.subrange(1, toks.len() as int)
            &&& plan.entry.remove.program@ == "efibootmgr"@
            &&& plan.entry.remove.args.deep_view() == seq!["-b"@, bootnum, "-B"@]
            &&& plan.run_remove == !dry_run
        },
    }
}

} // verus!
