//! Version extraction: splitting a raw filename or version string on the
//! delimiters `.`, `-` and `_`, reading every segment that is a decimal
//! number, and assembling the first three numbers plus any remainder into a
//! `Version` together with its canonical version substring.

use vstd::prelude::*;

use crate::pattern::{
    canonical_of, find_placeholder, pattern_ok, placeholder_index, prefix_len,
    single_placeholder_at, suffix_len,
};

verus! {

/// Why a version string or command template was rejected.
#[derive(Clone, Copy, Debug, PartialEq, Eq, Structural)]
pub enum ParseError {
    /// Fewer than three numeric groups were found in the input.
    InsufficientComponents,
    /// The format pattern does not contain exactly one `%v` placeholder.
    BadPattern,
    /// The command template contains no tokens at all.
    EmptyCommand,
}

/// A parsed version: the first three numeric groups, any further groups in
/// order, and the substring of the original input that stands for just the
/// version (used later for substitution into command templates).
#[derive(Debug, PartialEq)]
pub struct Version {
    pub major: u32,
    pub minor: u32,
    pub patch: u32,
    pub rest: Vec<u32>,
    pub string: String,
}

/// A version-bearing input: either a bare version string, or a filename
/// together with the naming format the distribution follows.
#[allow(non_camel_case_types)]
pub enum VersionInfo {
    num(String),
    filename(String, String),
}

/// The characters that separate numeric groups.
pub open spec fn is_delim(c: char) -> bool {
    c == '.' || c == '-' || c == '_'
}

/// The segments of `s` between delimiters, in order; adjacent delimiters
/// yield empty segments, and there is always at least one segment.
pub open spec fn delim_blocks(s: Seq<char>) -> Seq<Seq<char>>
    decreases s.len(),
{
    if s.len() == 0 {
        seq![Seq::<char>::empty()]
    } else if is_delim(s.last()) {
        delim_blocks(s.drop_last()).push(Seq::<char>::empty())
    } else {
        let r = delim_blocks(s.drop_last());
        r.update(r.len() - 1, r.last().push(s.last()))
    }
}

pub proof fn lemma_delim_blocks_len(s: Seq<char>)
    ensures
        delim_blocks(s).len() >= 1,
    decreases s.len(),
{
    if s.len() > 0 {
        lemma_delim_blocks_len(s.drop_last());
    }
}

/// An ASCII decimal digit.
pub open spec fn is_digit(c: char) -> bool {
    '0' as u32 <= c as u32 && c as u32 <= '9' as u32
}

pub open spec fn all_digits(s: Seq<char>) -> bool {
    forall|k: int| 0 <= k < s.len() ==> is_digit(#[trigger] s[k])
}

pub open spec fn digit_val(c: char) -> int {
    c as u32 - '0' as u32
}

/// The value of a string of decimal digits.
pub open spec fn digits_val(s: Seq<char>) -> int
    decreases s.len(),
{
    if s.len() == 0 {
        0
    } else {
        digits_val(s.drop_last()) * 10 + digit_val(s.last())
    }
}

/// What a segment contributes: its value, when it is a non-empty string of
/// digits whose value fits in a `u32`; nothing otherwise.
pub open spec fn segment_num(s: Seq<char>) -> Option<u32> {
    if s.len() > 0 && all_digits(s) && digits_val(s) <= u32::MAX {
        Some(digits_val(s) as u32)
    } else {
        None
    }
}

/// The numbers contributed by a sequence of segments, in order.
pub open spec fn nums_of(blocks: Seq<Seq<char>>) -> Seq<u32>
    decreases blocks.len(),
{
    if blocks.len() == 0 {
        Seq::<u32>::empty()
    } else {
        nums_of(blocks.drop_last()) + match segment_num(blocks.last()) {
            Some(n) => seq![n],
            None => Seq::<u32>::empty(),
        }
    }
}

/// All numbers extractable from `s`: split on delimiters, keep the segments
/// that read as decimal `u32` values, in their original order.
pub open spec fn extracted(s: Seq<char>) -> Seq<u32> {
    nums_of(delim_blocks(s))
}

/// Parsing succeeds exactly when the pattern (if any) is well formed and at
/// least three numbers can be extracted.
pub open spec fn parse_ok(raw: Seq<char>, fmt: Option<Seq<char>>) -> bool {
    &&& match fmt {
        None => true,
        Some(p) => pattern_ok(p),
    }
    &&& extracted(raw).len() >= 3
}

/// The input is long enough for a well-formed pattern's literal prefix and
/// suffix to be cut off; parsing is only defined on such inputs.
pub open spec fn parse_fits(raw: Seq<char>, fmt: Option<Seq<char>>) -> bool {
    match fmt {
        None => true,
        Some(p) => pattern_ok(p) ==> prefix_len(p) + suffix_len(p) <= raw.len(),
    }
}

/// The full contract of parsing `raw` against an optional pattern.
pub open spec fn parse_spec(
    raw: Seq<char>,
    fmt: Option<Seq<char>>,
    r: Result<Version, ParseError>,
) -> bool {
    match r {
        Ok(v) => {
            &&& parse_ok(raw, fmt)
            &&& v.major == extracted(raw)[0]
            &&& v.minor == extracted(raw)[1]
            &&& v.patch == extracted(raw)[2]
            &&& v.rest@ == extracted(raw).subrange(3, extracted(raw).len() as int)
            &&& v.string@ == canonical_of(raw, fmt)
        },
        Err(ParseError::BadPattern) => match fmt {
            None => false,
            Some(p) => !pattern_ok(p),
        },
        Err(ParseError::InsufficientComponents) => {
            &&& match fmt {
                None => true,
                Some(p) => pattern_ok(p),
            }
            &&& extracted(raw).len() < 3
        },
        Err(ParseError::EmptyCommand) => false,
    }
}

impl Version {
    /// Parses a version out of `version_str`. The string is split on `.`,
    /// `-` and `_`; segments that are not plain decimal numbers are
    /// discarded; the first three surviving numbers become major, minor and
    /// patch, the remainder `rest`. With a format given, the canonical
    /// version substring is cut out of `version_str` by the character
    /// lengths of the format's literal prefix and suffix; without one it is
    /// `version_str` itself.
    pub fn new(version_str: String, format: Option<&str>) -> (r: Result<Version, ParseError>)
        requires
            parse_fits(version_str@, format.deep_view()),
        ensures
            parse_spec(version_str@, format.deep_view(), r),
    {
        let ghost raw: Seq<char> = version_str@;
        let s = version_str.as_str();
        let n = s.unicode_len();

        let mut nums: Vec<u32> = Vec::new();
        let mut seg_any: bool = false;
        let mut seg_digits: bool = true;
        let mut seg_big: bool = false;
        let mut seg_val: u64 = 0;
        let ghost mut cur: Seq<char> = Seq::<char>::empty();
        let mut i: usize = 0;

        proof {
            assert(raw.subrange(0, 0) =~= Seq::<char>::empty());
        }
        while i < n
            invariant
                i <= n,
                n == raw.len(),
                s@ == raw,
                delim_blocks(raw.subrange(0, i as int)).last() == cur,
                nums@ == nums_of(delim_blocks(raw.subrange(0, i as int)).drop_last()),
                seg_any == (cur.len() > 0),
                seg_digits == all_digits(cur),
                seg_digits && !seg_big ==> seg_val == digits_val(cur) && digits_val(cur)
                    <= u32::MAX,
                seg_big ==> digits_val(cur) > u32::MAX,
            decreases n - i,
        {
            let ghost pfx = raw.subrange(0, i as int);
            let ghost db = delim_blocks(pfx);
            proof {
                lemma_delim_blocks_len(pfx);
                assert(raw.subrange(0, i as int + 1).drop_last() =~= pfx);
                assert(raw.subrange(0, i as int + 1).last() == raw[i as int]);
            }
            let c = s.get_char(i);
            if c == '.' || c == '-' || c == '_' {
                if seg_any && seg_digits && !seg_big {
                    nums.push(seg_val as u32);
                    proof {
                        assert(segment_num(cur) == Some(seg_val as u32));
                        assert(nums@ =~= nums_of(db.drop_last()) + seq![seg_val as u32]);
                    }
                } else {
                    proof {
                        assert(segment_num(cur) is None);
                        assert(nums@ =~= nums_of(db.drop_last()) + Seq::<u32>::empty());
                    }
                }
                proof {
                    assert(delim_blocks(raw.subrange(0, i as int + 1)) == db.push(
                        Seq::<char>::empty(),
                    ));
                    assert(db.push(Seq::<char>::empty()).drop_last() =~= db);
                    cur = Seq::<char>::empty();
                }
                seg_any = false;
                seg_digits = true;
                seg_big = false;
                seg_val = 0;
            } else {
                proof {
                    let db2 = db.update(db.len() - 1, db.last().push(c));
                    assert(delim_blocks(raw.subrange(0, i as int + 1)) == db2);
                    assert(db2.drop_last() =~= db.drop_last());
                    assert(db2.last() == cur.push(c));
                    assert(cur.push(c).drop_last() =~= cur);
                    assert(cur.push(c).last() == c);
                }
                let cu = c as u32;
                if seg_digits && '0' as u32 <= cu && cu <= '9' as u32 {
                    if !seg_big {
                        let d = cu - '0' as u32;
                        seg_val = seg_val * 10 + d as u64;
                        if seg_val > u32::MAX as u64 {
                            seg_big = true;
                        }
                    }
                } else {
                    seg_digits = false;
                }
                seg_any = true;
                proof {
                    cur = cur.push(c);
                }
            }
            i = i + 1;
        }

        proof {
            assert(raw.subrange(0, n as int) =~= raw);
            lemma_delim_blocks_len(raw);
        }
        let ghost db = delim_blocks(raw);
        if seg_any && seg_digits && !seg_big {
            nums.push(seg_val as u32);
            proof {
                assert(segment_num(cur) == Some(seg_val as u32));
                assert(nums@ =~= nums_of(db.drop_last()) + seq![seg_val as u32]);
            }
        } else {
            proof {
                assert(segment_num(cur) is None);
                assert(nums@ =~= nums_of(db.drop_last()) + Seq::<u32>::empty());
            }
        }
        assert(nums@ == extracted(raw));

        let string: String = match format {
            None => version_str,
            Some(f) => {
                match find_placeholder(f) {
                    None => {
                        return Err(ParseError::BadPattern);
                    },
                    Some(ix) => {
                        proof {
                            let i0 = placeholder_index(f@);
                            assert(single_placeholder_at(f@, i0));
                            assert(i0 == ix as int);
                        }
                        let suf = f.unicode_len() - ix - 2;
                        let end = n - suf;
                        let piece = s.substring_char(ix, end);
                        piece.to_owned()
                    },
                }
            },
        };

        if nums.len() < 3 {
            return Err(ParseError::InsufficientComponents);
        }
        let rest = nums.split_off(3);
        proof {
            assert(rest@ =~= extracted(raw).subrange(3, extracted(raw).len() as int));
        }
        Ok(Version {
            major: nums[0],
            minor: nums[1],
            patch: nums[2],
            rest,
            string,
        })
    }
}

/// What a `VersionInfo` offers as raw input text.
pub open spec fn raw_of(info: VersionInfo) -> Seq<char> {
    match info {
        VersionInfo::num(s) => s@,
        VersionInfo::filename(s, _) => s@,
    }
}

/// What a `VersionInfo` offers as format pattern.
pub open spec fn fmt_of(info: VersionInfo) -> Option<Seq<char>> {
    match info {
        VersionInfo::num(_) => None,
        VersionInfo::filename(_, f) => Some(f@),
    }
}

impl VersionInfo {
    /// Parses the version this input describes.
    pub fn parse(self) -> (r: Result<Version, ParseError>)
        requires
            parse_fits(raw_of(self), fmt_of(self)),
        ensures
            parse_spec(raw_of(self), fmt_of(self), r),
    {
        match self {
            VersionInfo::num(s) => Version::new(s, None),
            VersionInfo::filename(s, f) => Version::new(s, Some(f.as_str())),
        }
    }
}

} // verus!
