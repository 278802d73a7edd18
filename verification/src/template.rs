//! Command templating: a user command string is split on single quotes into
//! alternating word-split and preserve-as-one-argument blocks, every token
//! has the `%v` placeholder replaced by the resolved version, and the first
//! token becomes the program, the remainder its arguments.

use vstd::prelude::*;

use crate::version::ParseError;

verus! {

/// ASCII whitespace, the token separators of unquoted blocks.
pub open spec fn is_space(c: char) -> bool {
    c == ' ' || c == '\t' || c == '\n' || c == '\r' || c == '\x0c'
}

/// The blocks of `s` between single-quote characters, in order; adjacent
/// quotes yield empty blocks, and there is always at least one block.
pub open spec fn quote_blocks(s: Seq<char>) -> Seq<Seq<char>>
    decreases s.len(),
{
    if s.len() == 0 {
        seq![Seq::<char>::empty()]
    } else if s.last() == '\'' {
        quote_blocks(s.drop_last()).push(Seq::<char>::empty())
    } else {
        let r = quote_blocks(s.drop_last());
        r.update(r.len() - 1, r.last().push(s.last()))
    }
}

pub proof fn lemma_quote_blocks_len(s: Seq<char>)
    ensures
        quote_blocks(s).len() >= 1,
    decreases s.len(),
{
    if s.len() > 0 {
        lemma_quote_blocks_len(s.drop_last());
    }
}

/// The whitespace-separated words of `s`: maximal runs of non-space
/// characters, in order.
pub open spec fn ws_tokens(s: Seq<char>) -> Seq<Seq<char>>
    decreases s.len(),
{
    if s.len() == 0 {
        Seq::<Seq<char>>::empty()
    } else {
        let r = ws_tokens(s.drop_last());
        if is_space(s.last()) {
            r
        } else if s.len() >= 2 && !is_space(s[s.len() - 2]) {
            r.update(r.len() - 1, r.last().push(s.last()))
        } else {
            r.push(seq![s.last()])
        }
    }
}

/// The tokens of a block sequence: blocks at even positions are word-split,
/// blocks at odd positions (inside quotes) are one token each, kept in order.
pub open spec fn blocks_tokens(blocks: Seq<Seq<char>>) -> Seq<Seq<char>>
    decreases blocks.len(),
{
    if blocks.len() == 0 {
        Seq::<Seq<char>>::empty()
    } else {
        let prev = blocks_tokens(blocks.drop_last());
        if (blocks.len() - 1) % 2 == 0 {
            prev + ws_tokens(blocks.last())
        } else {
            prev.push(blocks.last())
        }
    }
}

/// All tokens of a command template, before substitution.
pub open spec fn template_tokens(t: Seq<char>) -> Seq<Seq<char>> {
    blocks_tokens(quote_blocks(t))
}

/// `s` with every occurrence of the placeholder `%v` replaced by `v`,
/// scanning left to right.
pub open spec fn subst(s: Seq<char>, v: Seq<char>) -> Seq<char>
    decreases s.len(),
{
    if s.len() < 2 {
        s
    } else if s[0] == '%' && s[1] == 'v' {
        v + subst(s.skip(2), v)
    } else {
        seq![s[0]] + subst(s.skip(1), v)
    }
}

/// Substitution applied to every token.
pub open spec fn subst_all(ts: Seq<Seq<char>>, v: Seq<char>) -> Seq<Seq<char>>
    decreases ts.len(),
{
    if ts.len() == 0 {
        Seq::<Seq<char>>::empty()
    } else {
        subst_all(ts.drop_last(), v).push(subst(ts.last(), v))
    }
}

/// A process to spawn: a program name and its argument vector.
#[derive(Debug, PartialEq)]
pub struct ProcessSpec {
    pub program: String,
    pub args: Vec<String>,
}

/// The contract of `build`: on a template with at least one token, the
/// program is the first substituted token and the arguments are the
/// remaining ones in order; a template without tokens is refused.
pub open spec fn build_spec(t: Seq<char>, v: Seq<char>, r: Result<ProcessSpec, ParseError>) -> bool {
    let toks = subst_all(template_tokens(t), v);
    match r {
        Ok(ps) => {
            &&& toks.len() > 0
            &&& ps.program@ == toks[0]
            &&& ps.args.deep_view() == toks.subrange(1, toks.len() as int)
        },
        Err(ParseError::EmptyCommand) => toks.len() == 0,
        Err(_) => false,
    }
}

/// Splits a template on single quotes, keeping empty blocks.
fn split_quotes(s: &str) -> (r: Vec<String>)
    ensures
        r.deep_view() == quote_blocks(s@),
        r.len() >= 1,
{
    let n = s.unicode_len();
    let mut blocks: Vec<String> = Vec::new();
    let mut cur: String = String::new();
    let mut i: usize = 0;
    proof {
        assert(s@.subrange(0, 0) =~= Seq::<char>::empty());
        assert(blocks.deep_view().push(cur@) =~= quote_blocks(s@.subrange(0, 0)));
    }
    while i < n
        invariant
            i <= n,
            n == s@.len(),
            blocks.deep_view().push(cur@) == quote_blocks(s@.subrange(0, i as int)),
        decreases n - i,
    {
        let ghost pfx = s@.subrange(0, i as int);
        proof {
            assert(s@.subrange(0, i as int + 1).drop_last() =~= pfx);
            assert(s@.subrange(0, i as int + 1).last() == s@[i as int]);
        }
        let c = s.get_char(i);
        if c == '\'' {
            blocks.push(cur);
            cur = String::new();
            proof {
                assert(blocks.deep_view().push(cur@) =~= quote_blocks(pfx).push(
                    Seq::<char>::empty(),
                ));
            }
        } else {
            let piece = s.substring_char(i, i + 1);
            let ghost cur0 = cur@;
            proof {
                assert(piece@ =~= seq![s@[i as int]]);
            }
            cur.append(piece);
            proof {
                let qb = quote_blocks(pfx);
                assert(cur@ =~= cur0.push(s@[i as int]));
                assert(blocks.deep_view().push(cur@) =~= qb.update(qb.len() - 1, qb.last().push(
                    s@[i as int],
                )));
            }
        }
        i = i + 1;
    }
    proof {
        assert(s@.subrange(0, n as int) =~= s@);
    }
    blocks.push(cur);
    proof {
        lemma_quote_blocks_len(s@);
        assert(blocks.deep_view() =~= quote_blocks(s@));
    }
    blocks
}

/// Splits an unquoted block into whitespace-separated words.
fn ws_split(b: &str) -> (r: Vec<String>)
    ensures
        r.deep_view() == ws_tokens(b@),
{
    let n = b.unicode_len();
    let mut toks: Vec<String> = Vec::new();
    let mut cur: String = String::new();
    let mut i: usize = 0;
    proof {
        assert(b@.subrange(0, 0) =~= Seq::<char>::empty());
    }
    while i < n
        invariant
            i <= n,
            n == b@.len(),
            cur@.len() > 0 ==> i > 0 && !is_space(b@[i as int - 1]),
            cur@.len() == 0 ==> (i == 0 || is_space(b@[i as int - 1])),
            cur@.len() == 0 ==> toks.deep_view() == ws_tokens(b@.subrange(0, i as int)),
            cur@.len() > 0 ==> toks.deep_view().push(cur@) == ws_tokens(
                b@.subrange(0, i as int),
            ),
        decreases n - i,
    {
        let ghost pfx = b@.subrange(0, i as int);
        let ghost pfx1 = b@.subrange(0, i as int + 1);
        proof {
            assert(pfx1.drop_last() =~= pfx);
            assert(pfx1.last() == b@[i as int]);
            if i > 0 {
                assert(pfx1[i as int - 1] == b@[i as int - 1]);
            }
        }
        let c = b.get_char(i);
        let sp = c == ' ' || c == '\t' || c == '\n' || c == '\r' || c == '\x0c';
        if sp {
            if cur.unicode_len() > 0 {
                toks.push(cur);
                cur = String::new();
            }
            proof {
                assert(ws_tokens(pfx1) == ws_tokens(pfx));
            }
        } else {
            if cur.unicode_len() == 0 {
                proof {
                    assert(ws_tokens(pfx1) == ws_tokens(pfx).push(seq![b@[i as int]]));
                }
            } else {
                proof {
                    let r = ws_tokens(pfx);
                    assert(r == toks.deep_view().push(cur@));
                    assert(ws_tokens(pfx1) == r.update(r.len() - 1, r.last().push(b@[i as int])));
                    assert(r.update(r.len() - 1, r.last().push(b@[i as int])) =~= toks.deep_view()
                        .push(cur@.push(b@[i as int])));
                }
            }
            let piece = b.substring_char(i, i + 1);
            let ghost cur0 = cur@;
            proof {
                assert(piece@ =~= seq![b@[i as int]]);
            }
            cur.append(piece);
            proof {
                assert(cur@ =~= cur0.push(b@[i as int]));
            }
        }
        i = i + 1;
    }
    proof {
        assert(b@.subrange(0, n as int) =~= b@);
    }
    if cur.unicode_len() > 0 {
        toks.push(cur);
    }
    toks
}

/// Tokenizes a whole template: word-split outside quotes, one token per
/// quoted block.
fn tokenize(t: &str) -> (r: Vec<String>)
    ensures
        r.deep_view() == template_tokens(t@),
{
    let blocks = split_quotes(t);
    let mut toks: Vec<String> = Vec::new();
    let mut bi: usize = 0;
    proof {
        assert(blocks.deep_view().subrange(0, 0) =~= Seq::<Seq<char>>::empty());
    }
    while bi < blocks.len()
        invariant
            bi <= blocks.len(),
            blocks.deep_view() == quote_blocks(t@),
            toks.deep_view() == blocks_tokens(blocks.deep_view().subrange(0, bi as int)),
        decreases blocks.len() - bi,
    {
        let ghost bd = blocks.deep_view();
        proof {
            assert(bd.subrange(0, bi as int + 1).drop_last() =~= bd.subrange(0, bi as int));
            assert(bd.subrange(0, bi as int + 1).last() == bd[bi as int]);
        }
        if bi % 2 == 0 {
            let mut ws = ws_split(blocks[bi].as_str());
            let ghost wsd = ws.deep_view();
            toks.append(&mut ws);
            proof {
                assert(toks.deep_view() =~= blocks_tokens(bd.subrange(0, bi as int)) + wsd);
            }
        } else {
            toks.push(blocks[bi].clone());
            proof {
                assert(toks.deep_view() =~= blocks_tokens(bd.subrange(0, bi as int)).push(
                    bd[bi as int],
                ));
            }
        }
        bi = bi + 1;
    }
    proof {
        assert(blocks.deep_view().subrange(0, blocks@.len() as int) =~= blocks.deep_view());
    }
    toks
}

/// Replaces every `%v` in `s` by `v`.
fn subst_str(s: &str, v: &str) -> (r: String)
    ensures
        r@ == subst(s@, v@),
{
    let n = s.unicode_len();
    let mut out: String = String::new();
    let mut i: usize = 0;
    proof {
        assert(s@.skip(0) =~= s@);
        assert(out@ + subst(s@, v@) =~= subst(s@, v@));
    }
    while i < n
        invariant
            i <= n,
            n == s@.len(),
            subst(s@, v@) == out@ + subst(s@.skip(i as int), v@),
        decreases n - i,
    {
        let ghost tail = s@.skip(i as int);
        proof {
            assert(tail[0] == s@[i as int]);
            if i + 1 < n {
                assert(tail[1] == s@[i as int + 1]);
            }
        }
        let ghost out0 = out@;
        if i + 1 < n && s.get_char(i) == '%' && s.get_char(i + 1) == 'v' {
            out.append(v);
            proof {
                assert(tail.skip(2) =~= s@.skip(i as int + 2));
                assert(subst(tail, v@) == v@ + subst(s@.skip(i as int + 2), v@));
                assert(out0 + (v@ + subst(s@.skip(i as int + 2), v@)) =~= out@ + subst(
                    s@.skip(i as int + 2),
                    v@,
                ));
            }
            i = i + 2;
        } else {
            let piece = s.substring_char(i, i + 1);
            proof {
                assert(piece@ =~= seq![s@[i as int]]);
            }
            out.append(piece);
            proof {
                assert(tail.skip(1) =~= s@.skip(i as int + 1));
                if tail.len() >= 2 {
                    assert(subst(tail, v@) == seq![s@[i as int]] + subst(
                        s@.skip(i as int + 1),
                        v@,
                    ));
                } else {
                    assert(subst(s@.skip(i as int + 1), v@) == Seq::<char>::empty());
                    assert(tail =~= seq![s@[i as int]] + Seq::<char>::empty());
                }
                assert(out0 + (seq![s@[i as int]] + subst(s@.skip(i as int + 1), v@)) =~= out@
                    + subst(s@.skip(i as int + 1), v@));
            }
            i = i + 1;
        }
    }
    proof {
        assert(subst(s@.skip(n as int), v@) == Seq::<char>::empty());
        assert(out@ + Seq::<char>::empty() =~= out@);
    }
    out
}

/// Builds the process specification for the boot-entry creation command:
/// tokenizes `template` and substitutes `version` for every `%v`. The first
/// token names the program; a token-less template is an `EmptyCommand`
/// error.
pub fn build(template: &str, version: &str) -> (r: Result<ProcessSpec, ParseError>)
    ensures
        build_spec(template@, version@, r),
{
    let toks = tokenize(template);
    if toks.len() == 0 {
        return Err(ParseError::EmptyCommand);
    }
    let mut out: Vec<String> = Vec::new();
    let mut i: usize = 0;
    proof {
        assert(toks.deep_view().subrange(0, 0) =~= Seq::<Seq<char>>::empty());
    }
    while i < toks.len()
        invariant
            i <= toks.len(),
            toks.deep_view() == template_tokens(template@),
            toks@.len() > 0,
            out@.len() == i,
            out.deep_view() == subst_all(toks.deep_view().subrange(0, i as int), version@),
        decreases toks.len() - i,
    {
        let ghost td = toks.deep_view();
        proof {
            assert(td.subrange(0, i as int + 1).drop_last() =~= td.subrange(0, i as int));
            assert(td.subrange(0, i as int + 1).last() == td[i as int]);
        }
        let piece = subst_str(toks[i].as_str(), version);
        out.push(piece);
        proof {
            assert(out.deep_view() =~= subst_all(td.subrange(0, i as int), version@).push(subst(
                td[i as int],
                version@,
            )));
        }
        i = i + 1;
    }
    proof {
        assert(toks.deep_view().subrange(0, toks@.len() as int) =~= toks.deep_view());
    }
    let mut rest = out;
    let program = rest.remove(0);
    proof {
        let toks2 = subst_all(template_tokens(template@), version@);
        assert(rest.deep_view() =~= toks2.subrange(1, toks2.len() as int));
    }
    Ok(ProcessSpec { program, args: rest })
}

} // verus!
