//! Layered variable resolution: the process environment, then each document
//! in order, then literal `KEY=VALUE` override tokens, later layers winning.
//! Also the splitting of a run command line into overrides, the program and
//! its arguments.

use vstd::prelude::*;

verus! {

use vstd::string::StrSliceExecFns;
use vstd::string::StringExecFns;
use crate::text::str_eq;
use crate::text::find_char;
use crate::text::find_in_str;
use crate::text::lemma_find_char;
use crate::envfile::EnvFile;
use crate::envfile::Pair;
use crate::envfile::PairV;
use crate::envfile::spec_pairs;

/// A `KEY=VALUE` token split on its first `=`; a token holding no `=`
/// becomes a pair with that key and an empty value.
pub open spec fn spec_pair_of_token(t: Seq<char>) -> PairV {
    let e = find_char(t, '=');
    if e == t.len() {
        PairV { key: t, value: Seq::empty() }
    } else {
        PairV { key: t.take(e), value: t.skip(e + 1) }
    }
}

/// Split one `KEY=VALUE` token into a pair.
pub fn pair_of_token(token: &str) -> (r: Pair)
    ensures
        r@ == spec_pair_of_token(token@),
{
    let n: usize = token.unicode_len();
    let e = find_in_str(token, '=');
    proof {
        lemma_find_char(token@, '=');
    }
    if e == n {
        Pair { key: String::from_str(token), value: String::new() }
    } else {
        let key = token.substring_char(0, e);
        let value = token.substring_char(e + 1, n);
        proof {
            assert(key@ =~= token@.take(e as int));
            assert(value@ =~= token@.skip(e as int + 1));
        }
        Pair { key: String::from_str(key), value: String::from_str(value) }
    }
}

/// Split every token into a pair, in order.
pub fn resolve_pairs(tokens: &Vec<String>) -> (r: Vec<Pair>)
    ensures
        r.deep_view() == tokens.deep_view().map_values(|t: Seq<char>| spec_pair_of_token(t)),
{
    let n: usize = tokens.len();
    let mut out: Vec<Pair> = Vec::new();
    let mut i: usize = 0;
    while i < n
        invariant
            0 <= i <= n,
            n == tokens.len(),
            out.deep_view() == tokens.deep_view().take(i as int).map_values(
                |t: Seq<char>| spec_pair_of_token(t),
            ),
        decreases n - i,
    {
        let ghost pre = out.deep_view();
        let p = pair_of_token(tokens[i].as_str());
        let ghost pv = p@;
        out.push(p);
        proof {
            assert(out.deep_view() =~= pre.push(pv));
            assert(out.deep_view() =~= tokens.deep_view().take(i as int + 1).map_values(
                |t: Seq<char>| spec_pair_of_token(t),
            ));
        }
        i = i + 1;
    }
    proof {
        assert(tokens.deep_view().take(n as int) =~= tokens.deep_view());
    }
    out
}

/// An association list whose keys are pairwise distinct.
pub open spec fn distinct_keys(s: Seq<PairV>) -> bool {
    forall|i: int, j: int|
        0 <= i < j < s.len() ==> (#[trigger] s[i]).key != (#[trigger] s[j]).key
}

/// The variable map an association list denotes.
pub open spec fn map_of_pairs(s: Seq<PairV>) -> Map<Seq<char>, Seq<char>>
    decreases s.len(),
{
    if s.len() == 0 {
        Map::empty()
    } else {
        map_of_pairs(s.drop_last()).insert(s.last().key, s.last().value)
    }
}

/// A key is in the map exactly when some pair holds it, with that pair's
/// value (meaningful under distinct keys, where the pair is unique).
pub proof fn lemma_map_of_pairs_membership(s: Seq<PairV>, k: Seq<char>)
    ensures
        map_of_pairs(s).dom().contains(k) <==> exists|i: int|
            0 <= i < s.len() && (#[trigger] s[i]).key == k,
        distinct_keys(s) ==> forall|i: int|
            0 <= i < s.len() && (#[trigger] s[i]).key == k ==> map_of_pairs(s)[k] == s[i].value,
    decreases s.len(),
{
    if s.len() == 0 {
    } else {
        lemma_map_of_pairs_membership(s.drop_last(), k);
        let last: int = s.len() - 1;
        if map_of_pairs(s).dom().contains(k) {
            if s.last().key == k {
                assert((s[last]).key == k);
            } else {
                let w = choose|i: int|
                    0 <= i < s.drop_last().len() && (#[trigger] s.drop_last()[i]).key == k;
                assert((s[w]).key == k);
            }
        }
        if exists|i: int| 0 <= i < s.len() && (#[trigger] s[i]).key == k {
            let w = choose|i: int| 0 <= i < s.len() && (#[trigger] s[i]).key == k;
            if w < last {
                assert((s.drop_last()[w]).key == k);
            }
            assert(map_of_pairs(s).dom().contains(k));
        }
        if distinct_keys(s) {
            assert(distinct_keys(s.drop_last())) by {
                assert forall|i: int, j: int|
                    0 <= i < j < s.drop_last().len() implies (#[trigger] s.drop_last()[i]).key != (
                #[trigger] s.drop_last()[j]).key by {
                    assert(s[i] == s.drop_last()[i]);
                    assert(s[j] == s.drop_last()[j]);
                }
            }
            assert forall|i: int|
                0 <= i < s.len() && (#[trigger] s[i]).key == k implies map_of_pairs(s)[k]
                == s[i].value by {
                if i == last {
                } else {
                    assert(s[last].key != s[i].key);
                    assert(s.drop_last()[i] == s[i]);
                }
            }
        }
    }
}

/// Overwriting the value of the pair that holds a key updates the map at
/// that key alone.
pub proof fn lemma_map_of_pairs_update(s: Seq<PairV>, i: int, v: Seq<char>)
    requires
        distinct_keys(s),
        0 <= i < s.len(),
    ensures
        map_of_pairs(s.update(i, PairV { key: s[i].key, value: v })) == map_of_pairs(s).insert(
            s[i].key,
            v,
        ),
    decreases s.len(),
{
    let p = PairV { key: s[i].key, value: v };
    let su = s.update(i, p);
    let last: int = s.len() - 1;
    if i == last {
        assert(su.drop_last() =~= s.drop_last());
        assert(su.last() == p);
        assert(map_of_pairs(s).insert(s[i].key, v) =~= map_of_pairs(s.drop_last()).insert(
            s.last().key,
            s.last().value,
        ).insert(s[i].key, v));
        assert(map_of_pairs(su) =~= map_of_pairs(s.drop_last()).insert(p.key, p.value));
        assert(map_of_pairs(s.drop_last()).insert(s.last().key, s.last().value).insert(
            s[i].key,
            v,
        ) =~= map_of_pairs(s.drop_last()).insert(p.key, p.value));
    } else {
        assert(distinct_keys(s.drop_last())) by {
            assert forall|a: int, b: int|
                0 <= a < b < s.drop_last().len() implies (#[trigger] s.drop_last()[a]).key != (
            #[trigger] s.drop_last()[b]).key by {
                assert(s[a] == s.drop_last()[a]);
                assert(s[b] == s.drop_last()[b]);
            }
        }
        assert(s.drop_last()[i] == s[i]);
        lemma_map_of_pairs_update(s.drop_last(), i, v);
        assert(su.drop_last() =~= s.drop_last().update(i, p));
        assert(su.last() == s.last());
        assert(s[i].key != s.last().key);
        assert(map_of_pairs(su) == map_of_pairs(s.drop_last().update(i, p)).insert(
            s.last().key,
            s.last().value,
        ));
        assert(map_of_pairs(s.drop_last()).insert(s[i].key, v).insert(
            s.last().key,
            s.last().value,
        ) =~= map_of_pairs(s.drop_last()).insert(s.last().key, s.last().value).insert(
            s[i].key,
            v,
        ));
    }
}

/// Set or overwrite one variable, keeping keys distinct.
pub fn set_var(vars: &mut Vec<Pair>, key: &str, value: &str)
    requires
        distinct_keys(old(vars).deep_view()),
    ensures
        distinct_keys(final(vars).deep_view()),
        map_of_pairs(final(vars).deep_view()) == map_of_pairs(old(vars).deep_view()).insert(
            key@,
            value@,
        ),
{
    let n: usize = vars.len();
    let mut i: usize = 0;
    while i < n
        invariant
            0 <= i <= n,
            n == vars.len(),
            vars == old(vars),
            vars.deep_view().len() == n,
            distinct_keys(vars.deep_view()),
            forall|j: int| 0 <= j < i ==> (#[trigger] vars.deep_view()[j]).key != key@,
        decreases n - i,
    {
        let is_match: bool = match &vars[i] {
            Pair { key: k, value: _ } => str_eq(k.as_str(), key),
        };
        if is_match {
            let ghost pre = vars.deep_view();
            proof {
                assert(pre[i as int].key == key@);
            }
            vars[i] = Pair { key: String::from_str(key), value: String::from_str(value) };
            proof {
                assert(vars.deep_view() =~= pre.update(
                    i as int,
                    PairV { key: pre[i as int].key, value: value@ },
                ));
                lemma_map_of_pairs_update(pre, i as int, value@);
                assert forall|a: int, b: int|
                    0 <= a < b < vars.deep_view().len() implies (
                #[trigger] vars.deep_view()[a]).key != (#[trigger] vars.deep_view()[b]).key by {
                    assert(pre[a].key == vars.deep_view()[a].key);
                    assert(pre[b].key == vars.deep_view()[b].key);
                }
            }
            return ;
        }
        i = i + 1;
    }
    let ghost pre = vars.deep_view();
    vars.push(Pair { key: String::from_str(key), value: String::from_str(value) });
    proof {
        assert(vars.deep_view() =~= pre.push(PairV { key: key@, value: value@ }));
        assert(vars.deep_view().drop_last() =~= pre);
        assert forall|a: int, b: int|
            0 <= a < b < vars.deep_view().len() implies (#[trigger] vars.deep_view()[a]).key != (
        #[trigger] vars.deep_view()[b]).key by {
            if b < pre.len() {
                assert(pre[a].key == vars.deep_view()[a].key);
                assert(pre[b].key == vars.deep_view()[b].key);
            } else {
                assert(vars.deep_view()[b].key == key@);
                assert(pre[a].key == vars.deep_view()[a].key);
            }
        }
    }
}

/// The value a variable set holds for a key, if any.
pub fn get_var(vars: &Vec<Pair>, key: &str) -> (r: Option<String>)
    requires
        distinct_keys(vars.deep_view()),
    ensures
        match r {
            Some(v) => map_of_pairs(vars.deep_view()).dom().contains(key@) && map_of_pairs(
                vars.deep_view(),
            )[key@] == v@,
            None => !map_of_pairs(vars.deep_view()).dom().contains(key@),
        },
{
    let n: usize = vars.len();
    let mut i: usize = 0;
    while i < n
        invariant
            0 <= i <= n,
            n == vars.len(),
            vars.deep_view().len() == n,
            distinct_keys(vars.deep_view()),
            forall|j: int| 0 <= j < i ==> (#[trigger] vars.deep_view()[j]).key != key@,
        decreases n - i,
    {
        if str_eq(vars[i].key.as_str(), key) {
            proof {
                lemma_map_of_pairs_membership(vars.deep_view(), key@);
                assert((vars.deep_view()[i as int]).key == key@);
            }
            return Some(vars[i].value.clone());
        }
        i = i + 1;
    }
    proof {
        lemma_map_of_pairs_membership(vars.deep_view(), key@);
    }
    None
}

/// A pair list layered onto the map: each pair, in order, overwrites its key.
pub open spec fn spec_apply_pairs(
    m: Map<Seq<char>, Seq<char>>,
    ps: Seq<PairV>,
) -> Map<Seq<char>, Seq<char>>
    decreases ps.len(),
{
    if ps.len() == 0 {
        m
    } else {
        spec_apply_pairs(m, ps.drop_last()).insert(ps.last().key, ps.last().value)
    }
}

/// Documents layered onto the map in order: every pair line of every
/// document overwrites its key, later documents overriding earlier ones.
pub open spec fn spec_apply_docs(
    m: Map<Seq<char>, Seq<char>>,
    docs: Seq<EnvFile>,
) -> Map<Seq<char>, Seq<char>>
    decreases docs.len(),
{
    if docs.len() == 0 {
        m
    } else {
        spec_apply_pairs(spec_apply_docs(m, docs.drop_last()), spec_pairs(docs.last()@))
    }
}

/// The fully resolved variable map: the base set (the process environment),
/// then each document in order, then the literal overrides, which win.
pub open spec fn spec_resolve(
    base: Map<Seq<char>, Seq<char>>,
    docs: Seq<EnvFile>,
    overrides: Seq<PairV>,
) -> Map<Seq<char>, Seq<char>> {
    spec_apply_pairs(spec_apply_docs(base, docs), overrides)
}

/// Resolve the variable set for execution: start from `base` (the process
/// environment as the caller read it), layer every document in order, then
/// the literal overrides. Later layers always win.
pub fn resolve(base: Vec<Pair>, docs: &Vec<EnvFile>, overrides: &Vec<Pair>) -> (r: Vec<Pair>)
    requires
        distinct_keys(base.deep_view()),
    ensures
        distinct_keys(r.deep_view()),
        map_of_pairs(r.deep_view()) == spec_resolve(
            map_of_pairs(base.deep_view()),
            docs@,
            overrides.deep_view(),
        ),
{
    let ghost base_map = map_of_pairs(base.deep_view());
    let mut vars = base;
    let nd: usize = docs.len();
    let mut d: usize = 0;
    while d < nd
        invariant
            0 <= d <= nd,
            nd == docs.len(),
            distinct_keys(vars.deep_view()),
            map_of_pairs(vars.deep_view()) == spec_apply_docs(base_map, docs@.take(d as int)),
        decreases nd - d,
    {
        let ps = docs[d].pairs();
        let np: usize = ps.len();
        let mut j: usize = 0;
        proof {
            assert(docs@.take(d as int + 1).drop_last() =~= docs@.take(d as int));
            assert(docs@.take(d as int + 1).last() == docs@[d as int]);
            assert(ps.deep_view().take(0) =~= Seq::<PairV>::empty());
        }
        while j < np
            invariant
                0 <= j <= np,
                np == ps.len(),
                0 <= d < nd,
                nd == docs.len(),
                ps.deep_view() == spec_pairs(docs@[d as int]@),
                distinct_keys(vars.deep_view()),
                map_of_pairs(vars.deep_view()) == spec_apply_pairs(
                    spec_apply_docs(base_map, docs@.take(d as int)),
                    ps.deep_view().take(j as int),
                ),
            decreases np - j,
        {
            proof {
                assert(ps.deep_view().take(j as int + 1).drop_last() =~= ps.deep_view().take(
                    j as int,
                ));
                assert(ps.deep_view().take(j as int + 1).last() == ps.deep_view()[j as int]);
            }
            set_var(&mut vars, ps[j].key.as_str(), ps[j].value.as_str());
            j = j + 1;
        }
        proof {
            assert(ps.deep_view().take(np as int) =~= ps.deep_view());
            assert(spec_apply_docs(base_map, docs@.take(d as int + 1)) == spec_apply_pairs(
                spec_apply_docs(base_map, docs@.take(d as int)),
                spec_pairs(docs@[d as int]@),
            ));
        }
        d = d + 1;
    }
    proof {
        assert(docs@.take(nd as int) =~= docs@);
    }
    let no: usize = overrides.len();
    let mut j: usize = 0;
    proof {
        assert(overrides.deep_view().take(0) =~= Seq::<PairV>::empty());
    }
    while j < no
        invariant
            0 <= j <= no,
            no == overrides.len(),
            distinct_keys(vars.deep_view()),
            map_of_pairs(vars.deep_view()) == spec_apply_pairs(
                spec_apply_docs(base_map, docs@),
                overrides.deep_view().take(j as int),
            ),
        decreases no - j,
    {
        proof {
            assert(overrides.deep_view().take(j as int + 1).drop_last()
                =~= overrides.deep_view().take(j as int));
            assert(overrides.deep_view().take(j as int + 1).last()
                == overrides.deep_view()[j as int]);
        }
        set_var(&mut vars, overrides[j].key.as_str(), overrides[j].value.as_str());
        j = j + 1;
    }
    proof {
        assert(overrides.deep_view().take(no as int) =~= overrides.deep_view());
    }
    vars
}

/// No executable token remains once the `KEY=VALUE` prefix is consumed.
#[derive(Debug)]
pub struct MissingCommandError;

/// A run command line taken apart: the leading `KEY=VALUE` override tokens,
/// the program to execute, and its arguments.
#[derive(Debug)]
pub struct RunInvocation {
    pub overrides: Vec<Pair>,
    pub program: String,
    pub args: Vec<String>,
}

/// A token is shaped `KEY=VALUE`: it holds an `=`.
pub open spec fn is_override_token(t: Seq<char>) -> bool {
    find_char(t, '=') < t.len()
}

/// Least index `>= from` of a token holding no `=`, or `tokens.len()`.
pub open spec fn first_program_idx(tokens: Seq<Seq<char>>, from: int) -> int
    decreases tokens.len() - from,
{
    if from < 0 || from >= tokens.len() {
        tokens.len() as int
    } else if !is_override_token(tokens[from]) {
        from
    } else {
        first_program_idx(tokens, from + 1)
    }
}

pub proof fn lemma_first_program_idx_unique(tokens: Seq<Seq<char>>, from: int, j: int)
    requires
        0 <= from <= j <= tokens.len(),
        forall|t: int| from <= t < j ==> is_override_token(#[trigger] tokens[t]),
        j < tokens.len() ==> !is_override_token(tokens[j]),
    ensures
        first_program_idx(tokens, from) == j,
    decreases j - from,
{
    if from < j {
        lemma_first_program_idx_unique(tokens, from + 1, j);
    }
}

/// Take a run command line apart: every leading token holding an `=` is an
/// override, the first token without one is the program, and the rest are
/// its arguments. With no such token the command is missing.
pub fn split_command(tokens: &Vec<String>) -> (r: Result<RunInvocation, MissingCommandError>)
    ensures
        r is Ok <==> first_program_idx(tokens.deep_view(), 0) < tokens.deep_view().len(),
        r matches Ok(inv) ==> ({
            let ts = tokens.deep_view();
            let p = first_program_idx(ts, 0);
            &&& inv.program@ == ts[p]
            &&& inv.args.deep_view() == ts.skip(p + 1)
            &&& inv.overrides.deep_view() == ts.take(p).map_values(
                |t: Seq<char>| spec_pair_of_token(t),
            )
        }),
{
    let n: usize = tokens.len();
    let mut overrides: Vec<Pair> = Vec::new();
    let mut i: usize = 0;
    while i < n
        invariant
            0 <= i <= n,
            n == tokens.len(),
            forall|t: int| 0 <= t < i ==> is_override_token(#[trigger] tokens.deep_view()[t]),
            overrides.deep_view() == tokens.deep_view().take(i as int).map_values(
                |t: Seq<char>| spec_pair_of_token(t),
            ),
        decreases n - i,
    {
        let tok: &String = &tokens[i];
        let tn: usize = tok.as_str().unicode_len();
        let e = find_in_str(tok.as_str(), '=');
        proof {
            lemma_find_char(tok@, '=');
        }
        if e == tn {
            proof {
                lemma_first_program_idx_unique(tokens.deep_view(), 0, i as int);
            }
            let program = tok.clone();
            let mut args: Vec<String> = Vec::new();
            let mut j: usize = i + 1;
            while j < n
                invariant
                    i + 1 <= j <= n,
                    n == tokens.len(),
                    args.deep_view() == tokens.deep_view().subrange(i as int + 1, j as int),
                decreases n - j,
            {
                let ghost pre_args = args.deep_view();
                args.push(tokens[j].clone());
                proof {
                    assert(args.deep_view() =~= pre_args.push(tokens.deep_view()[j as int]));
                    assert(args.deep_view() =~= tokens.deep_view().subrange(
                        i as int + 1,
                        j as int + 1,
                    ));
                }
                j = j + 1;
            }
            proof {
                assert(tokens.deep_view().subrange(i as int + 1, n as int)
                    =~= tokens.deep_view().skip(i as int + 1));
            }
            return Ok(RunInvocation { overrides, program, args });
        }
        let ghost pre_ov = overrides.deep_view();
        let p = pair_of_token(tok.as_str());
        let ghost pv = p@;
        overrides.push(p);
        proof {
            assert(overrides.deep_view() =~= pre_ov.push(pv));
            assert(overrides.deep_view() =~= tokens.deep_view().take(i as int + 1).map_values(
                |t: Seq<char>| spec_pair_of_token(t),
            ));
        }
        i = i + 1;
    }
    proof {
        lemma_first_program_idx_unique(tokens.deep_view(), 0, n as int);
    }
    Err(MissingCommandError)
}

} // verus!
