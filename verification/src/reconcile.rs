//! Reconciliation over documents: missing-key detection and the consistency
//! check that compares a reference document against a set of destinations,
//! optionally imposing the reference's ordering onto them.

use vstd::prelude::*;

verus! {

use crate::text::str_eq;
use crate::text::str_le;
use crate::text::seq_le;
use crate::text::lemma_seq_le_total;
use crate::envfile::EnvFile;
use crate::envfile::Line;
use crate::envfile::LineV;
use crate::envfile::spec_has_key;
use crate::envfile::is_pair_with_key;
use crate::envfile::spec_reorder;

/// Keys of pair lines of `source`, in encounter order and duplicates
/// included, for which `dest` holds no pair line.
pub open spec fn spec_missing_keys(source: Seq<LineV>, dest: Seq<LineV>) -> Seq<Seq<char>>
    decreases source.len(),
{
    if source.len() == 0 {
        Seq::empty()
    } else {
        let prev = spec_missing_keys(source.drop_last(), dest);
        match source.last() {
            LineV::Pair(k, _) => if !spec_has_key(dest, k) {
                prev.push(k)
            } else {
                prev
            },
            _ => prev,
        }
    }
}

/// A key occurs among the missing keys exactly when `source` holds a pair
/// line for it and `dest` does not.
pub proof fn lemma_missing_keys_membership(source: Seq<LineV>, dest: Seq<LineV>, k: Seq<char>)
    ensures
        spec_missing_keys(source, dest).contains(k) <==> (spec_has_key(source, k)
            && !spec_has_key(dest, k)),
    decreases source.len(),
{
    if source.len() == 0 {
        assert(!spec_has_key(source, k));
    } else {
        let prev_src = source.drop_last();
        lemma_missing_keys_membership(prev_src, dest, k);
        let m = spec_missing_keys(source, dest);
        let prev = spec_missing_keys(prev_src, dest);
        if spec_has_key(prev_src, k) {
            let w = choose|i: int|
                0 <= i < prev_src.len() && is_pair_with_key(#[trigger] prev_src[i], k);
            assert(source[w] == prev_src[w]);
            assert(spec_has_key(source, k));
        }
        if prev.contains(k) {
            let w = choose|i: int| 0 <= i < prev.len() && prev[i] == k;
            assert(m[w] == k) by {
                match source.last() {
                    LineV::Pair(kk, _) => {},
                    _ => {},
                }
            }
            assert(m.contains(k));
        }
        if m.contains(k) {
            let w = choose|i: int| 0 <= i < m.len() && m[i] == k;
            if w < prev.len() {
                assert(prev[w] == k);
                assert(prev.contains(k));
            } else {
                assert(source.last() matches LineV::Pair(kk, _) && kk == k && !spec_has_key(
                    dest,
                    k,
                ));
                assert(is_pair_with_key(source[source.len() - 1], k));
                assert(spec_has_key(source, k));
            }
        }
        if spec_has_key(source, k) && !spec_has_key(dest, k) && !spec_has_key(prev_src, k) {
            let w = choose|i: int|
                0 <= i < source.len() && is_pair_with_key(#[trigger] source[i], k);
            if w < source.len() - 1 {
                assert(prev_src[w] == source[w]);
                assert(spec_has_key(prev_src, k));
                assert(false);
            }
            assert(is_pair_with_key(source.last(), k));
            assert(m == prev.push(k));
            assert(m[m.len() - 1] == k);
            assert(m.contains(k));
        }
    }
}

/// The two directions of missing-key detection are independent: for any
/// two distinct keys, a document holding only the first and a document
/// holding only the second each miss the other's key, so neither
/// direction's list being empty ever implies anything about the other.
pub proof fn lemma_missing_keys_independent(
    ka: Seq<char>,
    va: Seq<char>,
    kb: Seq<char>,
    vb: Seq<char>,
)
    requires
        ka != kb,
    ensures
        spec_missing_keys(seq![LineV::Pair(ka, va)], seq![LineV::Pair(kb, vb)]) == seq![ka],
        spec_missing_keys(seq![LineV::Pair(kb, vb)], seq![LineV::Pair(ka, va)]) == seq![kb],
{
    let a = seq![LineV::Pair(ka, va)];
    let b = seq![LineV::Pair(kb, vb)];
    assert(!spec_has_key(b, ka)) by {
        assert(forall|i: int| 0 <= i < b.len() ==> !is_pair_with_key(#[trigger] b[i], ka));
    }
    assert(!spec_has_key(a, kb)) by {
        assert(forall|i: int| 0 <= i < a.len() ==> !is_pair_with_key(#[trigger] a[i], kb));
    }
    assert(a.drop_last() =~= Seq::<LineV>::empty());
    assert(b.drop_last() =~= Seq::<LineV>::empty());
    assert(spec_missing_keys(Seq::<LineV>::empty(), b) == Seq::<Seq<char>>::empty());
    assert(spec_missing_keys(Seq::<LineV>::empty(), a) == Seq::<Seq<char>>::empty());
    assert(spec_missing_keys(a, b) =~= seq![ka]);
    assert(spec_missing_keys(b, a) =~= seq![kb]);
}

/// The keys of `source` that `dest` lacks, in `source`'s encounter order;
/// a key occurring twice in `source` is reported twice.
pub fn missing_keys(source_env: &EnvFile, dest_env: &EnvFile) -> (r: Vec<String>)
    ensures
        r.deep_view() == spec_missing_keys(source_env@, dest_env@),
{
    let n: usize = source_env.lines.len();
    let mut out: Vec<String> = Vec::new();
    let mut i: usize = 0;
    while i < n
        invariant
            0 <= i <= n,
            n == source_env.lines.len(),
            source_env@.len() == n,
            out.deep_view() == spec_missing_keys(source_env@.take(i as int), dest_env@),
        decreases n - i,
    {
        proof {
            assert(source_env@.take(i as int + 1).drop_last() =~= source_env@.take(i as int));
            assert(source_env@.take(i as int + 1).last() == source_env@[i as int]);
        }
        match &source_env.lines[i] {
            Line::Pair(k, _) => {
                if !dest_env.has_key(k.as_str()) {
                    out.push(k.clone());
                }
                proof {
                    assert(out.deep_view() =~= spec_missing_keys(
                        source_env@.take(i as int + 1),
                        dest_env@,
                    ));
                }
            },
            _ => {
                proof {
                    assert(out.deep_view() =~= spec_missing_keys(
                        source_env@.take(i as int + 1),
                        dest_env@,
                    ));
                }
            },
        }
        i = i + 1;
    }
    proof {
        assert(source_env@.take(n as int) =~= source_env@);
    }
    out
}

/// A list of keys in strictly increasing lexicographic order (no duplicates).
pub open spec fn strictly_sorted(s: Seq<Seq<char>>) -> bool {
    forall|i: int|
        0 <= i < s.len() - 1 ==> seq_le(#[trigger] s[i], s[i + 1]) && s[i] != s[i + 1]
}

/// Insert `key` into a strictly sorted key list, keeping it strictly sorted;
/// a key already present is not inserted again.
fn insert_sorted(keys: &mut Vec<String>, key: &String)
    requires
        strictly_sorted(old(keys).deep_view()),
    ensures
        strictly_sorted(final(keys).deep_view()),
        forall|k: Seq<char>|
            #[trigger] final(keys).deep_view().contains(k) <==> (old(
                keys,
            ).deep_view().contains(k) || k == key@),
{
    let n: usize = keys.len();
    let mut i: usize = 0;
    while i < n
        invariant_except_break
            0 <= i <= n,
            n == keys.len(),
            keys == old(keys),
            keys.deep_view().len() == n,
            strictly_sorted(keys.deep_view()),
            forall|j: int|
                0 <= j < i ==> seq_le(#[trigger] keys.deep_view()[j], key@)
                    && keys.deep_view()[j] != key@,
        ensures
            0 <= i <= n,
            n == keys.len(),
            keys == old(keys),
            keys.deep_view().len() == n,
            strictly_sorted(keys.deep_view()),
            forall|j: int|
                0 <= j < i ==> seq_le(#[trigger] keys.deep_view()[j], key@)
                    && keys.deep_view()[j] != key@,
            i < n ==> seq_le(key@, keys.deep_view()[i as int]) && keys.deep_view()[i as int]
                != key@,
        decreases n - i,
    {
        let cur = &keys[i];
        if str_eq(cur.as_str(), key.as_str()) {
            proof {
                assert(keys.deep_view()[i as int] == key@);
                assert(keys.deep_view().contains(key@));
            }
            return ;
        }
        if !str_le(cur.as_str(), key.as_str()) {
            proof {
                lemma_seq_le_total(keys.deep_view()[i as int], key@);
            }
            break ;
        }
        i = i + 1;
    }
    let ghost pre = keys.deep_view();
    keys.insert(i, key.clone());
    proof {
        let post = keys.deep_view();
        assert(post =~= pre.insert(i as int, key@));
        assert(post.len() == pre.len() + 1);
        assert forall|j: int| 0 <= j < post.len() - 1 implies seq_le(#[trigger] post[j], post[j + 1])
            && post[j] != post[j + 1] by {
            if j < i {
                assert(post[j] == pre[j]);
                if j + 1 < i as int {
                    assert(post[j + 1] == pre[j + 1]);
                } else {
                    assert(post[j + 1] == key@);
                }
            } else if j == i {
                if j + 1 < post.len() {
                    assert(post[j] == key@);
                    assert(post[j + 1] == pre[j]);
                    lemma_seq_le_total(pre[j], key@);
                }
            } else {
                assert(post[j] == pre[j - 1]);
                assert(post[j + 1] == pre[j]);
            }
        }
        assert forall|k: Seq<char>| #[trigger] post.contains(k) implies (pre.contains(k) || k
            == key@) by {
            let w = choose|t: int| 0 <= t < post.len() && post[t] == k;
            if w < i {
                assert(pre[w] == k);
            } else if w > i {
                assert(pre[w - 1] == k);
            }
        }
        assert forall|k: Seq<char>| (pre.contains(k) || k == key@) implies #[trigger] post.contains(
            k,
        ) by {
            if pre.contains(k) {
                let w = choose|t: int| 0 <= t < pre.len() && pre[t] == k;
                if w < i {
                    assert(post[w] == k);
                } else {
                    assert(post[w + 1] == k);
                }
            } else {
                assert(post[i as int] == k);
            }
        }
    }
}

/// The options steering a consistency check.
#[derive(Clone, Copy, Debug)]
pub struct CheckOptions {
    /// Impose the reference's ordering onto the destinations when no
    /// foreign key stands in the way.
    pub force: bool,
    /// Suppress per-key reporting; carried for the caller, the outcome is
    /// unaffected.
    pub quiet: bool,
}

/// The outcome of a consistency check; a finding, not a crash.
#[derive(Debug)]
pub enum CheckOutcome {
    /// Every destination holds every reference key, and no destination
    /// holds a key the reference lacks.
    Consistent,
    /// Per destination, in order, the reference keys it lacks.
    MissingKeysFound(Vec<Vec<String>>),
    /// Keys held by some destination but absent from the reference:
    /// `foreign` is their sorted, deduplicated union, and this class always
    /// terminates the check. The per-destination missing reference keys are
    /// still fully computed and carried in `missing`, so both failure
    /// classes can be reported together. Forcing is refused while any
    /// foreign key exists.
    ForeignKeysFound { missing: Vec<Vec<String>>, foreign: Vec<String> },
}

/// Some destination holds a key that the reference lacks.
pub open spec fn spec_any_foreign(source: Seq<LineV>, dests: Seq<EnvFile>) -> bool {
    exists|d: int|
        0 <= d < dests.len() && #[trigger] spec_missing_keys(dests[d]@, source).len() > 0
}

/// Impose the reference's ordering onto every destination in turn.
fn reorder_all(source_env: &EnvFile, dest_envs: &mut Vec<EnvFile>)
    ensures
        final(dest_envs)@.len() == old(dest_envs)@.len(),
        forall|d: int|
            0 <= d < old(dest_envs)@.len() ==> ((#[trigger] final(dest_envs)@[d])@ == spec_reorder(
                old(dest_envs)@[d]@,
                source_env@,
            ) && final(dest_envs)@[d].modified && final(dest_envs)@[d].path == old(
                dest_envs,
            )@[d].path),
{
    let nd: usize = dest_envs.len();
    let mut d3: usize = 0;
    while d3 < nd
        invariant
            0 <= d3 <= nd,
            dest_envs@.len() == nd,
            nd == old(dest_envs)@.len(),
            forall|t: int|
                0 <= t < d3 ==> ((#[trigger] dest_envs@[t])@ == spec_reorder(
                    old(dest_envs)@[t]@,
                    source_env@,
                ) && dest_envs@[t].modified && dest_envs@[t].path == old(dest_envs)@[t].path),
            forall|t: int| d3 <= t < nd ==> #[trigger] dest_envs@[t] == old(dest_envs)@[t],
        decreases nd - d3,
    {
        let ghost pre = dest_envs@;
        let mut e = dest_envs.remove(d3);
        proof {
            assert(e == old(dest_envs)@[d3 as int]);
        }
        e.use_ordering_from(source_env);
        let ghost e_now = e;
        dest_envs.insert(d3, e);
        proof {
            assert(dest_envs@ =~= pre.update(d3 as int, e_now));
            assert(e_now@ == spec_reorder(old(dest_envs)@[d3 as int]@, source_env@));
            assert(dest_envs@[d3 as int] == e_now);
            assert forall|t: int| 0 <= t < d3 + 1 implies ((#[trigger] dest_envs@[t])@
                == spec_reorder(old(dest_envs)@[t]@, source_env@) && dest_envs@[t].modified
                && dest_envs@[t].path == old(dest_envs)@[t].path) by {
                if t < d3 {
                    assert(dest_envs@[t] == pre[t]);
                } else {
                    assert(dest_envs@[t] == e_now);
                }
            }
        }
        d3 = d3 + 1;
    }
}

/// Check the destinations against a reference document.
///
/// Keys held by some destination but absent from the reference always
/// terminate the check as a failure, whatever the options: silently dropping
/// data found only in a non-reference file is never safe, so forcing is
/// refused while any such key exists. Both failure classes are fully
/// computed before the outcome is decided, and the foreign-key outcome
/// carries the per-destination missing keys too, so reporting never
/// short-circuits on the first finding. With no foreign key, forcing imposes
/// the reference's ordering onto every destination (the caller persists
/// whatever is marked modified); without forcing, nothing is touched and the
/// outcome is consistent exactly when no destination lacks a reference key.
#[verifier::rlimit(60)]
pub fn check(source_env: &EnvFile, dest_envs: &mut Vec<EnvFile>, opts: &CheckOptions) -> (r:
    CheckOutcome)
    ensures
        r is ForeignKeysFound <==> spec_any_foreign(source_env@, old(dest_envs)@),
        r matches CheckOutcome::ForeignKeysFound { missing, foreign } ==> {
            &&& final(dest_envs)@ == old(dest_envs)@
            &&& strictly_sorted(foreign.deep_view())
            &&& forall|k: Seq<char>|
                #[trigger] foreign.deep_view().contains(k) <==> exists|d: int|
                    0 <= d < old(dest_envs)@.len() && #[trigger] spec_missing_keys(
                        old(dest_envs)@[d]@,
                        source_env@,
                    ).contains(k)
            &&& missing.deep_view().len() == old(dest_envs)@.len()
            &&& forall|d: int|
                0 <= d < old(dest_envs)@.len() ==> #[trigger] missing.deep_view()[d]
                    == spec_missing_keys(source_env@, old(dest_envs)@[d]@)
        },
        r matches CheckOutcome::MissingKeysFound(m) ==> {
            &&& !opts.force
            &&& final(dest_envs)@ == old(dest_envs)@
            &&& m.deep_view().len() == old(dest_envs)@.len()
            &&& forall|d: int|
                0 <= d < old(dest_envs)@.len() ==> #[trigger] m.deep_view()[d]
                    == spec_missing_keys(source_env@, old(dest_envs)@[d]@)
            &&& exists|d: int|
                0 <= d < old(dest_envs)@.len() && #[trigger] spec_missing_keys(
                    source_env@,
                    old(dest_envs)@[d]@,
                ).len() > 0
        },
        r is Consistent && opts.force ==> {
            &&& final(dest_envs)@.len() == old(dest_envs)@.len()
            &&& forall|d: int|
                0 <= d < old(dest_envs)@.len() ==> (final(dest_envs)@[d]@ == #[trigger] spec_reorder(
                    old(dest_envs)@[d]@,
                    source_env@,
                ) && final(dest_envs)@[d].modified && final(dest_envs)@[d].path == old(
                    dest_envs,
                )@[d].path)
        },
        r is Consistent && !opts.force ==> {
            &&& final(dest_envs)@ == old(dest_envs)@
            &&& forall|d: int|
                0 <= d < old(dest_envs)@.len() ==> #[trigger] spec_missing_keys(
                    source_env@,
                    old(dest_envs)@[d]@,
                ).len() == 0
        },
{
    let nd: usize = dest_envs.len();
    let mut per_dest: Vec<Vec<String>> = Vec::new();
    let mut has_missing: bool = false;
    let mut d: usize = 0;
    while d < nd
        invariant
            0 <= d <= nd,
            nd == dest_envs.len(),
            dest_envs == old(dest_envs),
            per_dest.deep_view().len() == d,
            forall|t: int|
                0 <= t < d ==> #[trigger] per_dest.deep_view()[t] == spec_missing_keys(
                    source_env@,
                    old(dest_envs)@[t]@,
                ),
            has_missing == exists|t: int|
                0 <= t < d && #[trigger] spec_missing_keys(
                    source_env@,
                    old(dest_envs)@[t]@,
                ).len() > 0,
        decreases nd - d,
    {
        let ghost pre = per_dest.deep_view();
        let m = missing_keys(source_env, &dest_envs[d]);
        proof {
            assert(m.deep_view().len() == m@.len());
            if m@.len() > 0 {
                assert(spec_missing_keys(source_env@, old(dest_envs)@[d as int]@).len() > 0);
            } else {
                assert(spec_missing_keys(source_env@, old(dest_envs)@[d as int]@).len() == 0);
            }
        }
        if m.len() > 0 {
            has_missing = true;
        }
        per_dest.push(m);
        proof {
            assert(per_dest.deep_view() =~= pre.push(
                spec_missing_keys(source_env@, old(dest_envs)@[d as int]@),
            ));
        }
        d = d + 1;
    }
    let mut foreign: Vec<String> = Vec::new();
    let mut d2: usize = 0;
    while d2 < nd
        invariant
            0 <= d2 <= nd,
            nd == dest_envs.len(),
            dest_envs == old(dest_envs),
            strictly_sorted(foreign.deep_view()),
            forall|k: Seq<char>|
                #[trigger] foreign.deep_view().contains(k) <==> exists|t: int|
                    0 <= t < d2 && #[trigger] spec_missing_keys(
                        old(dest_envs)@[t]@,
                        source_env@,
                    ).contains(k),
        decreases nd - d2,
    {
        let m = missing_keys(&dest_envs[d2], source_env);
        let mn: usize = m.len();
        let mut j: usize = 0;
        while j < mn
            invariant
                0 <= j <= mn,
                mn == m.len(),
                nd == dest_envs.len(),
                d2 < nd,
                dest_envs == old(dest_envs),
                m.deep_view() == spec_missing_keys(old(dest_envs)@[d2 as int]@, source_env@),
                strictly_sorted(foreign.deep_view()),
                forall|k: Seq<char>|
                    #[trigger] foreign.deep_view().contains(k) <==> ((exists|t: int|
                        0 <= t < d2 && #[trigger] spec_missing_keys(
                            old(dest_envs)@[t]@,
                            source_env@,
                        ).contains(k)) || (exists|u: int| 0 <= u < j && #[trigger] m.deep_view()[u]
                        == k)),
            decreases mn - j,
        {
            insert_sorted(&mut foreign, &m[j]);
            proof {
                assert(m.deep_view()[j as int] == m@[j as int]@);
            }
            j = j + 1;
        }
        proof {
            assert forall|k: Seq<char>| #[trigger] foreign.deep_view().contains(k) implies ((
            exists|t: int|
                0 <= t < d2 + 1 && #[trigger] spec_missing_keys(
                    old(dest_envs)@[t]@,
                    source_env@,
                ).contains(k))) by {
                if exists|u: int| 0 <= u < mn && #[trigger] m.deep_view()[u] == k {
                    assert(m.deep_view().contains(k));
                    assert(spec_missing_keys(old(dest_envs)@[d2 as int]@, source_env@).contains(
                        k,
                    ));
                }
            }
            assert forall|k: Seq<char>|
                (exists|t: int|
                    0 <= t < d2 + 1 && #[trigger] spec_missing_keys(
                        old(dest_envs)@[t]@,
                        source_env@,
                    ).contains(k)) implies #[trigger] foreign.deep_view().contains(k) by {
                let t = choose|t: int|
                    0 <= t < d2 + 1 && #[trigger] spec_missing_keys(
                        old(dest_envs)@[t]@,
                        source_env@,
                    ).contains(k);
                if t == d2 {
                    let u = choose|u: int|
                        0 <= u < m.deep_view().len() && m.deep_view()[u] == k;
                    assert(0 <= u < mn && m.deep_view()[u] == k);
                }
            }
        }
        d2 = d2 + 1;
    }
    if foreign.len() > 0 {
        proof {
            let k0 = foreign.deep_view()[0];
            assert(foreign.deep_view().contains(k0));
            let t = choose|t: int|
                0 <= t < nd && #[trigger] spec_missing_keys(
                    old(dest_envs)@[t]@,
                    source_env@,
                ).contains(k0);
            assert(spec_missing_keys(old(dest_envs)@[t]@, source_env@).len() > 0);
        }
        return CheckOutcome::ForeignKeysFound { missing: per_dest, foreign };
    }
    proof {
        assert forall|t: int| 0 <= t < nd implies #[trigger] spec_missing_keys(
            old(dest_envs)@[t]@,
            source_env@,
        ).len() == 0 by {
            let miss = spec_missing_keys(old(dest_envs)@[t]@, source_env@);
            if miss.len() > 0 {
                assert(miss.contains(miss[0]));
                assert(foreign.deep_view().contains(miss[0]));
                assert(false);
            }
        }
    }
    if opts.force {
        reorder_all(source_env, dest_envs);
        return CheckOutcome::Consistent;
    }
    if has_missing {
        CheckOutcome::MissingKeysFound(per_dest)
    } else {
        CheckOutcome::Consistent
    }
}

} // verus!
