//! Guarded batch application of key/value changes: a requested set of pairs
//! is validated against a primary document and its companions before any
//! mutation, so that a conflict leaves every document untouched. Removal is
//! symmetric but unconditional.

use vstd::prelude::*;

verus! {

use crate::envfile::EnvFile;
use crate::envfile::LineV;
use crate::envfile::Pair;
use crate::envfile::PairV;
use crate::envfile::spec_add;
use crate::envfile::spec_remove;
use crate::envfile::spec_lookup;
use crate::envfile::spec_has_key;
use crate::envfile::spec_has_value;

/// A refused batch: the key at fault and the source name of the first
/// document that already holds a non-empty value for it.
#[derive(Debug)]
pub struct ConflictError {
    pub key: String,
    pub path: String,
}

/// Some document of the target set (primary first, then companions in
/// order) holds a non-empty value for `key`.
pub open spec fn conflicting(primary: Seq<LineV>, companions: Seq<EnvFile>, key: Seq<char>) -> bool {
    spec_has_value(primary, key) || exists|c: int|
        0 <= c < companions.len() && spec_has_value(#[trigger] companions[c]@, key)
}

/// Least request index `>= from` whose key conflicts, or `requests.len()`.
pub open spec fn first_conflict_from(
    requests: Seq<PairV>,
    primary: Seq<LineV>,
    companions: Seq<EnvFile>,
    from: int,
) -> int
    decreases requests.len() - from,
{
    if from < 0 || from >= requests.len() {
        requests.len() as int
    } else if conflicting(primary, companions, requests[from].key) {
        from
    } else {
        first_conflict_from(requests, primary, companions, from + 1)
    }
}

pub proof fn lemma_first_conflict_from_unique(
    requests: Seq<PairV>,
    primary: Seq<LineV>,
    companions: Seq<EnvFile>,
    from: int,
    j: int,
)
    requires
        0 <= from <= j <= requests.len(),
        forall|t: int| from <= t < j ==> !conflicting(primary, companions, requests[t].key),
        j < requests.len() ==> conflicting(primary, companions, requests[j].key),
    ensures
        first_conflict_from(requests, primary, companions, from) == j,
    decreases j - from,
{
    if from < j {
        lemma_first_conflict_from_unique(requests, primary, companions, from + 1, j);
    }
}

/// Least companion index `>= from` holding a non-empty value for `key`, or
/// `companions.len()`.
pub open spec fn first_value_doc(companions: Seq<EnvFile>, key: Seq<char>, from: int) -> int
    decreases companions.len() - from,
{
    if from < 0 || from >= companions.len() {
        companions.len() as int
    } else if spec_has_value(companions[from]@, key) {
        from
    } else {
        first_value_doc(companions, key, from + 1)
    }
}

pub proof fn lemma_first_value_doc_unique(
    companions: Seq<EnvFile>,
    key: Seq<char>,
    from: int,
    j: int,
)
    requires
        0 <= from <= j <= companions.len(),
        forall|t: int| from <= t < j ==> !spec_has_value(#[trigger] companions[t]@, key),
        j < companions.len() ==> spec_has_value(companions[j]@, key),
    ensures
        first_value_doc(companions, key, from) == j,
    decreases j - from,
{
    if from < j {
        lemma_first_value_doc_unique(companions, key, from + 1, j);
    }
}

/// The lines after applying every request in order via `add`.
pub open spec fn spec_add_all(lines: Seq<LineV>, requests: Seq<PairV>) -> Seq<LineV>
    decreases requests.len(),
{
    if requests.len() == 0 {
        lines
    } else {
        spec_add_all(
            spec_add(lines, requests[0].key, requests[0].value),
            requests.drop_first(),
        )
    }
}

/// The dirty flag after applying every request in order: raised by any add
/// that found the key absent or holding a different value.
pub open spec fn spec_add_all_dirty(lines: Seq<LineV>, dirty: bool, requests: Seq<PairV>) -> bool
    decreases requests.len(),
{
    if requests.len() == 0 {
        dirty
    } else {
        spec_add_all_dirty(
            spec_add(lines, requests[0].key, requests[0].value),
            dirty || spec_lookup(lines, requests[0].key) != Some(requests[0].value),
            requests.drop_first(),
        )
    }
}

/// Applying one more request folds onto the end.
pub proof fn lemma_add_all_push(lines: Seq<LineV>, dirty: bool, s: Seq<PairV>, p: PairV)
    ensures
        spec_add_all(lines, s.push(p)) == spec_add(spec_add_all(lines, s), p.key, p.value),
        spec_add_all_dirty(lines, dirty, s.push(p)) == (spec_add_all_dirty(lines, dirty, s)
            || spec_lookup(spec_add_all(lines, s), p.key) != Some(p.value)),
    decreases s.len(),
{
    if s.len() == 0 {
        assert(s.push(p)[0] == p);
        assert(s.push(p).drop_first() =~= Seq::<PairV>::empty());
        assert(spec_add_all(lines, s) == lines);
        assert(spec_add_all_dirty(lines, dirty, s) == dirty);
        let stepped = spec_add(lines, p.key, p.value);
        assert(spec_add_all(stepped, Seq::<PairV>::empty()) == stepped);
        assert(spec_add_all_dirty(
            stepped,
            dirty || spec_lookup(lines, p.key) != Some(p.value),
            Seq::<PairV>::empty(),
        ) == (dirty || spec_lookup(lines, p.key) != Some(p.value)));
    } else {
        assert(s.push(p)[0] == s[0]);
        assert(s.push(p).drop_first() =~= s.drop_first().push(p));
        lemma_add_all_push(
            spec_add(lines, s[0].key, s[0].value),
            dirty || spec_lookup(lines, s[0].key) != Some(s[0].value),
            s.drop_first(),
            p,
        );
    }
}

/// The requests with their values blanked: only the keys propagate.
pub open spec fn blank_requests(requests: Seq<PairV>) -> Seq<PairV> {
    requests.map_values(|p: PairV| PairV { key: p.key, value: Seq::empty() })
}

/// The lines after removing every requested key in order.
pub open spec fn spec_remove_all(lines: Seq<LineV>, keys: Seq<Seq<char>>) -> Seq<LineV>
    decreases keys.len(),
{
    if keys.len() == 0 {
        lines
    } else {
        spec_remove_all(spec_remove(lines, keys[0]), keys.drop_first())
    }
}

/// The dirty flag after removing every requested key in order.
pub open spec fn spec_remove_all_dirty(lines: Seq<LineV>, dirty: bool, keys: Seq<Seq<char>>) -> bool
    decreases keys.len(),
{
    if keys.len() == 0 {
        dirty
    } else {
        spec_remove_all_dirty(
            spec_remove(lines, keys[0]),
            dirty || spec_has_key(lines, keys[0]),
            keys.drop_first(),
        )
    }
}

pub proof fn lemma_remove_all_push(lines: Seq<LineV>, dirty: bool, s: Seq<Seq<char>>, k: Seq<char>)
    ensures
        spec_remove_all(lines, s.push(k)) == spec_remove(spec_remove_all(lines, s), k),
        spec_remove_all_dirty(lines, dirty, s.push(k)) == (spec_remove_all_dirty(lines, dirty, s)
            || spec_has_key(spec_remove_all(lines, s), k)),
    decreases s.len(),
{
    if s.len() == 0 {
        assert(s.push(k)[0] == k);
        assert(s.push(k).drop_first() =~= Seq::<Seq<char>>::empty());
        assert(spec_remove_all(lines, s) == lines);
        assert(spec_remove_all_dirty(lines, dirty, s) == dirty);
        let stepped = spec_remove(lines, k);
        assert(spec_remove_all(stepped, Seq::<Seq<char>>::empty()) == stepped);
        assert(spec_remove_all_dirty(
            stepped,
            dirty || spec_has_key(lines, k),
            Seq::<Seq<char>>::empty(),
        ) == (dirty || spec_has_key(lines, k)));
    } else {
        assert(s.push(k)[0] == s[0]);
        assert(s.push(k).drop_first() =~= s.drop_first().push(k));
        lemma_remove_all_push(
            spec_remove(lines, s[0]),
            dirty || spec_has_key(lines, s[0]),
            s.drop_first(),
            k,
        );
    }
}

/// The keys of a request list, values dropped.
pub open spec fn keys_of(requests: Seq<PairV>) -> Seq<Seq<char>> {
    requests.map_values(|p: PairV| p.key)
}

/// Add `key` with a blank value to every document in turn.
fn add_blank_to_all(companions: &mut Vec<EnvFile>, key: &str)
    ensures
        final(companions)@.len() == old(companions)@.len(),
        forall|c: int|
            0 <= c < old(companions)@.len() ==> (final(companions)@[c]@ == #[trigger] spec_add(
                old(companions)@[c]@,
                key@,
                Seq::<char>::empty(),
            ) && final(companions)@[c].modified == (old(companions)@[c].modified || spec_lookup(
                old(companions)@[c]@,
                key@,
            ) != Some(Seq::<char>::empty())) && final(companions)@[c].path == old(
                companions,
            )@[c].path),
{
    let nc: usize = companions.len();
    let mut c: usize = 0;
    while c < nc
        invariant
            0 <= c <= nc,
            companions@.len() == nc,
            nc == old(companions)@.len(),
            forall|t: int|
                0 <= t < c ==> (companions@[t]@ == #[trigger] spec_add(
                    old(companions)@[t]@,
                    key@,
                    Seq::<char>::empty(),
                ) && companions@[t].modified == (old(companions)@[t].modified || spec_lookup(
                    old(companions)@[t]@,
                    key@,
                ) != Some(Seq::<char>::empty())) && companions@[t].path == old(
                    companions,
                )@[t].path),
            forall|t: int| c <= t < nc ==> #[trigger] companions@[t] == old(companions)@[t],
        decreases nc - c,
    {
        let ghost pre = companions@;
        let mut e = companions.remove(c);
        e.add(key, "");
        let ghost e_now = e;
        companions.insert(c, e);
        proof {
            reveal_strlit("");
            assert(""@ =~= Seq::<char>::empty());
            assert(companions@ =~= pre.update(c as int, e_now));
        }
        c = c + 1;
    }
}

/// Remove `key` from every document in turn.
#[verifier::spinoff_prover]
#[verifier::rlimit(60)]
fn remove_from_all(docs: &mut Vec<EnvFile>, key: &str)
    ensures
        final(docs)@.len() == old(docs)@.len(),
        forall|d: int|
            0 <= d < old(docs)@.len() ==> ((#[trigger] final(docs)@[d])@ == spec_remove(
                old(docs)@[d]@,
                key@,
            ) && final(docs)@[d].modified == (old(docs)@[d].modified || spec_has_key(
                old(docs)@[d]@,
                key@,
            )) && final(docs)@[d].path == old(docs)@[d].path),
{
    let nd: usize = docs.len();
    let mut d: usize = 0;
    while d < nd
        invariant
            0 <= d <= nd,
            docs@.len() == nd,
            nd == old(docs)@.len(),
            forall|t: int|
                0 <= t < d ==> ((#[trigger] docs@[t])@ == spec_remove(old(docs)@[t]@, key@)
                    && docs@[t].modified == (old(docs)@[t].modified || spec_has_key(
                    old(docs)@[t]@,
                    key@,
                )) && docs@[t].path == old(docs)@[t].path),
            forall|t: int| d <= t < nd ==> #[trigger] docs@[t] == old(docs)@[t],
        decreases nd - d,
    {
        let ghost pre = docs@;
        let mut e = docs.remove(d);
        proof {
            assert(e == old(docs)@[d as int]);
        }
        e.remove(key);
        let ghost e_now = e;
        docs.insert(d, e);
        proof {
            assert(docs@ =~= pre.update(d as int, e_now));
            assert(e_now@ == spec_remove(old(docs)@[d as int]@, key@));
            assert(e_now.modified == (old(docs)@[d as int].modified || spec_has_key(
                old(docs)@[d as int]@,
                key@,
            )));
            assert(e_now.path == old(docs)@[d as int].path);
            assert(docs@[d as int] == e_now);
            assert forall|t: int| 0 <= t < d + 1 implies ((#[trigger] docs@[t])@ == spec_remove(
                old(docs)@[t]@,
                key@,
            ) && docs@[t].modified == (old(docs)@[t].modified || spec_has_key(
                old(docs)@[t]@,
                key@,
            )) && docs@[t].path == old(docs)@[t].path) by {
                if t < d {
                    assert(docs@[t] == pre[t]);
                } else {
                    assert(docs@[t] == e_now);
                }
            }
        }
        d = d + 1;
    }
}

/// Apply a requested batch of key/value pairs.
///
/// Unless forcing, every request is first checked against the primary
/// document and then against every companion in order; the first key that
/// already holds a non-empty value anywhere refuses the whole batch, and
/// nothing at all is mutated. Otherwise every request is added to the
/// primary, and its key — with the value deliberately blanked — to every
/// companion, so that only the key's presence propagates.
pub fn apply_batch(
    requests: &Vec<Pair>,
    primary: &mut EnvFile,
    companions: &mut Vec<EnvFile>,
    force: bool,
) -> (r: Result<(), ConflictError>)
    ensures
        r is Err <==> (!force && first_conflict_from(
            requests.deep_view(),
            old(primary)@,
            old(companions)@,
            0,
        ) < requests@.len()),
        r matches Err(e) ==> ({
            let reqs = requests.deep_view();
            let i = first_conflict_from(reqs, old(primary)@, old(companions)@, 0);
            &&& *final(primary) == *old(primary)
            &&& final(companions)@ == old(companions)@
            &&& e.key@ == reqs[i].key
            &&& spec_has_value(old(primary)@, reqs[i].key) ==> e.path@ == old(primary).path@
            &&& !spec_has_value(old(primary)@, reqs[i].key) ==> e.path@ == old(
                companions,
            )@[first_value_doc(old(companions)@, reqs[i].key, 0)].path@
        }),
        r is Ok ==> final(primary)@ == spec_add_all(old(primary)@, requests.deep_view()),
        r is Ok ==> final(primary).modified == spec_add_all_dirty(
            old(primary)@,
            old(primary).modified,
            requests.deep_view(),
        ),
        r is Ok ==> final(primary).path == old(primary).path,
        r is Ok ==> final(companions)@.len() == old(companions)@.len(),
        r is Ok ==> forall|c: int|
            0 <= c < old(companions)@.len() ==> (final(companions)@[c]@ == #[trigger] spec_add_all(
                old(companions)@[c]@,
                blank_requests(requests.deep_view()),
            ) && final(companions)@[c].modified == spec_add_all_dirty(
                old(companions)@[c]@,
                old(companions)@[c].modified,
                blank_requests(requests.deep_view()),
            ) && final(companions)@[c].path == old(companions)@[c].path),
{
    let ghost reqs = requests.deep_view();
    let nr: usize = requests.len();
    let nc: usize = companions.len();
    if !force {
        let mut i: usize = 0;
        while i < nr
            invariant
                0 <= i <= nr,
                !force,
                nr == requests.len(),
                reqs == requests.deep_view(),
                primary == old(primary),
                companions == old(companions),
                nc == companions.len(),
                forall|t: int|
                    0 <= t < i ==> !conflicting(old(primary)@, old(companions)@, reqs[t].key),
            decreases nr - i,
        {
            let key: &String = &requests[i].key;
            proof {
                assert(reqs[i as int].key == key@);
            }
            if primary.has_value(key.as_str()) {
                proof {
                    lemma_first_conflict_from_unique(
                        reqs,
                        old(primary)@,
                        old(companions)@,
                        0,
                        i as int,
                    );
                }
                return Err(ConflictError { key: key.clone(), path: primary.path.clone() });
            }
            let mut c: usize = 0;
            while c < nc
                invariant
                    0 <= c <= nc,
                    0 <= i < nr,
                    !force,
                    nr == requests.len(),
                    reqs == requests.deep_view(),
                    reqs[i as int].key == key@,
                    primary == old(primary),
                    companions == old(companions),
                    nc == companions.len(),
                    !spec_has_value(old(primary)@, key@),
                    forall|t: int|
                        0 <= t < i ==> !conflicting(old(primary)@, old(companions)@, reqs[t].key),
                    forall|t: int|
                        0 <= t < c ==> !spec_has_value(#[trigger] old(companions)@[t]@, key@),
                decreases nc - c,
            {
                if companions[c].has_value(key.as_str()) {
                    proof {
                        assert(conflicting(old(primary)@, old(companions)@, key@));
                        lemma_first_conflict_from_unique(
                            reqs,
                            old(primary)@,
                            old(companions)@,
                            0,
                            i as int,
                        );
                        lemma_first_value_doc_unique(old(companions)@, key@, 0, c as int);
                    }
                    return Err(
                        ConflictError { key: key.clone(), path: companions[c].path.clone() },
                    );
                }
                c = c + 1;
            }
            proof {
                if conflicting(old(primary)@, old(companions)@, key@) {
                    assert(false);
                }
            }
            i = i + 1;
        }
        proof {
            lemma_first_conflict_from_unique(reqs, old(primary)@, old(companions)@, 0, nr as int);
        }
    }
    let mut i: usize = 0;
    proof {
        assert(reqs.take(0) =~= Seq::<PairV>::empty());
        assert(blank_requests(reqs.take(0)) =~= Seq::<PairV>::empty());
    }
    while i < nr
        invariant
            0 <= i <= nr,
            nr == requests.len(),
            reqs == requests.deep_view(),
            nc == companions.len(),
            companions@.len() == nc,
            primary@ == spec_add_all(old(primary)@, reqs.take(i as int)),
            primary.modified == spec_add_all_dirty(
                old(primary)@,
                old(primary).modified,
                reqs.take(i as int),
            ),
            primary.path == old(primary).path,
            forall|t: int|
                0 <= t < nc ==> (companions@[t]@ == #[trigger] spec_add_all(
                    old(companions)@[t]@,
                    blank_requests(reqs.take(i as int)),
                ) && companions@[t].modified == spec_add_all_dirty(
                    old(companions)@[t]@,
                    old(companions)@[t].modified,
                    blank_requests(reqs.take(i as int)),
                ) && companions@[t].path == old(companions)@[t].path),
        decreases nr - i,
    {
        let ghost pre_primary_lines = primary@;
        let ghost pre_primary_dirty = primary.modified;
        let key: &String = &requests[i].key;
        let value: &String = &requests[i].value;
        proof {
            assert(reqs[i as int] == PairV { key: key@, value: value@ });
        }
        primary.add(key.as_str(), value.as_str());
        proof {
            lemma_add_all_push(
                old(primary)@,
                old(primary).modified,
                reqs.take(i as int),
                reqs[i as int],
            );
            assert(reqs.take(i as int).push(reqs[i as int]) =~= reqs.take(i as int + 1));
        }
        let ghost pre_companions = companions@;
        add_blank_to_all(companions, key.as_str());
        proof {
            assert forall|t: int| 0 <= t < nc implies (companions@[t]@
                == #[trigger] spec_add_all(
                old(companions)@[t]@,
                blank_requests(reqs.take(i as int + 1)),
            ) && companions@[t].modified == spec_add_all_dirty(
                old(companions)@[t]@,
                old(companions)@[t].modified,
                blank_requests(reqs.take(i as int + 1)),
            ) && companions@[t].path == old(companions)@[t].path) by {
                lemma_add_all_push(
                    old(companions)@[t]@,
                    old(companions)@[t].modified,
                    blank_requests(reqs.take(i as int)),
                    PairV { key: key@, value: Seq::empty() },
                );
                assert(blank_requests(reqs.take(i as int)).push(
                    PairV { key: key@, value: Seq::empty() },
                ) =~= blank_requests(reqs.take(i as int + 1)));
                assert(pre_companions[t]@ == spec_add_all(
                    old(companions)@[t]@,
                    blank_requests(reqs.take(i as int)),
                ));
            }
        }
        i = i + 1;
    }
    proof {
        assert(reqs.take(nr as int) =~= reqs);
        assert(blank_requests(reqs.take(nr as int)) =~= blank_requests(reqs));
    }
    Ok(())
}

/// Remove every requested key (the value part of a request is ignored) from
/// every document, each marked modified exactly when it lost a line.
/// Removal has no conflict guard.
pub fn remove_batch(requests: &Vec<Pair>, docs: &mut Vec<EnvFile>)
    ensures
        final(docs)@.len() == old(docs)@.len(),
        forall|d: int|
            0 <= d < old(docs)@.len() ==> (final(docs)@[d]@ == #[trigger] spec_remove_all(
                old(docs)@[d]@,
                keys_of(requests.deep_view()),
            ) && final(docs)@[d].modified == spec_remove_all_dirty(
                old(docs)@[d]@,
                old(docs)@[d].modified,
                keys_of(requests.deep_view()),
            ) && final(docs)@[d].path == old(docs)@[d].path),
{
    let ghost reqs = requests.deep_view();
    let nr: usize = requests.len();
    let nd: usize = docs.len();
    let mut i: usize = 0;
    proof {
        assert(keys_of(reqs.take(0)) =~= Seq::<Seq<char>>::empty());
    }
    while i < nr
        invariant
            0 <= i <= nr,
            nr == requests.len(),
            reqs == requests.deep_view(),
            nd == docs.len(),
            docs@.len() == nd,
            forall|t: int|
                0 <= t < nd ==> (docs@[t]@ == #[trigger] spec_remove_all(
                    old(docs)@[t]@,
                    keys_of(reqs.take(i as int)),
                ) && docs@[t].modified == spec_remove_all_dirty(
                    old(docs)@[t]@,
                    old(docs)@[t].modified,
                    keys_of(reqs.take(i as int)),
                ) && docs@[t].path == old(docs)@[t].path),
        decreases nr - i,
    {
        let key: &String = &requests[i].key;
        proof {
            assert(reqs[i as int].key == key@);
        }
        let ghost pre_docs = docs@;
        remove_from_all(docs, key.as_str());
        proof {
            assert forall|t: int| 0 <= t < nd implies (docs@[t]@ == #[trigger] spec_remove_all(
                old(docs)@[t]@,
                keys_of(reqs.take(i as int + 1)),
            ) && docs@[t].modified == spec_remove_all_dirty(
                old(docs)@[t]@,
                old(docs)@[t].modified,
                keys_of(reqs.take(i as int + 1)),
            ) && docs@[t].path == old(docs)@[t].path) by {
                lemma_remove_all_push(
                    old(docs)@[t]@,
                    old(docs)@[t].modified,
                    keys_of(reqs.take(i as int)),
                    key@,
                );
                assert(keys_of(reqs.take(i as int)).push(key@) =~= keys_of(
                    reqs.take(i as int + 1),
                ));
                assert(pre_docs[t]@ == spec_remove_all(
                    old(docs)@[t]@,
                    keys_of(reqs.take(i as int)),
                ));
            }
        }
        i = i + 1;
    }
    proof {
        assert(reqs.take(nr as int) =~= reqs);
        assert(keys_of(reqs.take(nr as int)) =~= keys_of(reqs));
    }
}

} // verus!
