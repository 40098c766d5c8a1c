//! Applying a batch of updates to the pairs of one bucket.
use vstd::prelude::*;
use crate::bytes::find_key;
use crate::updates::{assoc, unique_keys, update_pairs, lemma_assoc_domain, lemma_assoc_index};

verus! {

pub open spec fn pairs(s: Seq<(Vec<u8>, Vec<u8>)>) -> Seq<(Seq<u8>, Seq<u8>)> {
    s.map_values(|p: (Vec<u8>, Vec<u8>)| (p.0@, p.1@))
}

pub open spec fn key_in<V>(s: Seq<(Seq<u8>, V)>, k: Seq<u8>) -> bool {
    exists|i: int| 0 <= i < s.len() && s[i].0 == k
}

/// What a bucket holds after `updates`: a key given a value takes it, a
/// key given `None` is gone, every other key keeps its value.
pub open spec fn apply_updates(
    old: Map<Seq<u8>, Seq<u8>>,
    updates: Map<Seq<u8>, Option<Seq<u8>>>,
) -> Map<Seq<u8>, Seq<u8>> {
    Map::new(
        |k: Seq<u8>|
            if updates.contains_key(k) {
                updates[k] is Some
            } else {
                old.contains_key(k)
            },
        |k: Seq<u8>|
            if updates.contains_key(k) {
                updates[k]->0
            } else {
                old[k]
            },
    )
}

/// The pairs kept from `es`, in order, with their updated values.
spec fn kept(es: Seq<(Seq<u8>, Seq<u8>)>, u: Map<Seq<u8>, Option<Seq<u8>>>) -> Map<Seq<u8>, Seq<u8>>
    decreases es.len(),
{
    if es.len() == 0 {
        Map::empty()
    } else {
        let m = kept(es.drop_last(), u);
        let (k, v) = es.last();
        if u.contains_key(k) {
            match u[k] {
                Some(nv) => m.insert(k, nv),
                None => m,
            }
        } else {
            m.insert(k, v)
        }
    }
}

/// `m` with the new keys that `us` gives values to.
spec fn added(
    us: Seq<(Seq<u8>, Option<Seq<u8>>)>,
    m: Map<Seq<u8>, Seq<u8>>,
    existing: Map<Seq<u8>, Seq<u8>>,
) -> Map<Seq<u8>, Seq<u8>>
    decreases us.len(),
{
    if us.len() == 0 {
        m
    } else {
        let r = added(us.drop_last(), m, existing);
        let (k, o) = us.last();
        match o {
            Some(v) => if existing.contains_key(k) {
                r
            } else {
                r.insert(k, v)
            },
            None => r,
        }
    }
}

proof fn lemma_kept(es: Seq<(Seq<u8>, Seq<u8>)>, u: Map<Seq<u8>, Option<Seq<u8>>>)
    requires
        unique_keys(es),
    ensures
        forall|k: Seq<u8>| #[trigger] kept(es, u).contains_key(k) <==> key_in(es, k) && !(u.contains_key(k)
            && u[k] is None),
        forall|k: Seq<u8>| #[trigger] kept(es, u).contains_key(k) ==> kept(es, u)[k] == if u.contains_key(k) {
            u[k]->0
        } else {
            assoc(es)[k]
        },
    decreases es.len(),
{
    if es.len() > 0 {
        let p = es.drop_last();
        assert(unique_keys(p));
        lemma_kept(p, u);
        let (k0, v0) = es.last();
        assert forall|k: Seq<u8>| key_in(es, k) <==> key_in(p, k) || k == k0 by {
            if key_in(es, k) && k != k0 {
                let i = choose|i: int| 0 <= i < es.len() && es[i].0 == k;
                assert(p[i].0 == k);
            }
            if key_in(p, k) {
                let i = choose|i: int| 0 <= i < p.len() && p[i].0 == k;
                assert(es[i].0 == k);
            }
            if k == k0 {
                assert(es[es.len() - 1].0 == k);
            }
        }
        assert forall|k: Seq<u8>| key_in(p, k) implies k != k0 by {
            let i = choose|i: int| 0 <= i < p.len() && p[i].0 == k;
            assert(es[i].0 == k);
            assert(es[es.len() - 1].0 == k0);
        }
        assert(assoc(es) == assoc(p).insert(k0, v0));
        let m = kept(p, u);
        assert forall|k: Seq<u8>| #[trigger] kept(es, u).contains_key(k) <==> key_in(es, k) && !(u.contains_key(k)
            && u[k] is None) by {
            if k != k0 {
                assert(kept(es, u).contains_key(k) == m.contains_key(k));
            }
        }
        assert forall|k: Seq<u8>| #[trigger] kept(es, u).contains_key(k) implies kept(es, u)[k] == if u.contains_key(k) {
            u[k]->0
        } else {
            assoc(es)[k]
        } by {
            if k != k0 {
                assert(kept(es, u)[k] == m[k]);
            }
        }
    }
}

proof fn lemma_added(
    us: Seq<(Seq<u8>, Option<Seq<u8>>)>,
    m: Map<Seq<u8>, Seq<u8>>,
    existing: Map<Seq<u8>, Seq<u8>>,
)
    requires
        unique_keys(us),
    ensures
        forall|k: Seq<u8>| #[trigger] added(us, m, existing).contains_key(k) <==> m.contains_key(k) || (
        key_in(us, k) && assoc(us)[k] is Some && !existing.contains_key(k)),
        forall|k: Seq<u8>| #[trigger] added(us, m, existing).contains_key(k) ==> added(us, m, existing)[k] == if key_in(
            us,
            k,
        ) && assoc(us)[k] is Some && !existing.contains_key(k) {
            assoc(us)[k]->0
        } else {
            m[k]
        },
    decreases us.len(),
{
    if us.len() > 0 {
        let p = us.drop_last();
        assert(unique_keys(p));
        lemma_added(p, m, existing);
        let (k0, o0) = us.last();
        assert forall|k: Seq<u8>| key_in(us, k) <==> key_in(p, k) || k == k0 by {
            if key_in(us, k) && k != k0 {
                let i = choose|i: int| 0 <= i < us.len() && us[i].0 == k;
                assert(p[i].0 == k);
            }
            if key_in(p, k) {
                let i = choose|i: int| 0 <= i < p.len() && p[i].0 == k;
                assert(us[i].0 == k);
            }
            if k == k0 {
                assert(us[us.len() - 1].0 == k);
            }
        }
        assert forall|k: Seq<u8>| key_in(p, k) implies k != k0 by {
            let i = choose|i: int| 0 <= i < p.len() && p[i].0 == k;
            assert(us[i].0 == k);
            assert(us[us.len() - 1].0 == k0);
        }
        assert(assoc(us) == assoc(p).insert(k0, o0));
        let r = added(p, m, existing);
        assert forall|k: Seq<u8>| #[trigger] added(us, m, existing).contains_key(k) <==> m.contains_key(k) || (
            key_in(us, k) && assoc(us)[k] is Some && !existing.contains_key(k)) by {
            if k != k0 {
                assert(added(us, m, existing).contains_key(k) == r.contains_key(k));
            }
        }
        assert forall|k: Seq<u8>| #[trigger] added(us, m, existing).contains_key(k) implies added(us, m, existing)[k]
            == if key_in(us, k) && assoc(us)[k] is Some && !existing.contains_key(k) {
            assoc(us)[k]->0
        } else {
            m[k]
        } by {
            if k != k0 {
                assert(added(us, m, existing)[k] == r[k]);
            }
        }
    }
}

proof fn lemma_key_in_assoc<V>(s: Seq<(Seq<u8>, V)>)
    ensures
        forall|k: Seq<u8>| #[trigger] assoc(s).contains_key(k) <==> key_in(s, k),
{
    assert forall|k: Seq<u8>| #[trigger] assoc(s).contains_key(k) <==> key_in(s, k) by {
        lemma_assoc_domain(s, k);
    }
}

/// Applies `updates` to the pairs `entries` of one bucket. The pairs that
/// stay come first, in their order; then the new keys, in the order of
/// the updates.
pub fn merge_entries(
    entries: &Vec<(Vec<u8>, Vec<u8>)>,
    updates: &Vec<(Vec<u8>, Option<Vec<u8>>)>,
) -> (r: Vec<(Vec<u8>, Vec<u8>)>)
    requires
        unique_keys(pairs(entries@)),
        unique_keys(update_pairs(updates@)),
    ensures
        unique_keys(pairs(r@)),
        assoc(pairs(r@)) == apply_updates(assoc(pairs(entries@)), assoc(update_pairs(updates@))),
{
    let ghost es = pairs(entries@);
    let ghost us = update_pairs(updates@);
    let ghost u = assoc(us);
    let mut out: Vec<(Vec<u8>, Vec<u8>)> = Vec::new();
    let mut i: usize = 0;
    proof {
        assert(pairs(out@) =~= Seq::<(Seq<u8>, Seq<u8>)>::empty());
        assert(es.subrange(0, 0) =~= Seq::<(Seq<u8>, Seq<u8>)>::empty());
    }
    while i < entries.len()
        invariant
            i <= entries@.len(),
            es == pairs(entries@),
            us == update_pairs(updates@),
            u == assoc(us),
            unique_keys(es),
            unique_keys(us),
            unique_keys(pairs(out@)),
            assoc(pairs(out@)) == kept(es.subrange(0, i as int), u),
        decreases entries@.len() - i,
    {
        let ghost before = pairs(out@);
        let ghost pre = es.subrange(0, i as int);
        let ghost k0 = es[i as int].0;
        proof {
            assert(es.subrange(0, i + 1).drop_last() =~= pre);
            assert(unique_keys(pre));
            lemma_kept(pre, u);
            lemma_key_in_assoc(before);
            lemma_assoc_domain(us, k0);
            assert(!key_in(pre, k0)) by {
                if key_in(pre, k0) {
                    let j = choose|j: int| 0 <= j < pre.len() && pre[j].0 == k0;
                    assert(es[j].0 == k0);
                }
            }
            if key_in(before, k0) {
                assert(assoc(before).contains_key(k0));
                assert(kept(pre, u).contains_key(k0));
                assert(key_in(pre, k0));
            }
        }
        let key = &entries[i].0;
        match find_key(updates, key.as_slice()) {
            Some(j) => {
                proof {
                    lemma_assoc_index(us, j as int);
                }
                match &updates[j].1 {
                    Some(v) => {
                        out.push((key.clone(), v.clone()));
                    },
                    None => {},
                }
            },
            None => {
                out.push((key.clone(), entries[i].1.clone()));
            },
        }
        proof {
            let after = pairs(out@);
            if after.len() > before.len() {
                assert(after.drop_last() =~= before);
                assert(after.last().0 == k0);
                assert forall|a: int, b: int| 0 <= a < after.len() && 0 <= b < after.len() && a != b
                    implies after[a].0 != after[b].0 by {
                    if a < before.len() && b < before.len() {
                        assert(after[a] == before[a] && after[b] == before[b]);
                    } else if a == before.len() {
                        assert(after[b] == before[b]);
                        assert(!key_in(before, k0));
                        assert(before[b].0 != k0);
                    } else {
                        assert(after[a] == before[a]);
                        assert(!key_in(before, k0));
                        assert(before[a].0 != k0);
                    }
                }
            } else {
                assert(after =~= before);
            }
            assert(assoc(after) =~= kept(es.subrange(0, i + 1), u));
        }
        i = i + 1;
    }
    proof {
        assert(es.subrange(0, i as int) =~= es);
        lemma_kept(es, u);
    }
    let ghost m1 = assoc(pairs(out@));
    let ghost existing = assoc(es);
    let mut n: usize = 0;
    proof {
        assert(us.subrange(0, 0) =~= Seq::<(Seq<u8>, Option<Seq<u8>>)>::empty());
        lemma_key_in_assoc(es);
    }
    while n < updates.len()
        invariant
            n <= updates@.len(),
            es == pairs(entries@),
            us == update_pairs(updates@),
            u == assoc(us),
            unique_keys(es),
            unique_keys(us),
            unique_keys(pairs(out@)),
            existing == assoc(es),
            forall|k: Seq<u8>| #[trigger] existing.contains_key(k) <==> key_in(es, k),
            forall|k: Seq<u8>| #[trigger] m1.contains_key(k) ==> key_in(es, k),
            assoc(pairs(out@)) == added(us.subrange(0, n as int), m1, existing),
        decreases updates@.len() - n,
    {
        let ghost before = pairs(out@);
        let ghost pre = us.subrange(0, n as int);
        let ghost k0 = us[n as int].0;
        proof {
            assert(us.subrange(0, n + 1).drop_last() =~= pre);
            assert(unique_keys(pre));
            lemma_added(pre, m1, existing);
            lemma_key_in_assoc(before);
            assert(!key_in(pre, k0)) by {
                if key_in(pre, k0) {
                    let j = choose|j: int| 0 <= j < pre.len() && pre[j].0 == k0;
                    assert(us[j].0 == k0);
                }
            }
        }
        match &updates[n].1 {
            Some(v) => {
                let key = &updates[n].0;
                match find_key(entries, key.as_slice()) {
                    Some(j) => {
                        assert(es[j as int].0 == k0);
                        assert(existing.contains_key(k0));
                    },
                    None => {
                        proof {
                            assert(!key_in(es, k0)) by {
                                if key_in(es, k0) {
                                    let j = choose|j: int| 0 <= j < es.len() && es[j].0 == k0;
                                    assert(entries@[j].0@ == k0);
                                }
                            }
                            if key_in(before, k0) {
                                assert(assoc(before).contains_key(k0));
                                assert(added(pre, m1, existing).contains_key(k0));
                                assert(key_in(pre, k0));
                            }
                        }
                        out.push((key.clone(), v.clone()));
                    },
                }
            },
            None => {},
        }
        proof {
            let after = pairs(out@);
            if after.len() > before.len() {
                assert(after.drop_last() =~= before);
                assert(after.last().0 == k0);
                assert forall|a: int, b: int| 0 <= a < after.len() && 0 <= b < after.len() && a != b
                    implies after[a].0 != after[b].0 by {
                    if a < before.len() && b < before.len() {
                        assert(after[a] == before[a] && after[b] == before[b]);
                    } else if a == before.len() {
                        assert(after[b] == before[b]);
                        assert(!key_in(before, k0));
                        assert(before[b].0 != k0);
                    } else {
                        assert(after[a] == before[a]);
                        assert(!key_in(before, k0));
                        assert(before[a].0 != k0);
                    }
                }
            } else {
                assert(after =~= before);
            }
            assert(assoc(after) =~= added(us.subrange(0, n + 1), m1, existing));
        }
        n = n + 1;
    }
    proof {
        assert(us.subrange(0, n as int) =~= us);
        lemma_added(us, m1, existing);
        lemma_key_in_assoc(us);
        assert forall|k: Seq<u8>| key_in(es, k) implies existing[k] == assoc(es)[k] by {}
        assert(assoc(pairs(out@)) =~= apply_updates(existing, u));
    }
    out
}

} // verus!
