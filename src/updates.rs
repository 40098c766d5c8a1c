//! Updates that wait for the next flush: for each scope, for each key,
//! the new value or its removal.
use vstd::prelude::*;
use crate::bytes::find_key;

verus! {

/// A list of pairs read as a map; a later pair wins over an earlier one.
pub open spec fn assoc<V>(s: Seq<(Seq<u8>, V)>) -> Map<Seq<u8>, V>
    decreases s.len(),
{
    if s.len() == 0 {
        Map::empty()
    } else {
        assoc(s.drop_last()).insert(s.last().0, s.last().1)
    }
}

pub open spec fn unique_keys<V>(s: Seq<(Seq<u8>, V)>) -> bool {
    forall|i: int, j: int| 0 <= i < s.len() && 0 <= j < s.len() && i != j ==> s[i].0 != s[j].0
}

pub proof fn lemma_assoc_index<V>(s: Seq<(Seq<u8>, V)>, i: int)
    requires
        unique_keys(s),
        0 <= i < s.len(),
    ensures
        assoc(s).contains_key(s[i].0),
        assoc(s)[s[i].0] == s[i].1,
    decreases s.len(),
{
    if i < s.len() - 1 {
        lemma_assoc_index(s.drop_last(), i);
    }
}

pub proof fn lemma_assoc_domain<V>(s: Seq<(Seq<u8>, V)>, k: Seq<u8>)
    ensures
        assoc(s).contains_key(k) <==> exists|i: int| 0 <= i < s.len() && s[i].0 == k,
    decreases s.len(),
{
    if s.len() > 0 {
        lemma_assoc_domain(s.drop_last(), k);
        if assoc(s.drop_last()).contains_key(k) {
            let i = choose|i: int| 0 <= i < s.drop_last().len() && s.drop_last()[i].0 == k;
            assert(s[i].0 == k);
        }
        if exists|i: int| 0 <= i < s.len() && s[i].0 == k {
            let i = choose|i: int| 0 <= i < s.len() && s[i].0 == k;
            if i < s.len() - 1 {
                assert(s.drop_last()[i].0 == k);
            }
        }
    }
}

/// Replacing the value of the pair at `i` replaces it in the map.
pub proof fn lemma_assoc_update<V>(s: Seq<(Seq<u8>, V)>, i: int, v: V)
    requires
        unique_keys(s),
        0 <= i < s.len(),
    ensures
        assoc(s.update(i, (s[i].0, v))) == assoc(s).insert(s[i].0, v),
        unique_keys(s.update(i, (s[i].0, v))),
    decreases s.len(),
{
    let t = s.update(i, (s[i].0, v));
    if i == s.len() - 1 {
        assert(t.drop_last() =~= s.drop_last());
        assert(assoc(s).insert(s[i].0, v) =~= assoc(s.drop_last()).insert(s[i].0, v));
    } else {
        lemma_assoc_update(s.drop_last(), i, v);
        assert(t.drop_last() =~= s.drop_last().update(i, (s[i].0, v)));
        assert(s.last().0 != s[i].0);
        assert(assoc(t) =~= assoc(s).insert(s[i].0, v));
    }
}

pub open spec fn opt_view(o: Option<Vec<u8>>) -> Option<Seq<u8>> {
    match o {
        Some(v) => Some(v@),
        None => None,
    }
}

pub open spec fn update_pairs(items: Seq<(Vec<u8>, Option<Vec<u8>>)>) -> Seq<(Seq<u8>, Option<Seq<u8>>)> {
    items.map_values(|p: (Vec<u8>, Option<Vec<u8>>)| (p.0@, opt_view(p.1)))
}

/// The pending updates of one scope: each key with its new value, or with
/// `None` where it is to be removed. Each key stands once.
pub struct ScopeUpdate {
    pub items: Vec<(Vec<u8>, Option<Vec<u8>>)>,
}

impl View for ScopeUpdate {
    type V = Map<Seq<u8>, Option<Seq<u8>>>;

    open spec fn view(&self) -> Map<Seq<u8>, Option<Seq<u8>>> {
        assoc(update_pairs(self.items@))
    }
}

impl ScopeUpdate {
    pub open spec fn wf(&self) -> bool {
        unique_keys(update_pairs(self.items@))
    }

    pub fn new() -> (r: ScopeUpdate)
        ensures
            r.wf(),
            r@ == Map::<Seq<u8>, Option<Seq<u8>>>::empty(),
            r.items@.len() == 0,
    {
        let r = ScopeUpdate { items: Vec::new() };
        assert(update_pairs(r.items@) =~= Seq::<(Seq<u8>, Option<Seq<u8>>)>::empty());
        r
    }

    /// Records `value` for `key`; a later call for the same key wins.
    pub fn insert(&mut self, key: Vec<u8>, value: Option<Vec<u8>>)
        requires
            old(self).wf(),
        ensures
            final(self).wf(),
            final(self)@ == old(self)@.insert(key@, opt_view(value)),
    {
        let ghost kv = key@;
        let ghost vv = opt_view(value);
        match find_key(&self.items, key.as_slice()) {
            Some(i) => {
                let ghost before = update_pairs(self.items@);
                self.items.set(i, (key, value));
                proof {
                    assert(update_pairs(self.items@) =~= before.update(i as int, (before[i as int].0, vv)));
                    lemma_assoc_update(before, i as int, vv);
                }
            },
            None => {
                let ghost before = update_pairs(self.items@);
                self.items.push((key, value));
                proof {
                    assert(update_pairs(self.items@) =~= before.push((kv, vv)));
                    assert(update_pairs(self.items@).drop_last() =~= before);
                    assert forall|a: int, b: int| 0 <= a < update_pairs(self.items@).len()
                        && 0 <= b < update_pairs(self.items@).len() && a != b
                        implies update_pairs(self.items@)[a].0 != update_pairs(self.items@)[b].0 by {
                        if a < before.len() && b < before.len() {
                        } else if a == before.len() {
                            assert(old(self).items@[b].0@ != kv);
                        } else {
                            assert(old(self).items@[a].0@ != kv);
                        }
                    }
                }
            },
        }
    }
}

/// The pending updates of all scopes, keyed by scope name.
pub struct ScopeUpdates {
    pub scopes: Vec<(Vec<u8>, ScopeUpdate)>,
}

pub open spec fn scope_pairs(s: Seq<(Vec<u8>, ScopeUpdate)>) -> Seq<(Seq<u8>, Map<Seq<u8>, Option<Seq<u8>>>)> {
    s.map_values(|p: (Vec<u8>, ScopeUpdate)| (p.0@, p.1@))
}

impl View for ScopeUpdates {
    type V = Map<Seq<u8>, Map<Seq<u8>, Option<Seq<u8>>>>;

    open spec fn view(&self) -> Map<Seq<u8>, Map<Seq<u8>, Option<Seq<u8>>>> {
        assoc(scope_pairs(self.scopes@))
    }
}

/// `m` with `value` recorded for `key` in `scope`.
pub open spec fn record(
    m: Map<Seq<u8>, Map<Seq<u8>, Option<Seq<u8>>>>,
    scope: Seq<u8>,
    key: Seq<u8>,
    value: Option<Seq<u8>>,
) -> Map<Seq<u8>, Map<Seq<u8>, Option<Seq<u8>>>> {
    let inner = if m.contains_key(scope) {
        m[scope]
    } else {
        Map::empty()
    };
    m.insert(scope, inner.insert(key, value))
}

impl ScopeUpdates {
    pub open spec fn wf(&self) -> bool {
        &&& unique_keys(scope_pairs(self.scopes@))
        &&& forall|i: int| 0 <= i < self.scopes@.len() ==> (#[trigger] self.scopes@[i]).1.wf()
    }

    pub fn new() -> (r: ScopeUpdates)
        ensures
            r.wf(),
            r@ == Map::<Seq<u8>, Map<Seq<u8>, Option<Seq<u8>>>>::empty(),
    {
        let r = ScopeUpdates { scopes: Vec::new() };
        assert(scope_pairs(r.scopes@) =~= Seq::<(Seq<u8>, Map<Seq<u8>, Option<Seq<u8>>>)>::empty());
        r
    }

    /// Records `value` (or the removal, for `None`) for `key` in `scope`.
    pub fn record(&mut self, scope: &[u8], key: Vec<u8>, value: Option<Vec<u8>>)
        requires
            old(self).wf(),
        ensures
            final(self).wf(),
            final(self)@ == record(old(self)@, scope@, key@, opt_view(value)),
    {
        let ghost before = scope_pairs(self.scopes@);
        proof {
            lemma_assoc_domain(before, scope@);
        }
        match find_key(&self.scopes, scope) {
            Some(i) => {
                proof {
                    lemma_assoc_index(before, i as int);
                }
                let mut entry = self.scopes.remove(i);
                let ghost removed = scope_pairs(self.scopes@);
                let ghost old_inner = entry.1@;
                assert(entry.1.wf()) by {
                    assert(old(self).scopes@[i as int] == entry);
                }
                entry.1.insert(key, value);
                let ghost new_inner = entry.1@;
                self.scopes.insert(i, entry);
                proof {
                    assert(scope_pairs(self.scopes@) =~= before.update(i as int, (before[i as int].0, new_inner)));
                    lemma_assoc_update(before, i as int, new_inner);
                    assert forall|j: int| 0 <= j < self.scopes@.len() implies (#[trigger] self.scopes@[j]).1.wf() by {
                        if j != i {
                            assert(self.scopes@[j] == old(self).scopes@[j]);
                        }
                    }
                }
            },
            None => {
                let mut inner = ScopeUpdate::new();
                inner.insert(key, value);
                let name = vstd::slice::slice_to_vec(scope);
                let ghost new_inner = inner@;
                self.scopes.push((name, inner));
                proof {
                    let after = scope_pairs(self.scopes@);
                    assert(after =~= before.push((scope@, new_inner)));
                    assert(after.drop_last() =~= before);
                    assert(Map::<Seq<u8>, Option<Seq<u8>>>::empty().insert(key@, opt_view(value)) == new_inner);
                    assert forall|a: int, b: int| 0 <= a < after.len() && 0 <= b < after.len() && a != b
                        implies after[a].0 != after[b].0 by {
                        if a < before.len() && b < before.len() {
                        } else if a == before.len() {
                            assert(before[b].0 != scope@);
                        } else {
                            assert(before[a].0 != scope@);
                        }
                    }
                    assert forall|j: int| 0 <= j < self.scopes@.len() implies (#[trigger] self.scopes@[j]).1.wf() by {
                        if j < old(self).scopes@.len() {
                            assert(self.scopes@[j] == old(self).scopes@[j]);
                        }
                    }
                }
            },
        }
    }

    /// Takes every pending update and leaves none behind.
    pub fn take(&mut self) -> (r: ScopeUpdates)
        requires
            old(self).wf(),
        ensures
            r.wf(),
            r@ == old(self)@,
            final(self).wf(),
            final(self)@ == Map::<Seq<u8>, Map<Seq<u8>, Option<Seq<u8>>>>::empty(),
    {
        let mut taken: Vec<(Vec<u8>, ScopeUpdate)> = Vec::new();
        core::mem::swap(&mut self.scopes, &mut taken);
        let r = ScopeUpdates { scopes: taken };
        assert(scope_pairs(self.scopes@) =~= Seq::<(Seq<u8>, Map<Seq<u8>, Option<Seq<u8>>>)>::empty());
        r
    }
}

} // verus!
