//! The storage: updates wait in memory until `idle` flushes them, scope by
//! scope, into pack files.
use vstd::prelude::*;
use vstd::string::StringSliceAdditionalSpecFns;
use crate::bucket::bucket_of;
use crate::bytes::{find_key, join3};

use crate::load::{empty_scope, load_scope, make_meta_path, meta_path, read_scope_from, scope_stored, LoadedScope};
use crate::memory_fs::{is_under, PackMemoryFs};
use crate::merge::{apply_updates, key_in, pairs};
use crate::meta::{encode_meta, Meta};
use crate::pack::Pack;
use crate::scope::{flush_scope, metas_in_step, scope_content, scope_wf, untouched, PackOptions};
use crate::split::group_ok;
use crate::strategy::meta_of;
use crate::strategy::{bucket_entries, SLASH};
use crate::updates::{assoc, lemma_assoc_domain, lemma_assoc_index, lemma_assoc_update, record, scope_pairs, unique_keys, ScopeUpdate, ScopeUpdates};

verus! {

/// Where a storage keeps its files and how it cuts them.
pub struct PackStorageOptions {
    pub root: Vec<u8>,
    pub temp_root: Vec<u8>,
    pub bucket_size: usize,
    pub pack_size: usize,
    pub expire: u64,
}

/// A pack storage over files held in memory.
pub struct PackStorage {
    pub options: PackOptions,
    pub root: Vec<u8>,
    pub temp_root: Vec<u8>,
    pub fs: PackMemoryFs,
    pub scopes: Vec<(Vec<u8>, LoadedScope)>,
    pub updates: ScopeUpdates,
}

pub open spec fn loaded_pairs(s: Seq<(Vec<u8>, LoadedScope)>, bucket_size: nat) -> Seq<(Seq<u8>, Map<Seq<u8>, Seq<u8>>)> {
    s.map_values(|p: (Vec<u8>, LoadedScope)| (p.0@, scope_content(p.1.packs@, bucket_size)))
}

/// `path` inside the directory `dir`.
pub open spec fn join(dir: Seq<u8>, path: Seq<u8>) -> Seq<u8> {
    dir.push(SLASH) + path
}

/// In each bucket of `s` that `u` touched, every pack holds at least one
/// pair, keeps to `pack_size` unless it is a single pair, and agrees with
/// its meta entry.
pub open spec fn flushed_ok(s: LoadedScope, u: Map<Seq<u8>, Option<Seq<u8>>>, options: PackOptions) -> bool {
    forall|b: int, i: int| 0 <= b < s.packs@.len() && !untouched(u, b as nat, options.bucket_size as nat) && 0 <= i
        < s.packs@[b]@.len() ==> group_ok(
        (#[trigger] s.packs@[b]@[i].key_views(), s.packs@[b]@[i].content_views()),
        options.pack_size as nat,
    ) && meta_of(s.metas@[b]@[i], s.packs@[b]@[i])
}

impl PackStorage {
    /// The contents of the scopes read so far, by name.
    pub open spec fn contents(&self) -> Map<Seq<u8>, Map<Seq<u8>, Seq<u8>>> {
        assoc(loaded_pairs(self.scopes@, self.options.bucket_size as nat))
    }

    /// The updates that wait for the next flush.
    pub open spec fn pending(&self) -> Map<Seq<u8>, Map<Seq<u8>, Option<Seq<u8>>>> {
        self.updates@
    }

    pub open spec fn wf(&self) -> bool {
        &&& self.options.wf()
        &&& self.fs.wf()
        &&& self.updates.wf()
        &&& dirs_apart(self.root@, self.temp_root@)
        &&& unique_keys(loaded_pairs(self.scopes@, self.options.bucket_size as nat))
        &&& forall|i: int| 0 <= i < self.scopes@.len() ==> scope_wf(
            (#[trigger] self.scopes@[i]).1.packs@,
            self.options.bucket_size as nat,
        ) && self.scopes@[i].1.metas@.len() == self.options.bucket_size && metas_in_step(
            self.scopes@[i].1.packs@,
            self.scopes@[i].1.metas@,
        )
    }

    /// A storage with its own empty file store.
    pub fn new(options: PackStorageOptions) -> (r: PackStorage)
        requires
            options.bucket_size >= 1,
            options.pack_size > 0,
            dirs_apart(options.root@, options.temp_root@),
        ensures
            r.wf(),
            r.contents() == Map::<Seq<u8>, Map<Seq<u8>, Seq<u8>>>::empty(),
            r.pending() == Map::<Seq<u8>, Map<Seq<u8>, Option<Seq<u8>>>>::empty(),
            r.fs@ == Map::<Seq<u8>, Seq<u8>>::empty(),
            r.root == options.root,
            r.temp_root == options.temp_root,
    {
        Self::with_fs(options, PackMemoryFs::new())
    }

    /// A storage over the files of `fs`, as a later process finds them.
    pub fn with_fs(options: PackStorageOptions, fs: PackMemoryFs) -> (r: PackStorage)
        requires
            options.bucket_size >= 1,
            options.pack_size > 0,
            dirs_apart(options.root@, options.temp_root@),
            fs.wf(),
        ensures
            r.wf(),
            r.contents() == Map::<Seq<u8>, Map<Seq<u8>, Seq<u8>>>::empty(),
            r.pending() == Map::<Seq<u8>, Map<Seq<u8>, Option<Seq<u8>>>>::empty(),
            r.fs@ == fs@,
            r.root == options.root,
            r.temp_root == options.temp_root,
    {
        let r = PackStorage {
            options: PackOptions {
                bucket_size: options.bucket_size,
                pack_size: options.pack_size,
                expire: options.expire,
            },
            root: options.root,
            temp_root: options.temp_root,
            fs,
            scopes: Vec::new(),
            updates: ScopeUpdates::new(),
        };
        assert(loaded_pairs(r.scopes@, r.options.bucket_size as nat) =~= Seq::<(Seq<u8>, Map<Seq<u8>, Seq<u8>>)>::empty());
        r
    }

    /// Records `value` for `key` in `scope`, for the next flush. Nothing
    /// is read or written.
    pub fn set(&mut self, scope: &str, key: Vec<u8>, value: Vec<u8>)
        requires
            old(self).wf(),
        ensures
            final(self).wf(),
            final(self).pending() == record(old(self).pending(), scope.spec_bytes(), key@, Some(value@)),
            final(self).contents() == old(self).contents(),
            final(self).fs@ == old(self).fs@,
    {
        self.updates.record(scope.as_bytes(), key, Some(value));
    }

    /// Records the removal of `key` from `scope`, for the next flush.
    /// Nothing is read or written.
    pub fn remove(&mut self, scope: &str, key: &[u8])
        requires
            old(self).wf(),
        ensures
            final(self).wf(),
            final(self).pending() == record(old(self).pending(), scope.spec_bytes(), key@, None),
            final(self).contents() == old(self).contents(),
            final(self).fs@ == old(self).fs@,
    {
        self.updates.record(scope.as_bytes(), vstd::slice::slice_to_vec(key), None);
    }

    /// The index of scope `name`, read from the files first where it has
    /// not been read yet.
    fn ensure_loaded(&mut self, name: &[u8]) -> (r: usize)
        requires
            old(self).wf(),
        ensures
            final(self).wf(),
            r < final(self).scopes@.len(),
            final(self).scopes@[r as int].0@ == name@,
            final(self).contents().contains_key(name@),
            old(self).contents().contains_key(name@) ==> final(self).contents() == old(self).contents(),
            !old(self).contents().contains_key(name@) ==> final(self).contents().remove(name@) == old(self).contents(),
            !old(self).contents().contains_key(name@) && !old(self).fs@.contains_key(join(old(self).root@, meta_path(name@)))
                ==> final(self).contents()[name@] == Map::<Seq<u8>, Seq<u8>>::empty(),
            !old(self).contents().contains_key(name@) && scope_stored(old(self).fs@, old(self).root@, name@, old(self).options.bucket_size)
                ==> read_scope_from(old(self).fs@, old(self).root@, name@, old(self).options.bucket_size, final(self).scopes@[r as int].1),
            final(self).pending() == old(self).pending(),
            final(self).fs@ == old(self).fs@,
            final(self).root == old(self).root,
            final(self).temp_root == old(self).temp_root,
            final(self).options == old(self).options,
            final(self).scopes@.len() >= old(self).scopes@.len(),
            forall|j: int| 0 <= j < old(self).scopes@.len() ==> final(self).scopes@[j] == old(self).scopes@[j],
    {
        let ghost bs = self.options.bucket_size as nat;
        let ghost lp = loaded_pairs(self.scopes@, bs);
        proof {
            lemma_assoc_domain(lp, name@);
        }
        match find_key(&self.scopes, name) {
            Some(i) => {
                assert(lp[i as int].0 == name@);
                i
            },
            None => {
                let dir = vstd::slice::slice_to_vec(name);
                let loaded = load_scope(&self.fs, &self.root, &dir, &self.options);
                let ghost content = scope_content(loaded.packs@, bs);
                self.scopes.push((vstd::slice::slice_to_vec(name), loaded));
                proof {
                    let after = loaded_pairs(self.scopes@, bs);
                    assert(after =~= lp.push((name@, content)));
                    assert(after.drop_last() =~= lp);
                    assert forall|j: int| 0 <= j < lp.len() implies lp[j].0 != name@ by {
                        assert(old(self).scopes@[j].0@ != name@);
                    }
                    assert forall|a: int, b: int| 0 <= a < after.len() && 0 <= b < after.len() && a != b
                        implies after[a].0 != after[b].0 by {
                        if a < lp.len() && b < lp.len() {
                            assert(after[a] == lp[a] && after[b] == lp[b]);
                        } else if a == lp.len() {
                            assert(after[b] == lp[b]);
                        } else {
                            assert(after[a] == lp[a]);
                        }
                    }
                    assert forall|j: int| 0 <= j < self.scopes@.len() implies scope_wf(
                        (#[trigger] self.scopes@[j]).1.packs@,
                        bs,
                    ) && self.scopes@[j].1.metas@.len() == self.options.bucket_size && metas_in_step(
                    self.scopes@[j].1.packs@,
                    self.scopes@[j].1.metas@,
                ) by {
                        if j < lp.len() {
                            assert(self.scopes@[j] == old(self).scopes@[j]);
                        }
                    }
                    assert(self.contents() == old(self).contents().insert(name@, content));
                    assert(self.contents().remove(name@) =~= old(self).contents());
                }
                self.scopes.len() - 1
            },
        }
    }

    /// Flushes every pending update: each scope they touch is read first
    /// where it has not been, then flushed, and its files are staged under
    /// the temp root, moved into the root and the files no longer listed
    /// removed. `now` is the time of the flush, kept in the meta files.
    /// Afterwards no update is pending.
    pub fn idle(&mut self, now: u64)
        requires
            old(self).wf(),
        ensures
            final(self).wf(),
            final(self).pending() == Map::<Seq<u8>, Map<Seq<u8>, Option<Seq<u8>>>>::empty(),
            forall|name: Seq<u8>| #[trigger] old(self).pending().contains_key(name) ==> final(self).contents().contains_key(name),
            forall|name: Seq<u8>| #[trigger] old(self).pending().contains_key(name) && old(self).contents().contains_key(name)
                ==> final(self).contents()[name] == apply_updates(old(self).contents()[name], old(self).pending()[name]),
            forall|name: Seq<u8>| #[trigger] old(self).pending().contains_key(name) && !old(self).contents().contains_key(name)
                && !old(self).fs@.contains_key(join(old(self).root@, meta_path(name))) ==> final(self).contents()[name]
                == apply_updates(Map::empty(), old(self).pending()[name]),
            forall|name: Seq<u8>| !old(self).pending().contains_key(name) ==> (#[trigger] final(self).contents().contains_key(name)
                == old(self).contents().contains_key(name)) && (old(self).contents().contains_key(name)
                ==> final(self).contents()[name] == old(self).contents()[name]),
            old(self).pending() == Map::<Seq<u8>, Map<Seq<u8>, Option<Seq<u8>>>>::empty() ==> final(self).fs@ == old(self).fs@,
            forall|name: Seq<u8>| #[trigger] old(self).pending().contains_key(name) ==> exists|j: int| 0 <= j < final(self).scopes@.len()
                && final(self).scopes@[j].0@ == name && flushed_ok(final(self).scopes@[j].1, old(self).pending()[name], final(self).options),
            same_outside_both(old(self).fs@, final(self).fs@, old(self).root@, old(self).temp_root@),
            final(self).root@ == old(self).root@,
            final(self).temp_root@ == old(self).temp_root@,
    {
        let pending = self.updates.take();
        let ghost p = pending@;
        let ghost c0 = self.contents();
        let ghost fs0 = self.fs@;
        let ghost root0 = self.root@;
        let ghost opts0 = self.options;
        let ghost temp0 = self.temp_root@;
        let ghost sp = scope_pairs(pending.scopes@);
        let mut i: usize = 0;
        while i < pending.scopes.len()
            invariant
                i <= pending.scopes@.len(),
                self.wf(),
                pending.wf(),
                p == pending@,
                sp == scope_pairs(pending.scopes@),
                self.fs@ == fs0,
                self.root@ == root0,
                self.temp_root@ == temp0,
                self.options == opts0,
                self.pending() == Map::<Seq<u8>, Map<Seq<u8>, Option<Seq<u8>>>>::empty(),
                forall|j: int| 0 <= j < i ==> self.contents().contains_key(#[trigger] sp[j].0),
                forall|name: Seq<u8>| #[trigger] c0.contains_key(name) ==> self.contents().contains_key(name)
                    && self.contents()[name] == c0[name],
                forall|name: Seq<u8>| #[trigger] self.contents().contains_key(name) && !c0.contains_key(name)
                    ==> exists|j: int| 0 <= j < i && sp[j].0 == name,
                forall|name: Seq<u8>| #[trigger] self.contents().contains_key(name) && !c0.contains_key(name)
                    && !fs0.contains_key(join(root0, meta_path(name))) ==> self.contents()[name] == Map::<Seq<u8>, Seq<u8>>::empty(),
            decreases pending.scopes@.len() - i,
        {
            let ghost before = self.contents();
            self.ensure_loaded(pending.scopes[i].0.as_slice());
            proof {
                assert(sp[i as int].0 == pending.scopes@[i as int].0@);
                assert forall|name: Seq<u8>| #[trigger] self.contents().contains_key(name) && !c0.contains_key(name)
                    implies exists|j: int| 0 <= j < i + 1 && sp[j].0 == name by {
                    if name != sp[i as int].0 {
                        assert(before.contains_key(name));
                    }
                }
            }
            i = i + 1;
        }
        assert(sp.len() == pending.scopes@.len());
        assert(i == sp.len());
        let ghost c1 = self.contents();
        let mut n: usize = 0;
        while n < pending.scopes.len()
            invariant
                n <= pending.scopes@.len(),
                n == 0 ==> self.fs@ == fs0,
                self.options == opts0,
                self.root@ == root0,
                self.temp_root@ == temp0,
                same_outside_both(fs0, self.fs@, root0, temp0),
                forall|m: int| 0 <= m < n ==> exists|j: int| 0 <= j < self.scopes@.len() && self.scopes@[j].0@ == (#[trigger] sp[m]).0
                    && flushed_ok(self.scopes@[j].1, sp[m].1, opts0),
                self.wf(),
                pending.wf(),
                p == pending@,
                sp == scope_pairs(pending.scopes@),
                unique_keys(sp),
                self.pending() == Map::<Seq<u8>, Map<Seq<u8>, Option<Seq<u8>>>>::empty(),
                self.contents().dom() == c1.dom(),
                forall|j: int| 0 <= j < sp.len() ==> c1.contains_key(#[trigger] sp[j].0),
                forall|j: int| 0 <= j < n ==> self.contents()[#[trigger] sp[j].0] == apply_updates(c1[sp[j].0], sp[j].1),
                forall|name: Seq<u8>| #[trigger] c1.contains_key(name) && !key_in(sp.subrange(0, n as int), name)
                    ==> self.contents()[name] == c1[name],
                forall|name: Seq<u8>| #[trigger] c1.contains_key(name) && !c0.contains_key(name)
                    ==> exists|j: int| 0 <= j < sp.len() && sp[j].0 == name,
                forall|name: Seq<u8>| #[trigger] c0.contains_key(name) ==> c1.contains_key(name) && c1[name] == c0[name],
                forall|name: Seq<u8>| #[trigger] c1.contains_key(name) && !c0.contains_key(name)
                    && !fs0.contains_key(join(root0, meta_path(name))) ==> c1[name] == Map::<Seq<u8>, Seq<u8>>::empty(),
            decreases pending.scopes@.len() - n,
        {
            let ghost before = self.contents();
            let ghost sc0 = self.scopes@;
            let ghost f0 = self.fs@;
            let idx = self.ensure_loaded(pending.scopes[n].0.as_slice());
            let ghost sc1 = self.scopes@;
            self.flush_one(idx, &pending.scopes[n].1, now);
            proof {
                assert forall|q: Seq<u8>| !is_under(root0, q) && !is_under(temp0, q) implies #[trigger] self.fs@.contains_key(q)
                    == fs0.contains_key(q) && (fs0.contains_key(q) ==> self.fs@[q] == fs0[q]) by {
                    assert(f0.contains_key(q) == fs0.contains_key(q));
                    assert(self.fs@.contains_key(q) == f0.contains_key(q));
                }
                assert forall|m: int| 0 <= m < n + 1 implies exists|j: int| 0 <= j < self.scopes@.len() && self.scopes@[j].0@
                    == (#[trigger] sp[m]).0 && flushed_ok(self.scopes@[j].1, sp[m].1, opts0) by {
                    if m < n {
                        let j = choose|j: int| 0 <= j < sc0.len() && sc0[j].0@ == sp[m].0 && flushed_ok(sc0[j].1, sp[m].1, opts0);
                        assert(sc1[j] == sc0[j]);
                        if j == idx {
                            assert(sc1[idx as int].0@ == sp[n as int].0);
                            assert(m != n);
                        }
                        assert(self.scopes@[j] == sc1[j]);
                    } else {
                        assert(self.scopes@[idx as int].0@ == sp[n as int].0);
                        assert(sp[n as int].1 == pending.scopes@[n as int].1@);
                    }
                }
                let name = sp[n as int].0;
                assert(pending.scopes@[n as int].1.wf());
                assert(name == pending.scopes@[n as int].0@);
                assert(sp[n as int].1 == pending.scopes@[n as int].1@);
                assert(self.contents() == before.insert(name, apply_updates(before[name], sp[n as int].1)));
                assert(!key_in(sp.subrange(0, n as int), name)) by {
                    if key_in(sp.subrange(0, n as int), name) {
                        let j = choose|j: int| 0 <= j < n && sp.subrange(0, n as int)[j].0 == name;
                        assert(sp[j].0 == name);
                    }
                }
                assert(before[name] == c1[name]);
                assert forall|nm: Seq<u8>| #[trigger] c1.contains_key(nm) && !key_in(sp.subrange(0, n + 1), nm)
                    implies self.contents()[nm] == c1[nm] by {
                    if key_in(sp.subrange(0, n as int), nm) {
                        let j = choose|j: int| 0 <= j < n && sp.subrange(0, n as int)[j].0 == nm;
                        assert(sp.subrange(0, n + 1)[j].0 == nm);
                    }
                    assert(sp.subrange(0, n + 1)[n as int].0 == name);
                }
                assert forall|j: int| 0 <= j < n + 1 implies self.contents()[#[trigger] sp[j].0] == apply_updates(c1[sp[j].0], sp[j].1) by {
                    if j < n {
                        assert(sp[j].0 != name);
                    }
                }
                assert(self.contents().dom() =~= c1.dom());
            }
            n = n + 1;
        }
        proof {
            assert forall|name: Seq<u8>| #[trigger] p.contains_key(name) implies exists|j: int| 0 <= j < sp.len() && sp[j].0 == name by {
                lemma_assoc_domain(sp, name);
            }
            assert forall|name: Seq<u8>| #[trigger] p.contains_key(name) implies exists|j: int| 0 <= j < self.scopes@.len()
                && self.scopes@[j].0@ == name && flushed_ok(self.scopes@[j].1, p[name], self.options) by {
                lemma_assoc_domain(sp, name);
                let m = choose|m: int| 0 <= m < sp.len() && sp[m].0 == name;
                lemma_assoc_index(sp, m);
            }
            assert forall|name: Seq<u8>| #[trigger] p.contains_key(name) implies self.contents().contains_key(name)
                && self.contents()[name] == apply_updates(c1[name], p[name]) by {
                lemma_assoc_domain(sp, name);
                let j = choose|j: int| 0 <= j < sp.len() && sp[j].0 == name;
                lemma_assoc_index(sp, j);
            }
            assert(sp.len() == pending.scopes@.len());
            assert(n == sp.len());
            if p == Map::<Seq<u8>, Map<Seq<u8>, Option<Seq<u8>>>>::empty() && sp.len() > 0 {
                lemma_assoc_index(sp, 0);
                assert(p.contains_key(sp[0].0));
            }
            assert(sp.subrange(0, n as int) =~= sp);
            assert forall|name: Seq<u8>| !p.contains_key(name) && #[trigger] c1.contains_key(name) implies self.contents()[name] == c1[name] by {
                lemma_assoc_domain(sp, name);
            }
            assert forall|name: Seq<u8>| !p.contains_key(name) implies (#[trigger] self.contents().contains_key(name)
                == c0.contains_key(name)) by {
                lemma_assoc_domain(sp, name);
                if c1.contains_key(name) && !c0.contains_key(name) {
                    let j = choose|j: int| 0 <= j < sp.len() && sp[j].0 == name;
                    assert(false);
                }
            }
        }
    }

    /// Flushes `upd` into the loaded scope at `idx` and writes its files.
    fn flush_one(&mut self, idx: usize, upd: &ScopeUpdate, now: u64)
        requires
            old(self).wf(),
            idx < old(self).scopes@.len(),
            upd.wf(),
        ensures
            final(self).wf(),
            final(self).contents() == old(self).contents().insert(
                old(self).scopes@[idx as int].0@,
                apply_updates(old(self).contents()[old(self).scopes@[idx as int].0@], upd@),
            ),
            final(self).pending() == old(self).pending(),
            final(self).root == old(self).root,
            final(self).options == old(self).options,
            final(self).scopes@.len() == old(self).scopes@.len(),
            forall|j: int| 0 <= j < old(self).scopes@.len() && j != idx ==> final(self).scopes@[j] == old(self).scopes@[j],
            final(self).scopes@[idx as int].0 == old(self).scopes@[idx as int].0,
            flushed_ok(final(self).scopes@[idx as int].1, upd@, final(self).options),
            final(self).temp_root == old(self).temp_root,
            same_outside_both(old(self).fs@, final(self).fs@, old(self).root@, old(self).temp_root@),
    {
        let ghost bs = self.options.bucket_size as nat;
        let ghost lp = loaded_pairs(self.scopes@, bs);
        proof {
            lemma_assoc_index(lp, idx as int);
        }
        let mut slot: (Vec<u8>, LoadedScope) = (Vec::new(), empty_scope(self.options.bucket_size));
        self.scopes.set_and_swap(idx, &mut slot);
        let (name, loaded) = slot;
        assert(name@ == lp[idx as int].0);
        let ghost prev_content = scope_content(loaded.packs@, bs);
        let flushed = flush_scope(loaded.packs, loaded.metas, upd, &self.options, &name);
        let mut wrote: Vec<(Vec<u8>, Vec<u8>)> = Vec::new();
        let mut removed: Vec<Vec<u8>> = Vec::new();
        let mut b: usize = 0;
        while b < flushed.wrote.len()
            decreases flushed.wrote@.len() - b,
        {
            let mut k: usize = 0;
            while k < flushed.wrote[b].len()
                invariant
                    b < flushed.wrote@.len(),
                decreases flushed.wrote@[b as int]@.len() - k,
            {
                wrote.push((flushed.wrote[b][k].0.clone(), flushed.wrote[b][k].1.clone()));
                k = k + 1;
            }
            b = b + 1;
        }
        let mut b: usize = 0;
        while b < flushed.removed.len()
            decreases flushed.removed@.len() - b,
        {
            let mut k: usize = 0;
            while k < flushed.removed[b].len()
                invariant
                    b < flushed.removed@.len(),
                decreases flushed.removed@[b as int]@.len() - k,
            {
                removed.push(flushed.removed[b][k].clone());
                k = k + 1;
            }
            b = b + 1;
        }
        if flushed.touched {
            let meta = Meta {
                bucket_size: self.options.bucket_size,
                pack_size: self.options.pack_size,
                timestamp: now,
                packs: flushed.metas,
            };
            let meta_bytes = encode_meta(&meta);
            let meta_rel = make_meta_path(&name);
            stage_files(&mut self.fs, &self.temp_root, &wrote, &meta_rel, meta_bytes);
            commit_files(&mut self.fs, &self.root, &self.temp_root, &wrote, &meta_rel, &removed);
            let ghost new_content = scope_content(flushed.packs@, bs);
            self.scopes.set(idx, (name, LoadedScope { packs: flushed.packs, metas: meta.packs }));
            proof {
                assert(loaded_pairs(self.scopes@, bs) =~= lp.update(idx as int, (lp[idx as int].0, new_content)));
                lemma_flush_one_view(lp, loaded_pairs(self.scopes@, bs), idx as int, new_content);
                assert forall|j: int| 0 <= j < self.scopes@.len() implies scope_wf(
                    (#[trigger] self.scopes@[j]).1.packs@,
                    bs,
                ) && self.scopes@[j].1.metas@.len() == self.options.bucket_size && metas_in_step(
                    self.scopes@[j].1.packs@,
                    self.scopes@[j].1.metas@,
                ) by {
                    if j != idx {
                        assert(self.scopes@[j] == old(self).scopes@[j]);
                    }
                }
            }
        } else {
            let ghost new_content = scope_content(flushed.packs@, bs);
            self.scopes.set(idx, (name, LoadedScope { packs: flushed.packs, metas: flushed.metas }));
            proof {
                assert(loaded_pairs(self.scopes@, bs) =~= lp.update(idx as int, (lp[idx as int].0, new_content)));
                lemma_flush_one_view(lp, loaded_pairs(self.scopes@, bs), idx as int, new_content);
                assert forall|j: int| 0 <= j < self.scopes@.len() implies scope_wf(
                    (#[trigger] self.scopes@[j]).1.packs@,
                    bs,
                ) && self.scopes@[j].1.metas@.len() == self.options.bucket_size && metas_in_step(
                    self.scopes@[j].1.packs@,
                    self.scopes@[j].1.metas@,
                ) by {
                    if j != idx {
                        assert(self.scopes@[j] == old(self).scopes@[j]);
                    }
                }
            }
        }
    }

    /// Every pair of `scope` as the last flush left it; pending updates
    /// are not seen. A scope not read yet is read from the files first.
    pub fn get_all(&mut self, scope: &str) -> (r: Vec<(Vec<u8>, Vec<u8>)>)
        requires
            old(self).wf(),
        ensures
            final(self).wf(),
            final(self).contents().contains_key(scope.spec_bytes()),
            unique_keys(pairs(r@)),
            assoc(pairs(r@)) == final(self).contents()[scope.spec_bytes()],
            old(self).contents().contains_key(scope.spec_bytes()) ==> final(self).contents() == old(self).contents(),
            !old(self).contents().contains_key(scope.spec_bytes()) && !old(self).fs@.contains_key(
                join(old(self).root@, meta_path(scope.spec_bytes())),
            ) ==> final(self).contents()[scope.spec_bytes()] == Map::<Seq<u8>, Seq<u8>>::empty(),
            !old(self).contents().contains_key(scope.spec_bytes()) && scope_stored(old(self).fs@, old(self).root@, scope.spec_bytes(), old(self).options.bucket_size)
                ==> exists|i: int| 0 <= i < final(self).scopes@.len() && final(self).scopes@[i].0@ == scope.spec_bytes()
                && read_scope_from(old(self).fs@, old(self).root@, scope.spec_bytes(), old(self).options.bucket_size, final(self).scopes@[i].1),
            final(self).pending() == old(self).pending(),
            final(self).fs@ == old(self).fs@,
    {
        let name = scope.as_bytes();
        let i = self.ensure_loaded(name);
        let ghost bs = self.options.bucket_size as nat;
        proof {
            lemma_assoc_index(loaded_pairs(self.scopes@, bs), i as int);
        }
        let r = collect_scope(&self.scopes[i].1, self.options.bucket_size);
        r
    }
}

/// Neither directory lies inside the other, nor are they the same.
pub open spec fn dirs_apart(a: Seq<u8>, b: Seq<u8>) -> bool {
    !a.push(SLASH).is_prefix_of(b.push(SLASH)) && !b.push(SLASH).is_prefix_of(a.push(SLASH))
}

/// Whether `a` is a prefix of `b`.
fn is_prefix(a: &[u8], b: &[u8]) -> (r: bool)
    ensures
        r == a@.is_prefix_of(b@),
{
    if a.len() > b.len() {
        return false;
    }
    let mut i: usize = 0;
    while i < a.len()
        invariant
            i <= a@.len(),
            a@.len() <= b@.len(),
            forall|j: int| 0 <= j < i ==> a@[j] == b@[j],
        decreases a@.len() - i,
    {
        if a[i] != b[i] {
            return false;
        }
        i = i + 1;
    }
    true
}

/// Whether the directories `a` and `b` lie apart: neither inside the
/// other, nor the same.
pub fn check_dirs_apart(a: &[u8], b: &[u8]) -> (r: bool)
    ensures
        r == dirs_apart(a@, b@),
{
    let mut x = vstd::slice::slice_to_vec(a);
    x.push(SLASH);
    let mut y = vstd::slice::slice_to_vec(b);
    y.push(SLASH);
    !is_prefix(x.as_slice(), y.as_slice()) && !is_prefix(y.as_slice(), x.as_slice())
}

/// `after` agrees with `before` on every path outside `dir`.
pub open spec fn same_outside(before: Map<Seq<u8>, Seq<u8>>, after: Map<Seq<u8>, Seq<u8>>, dir: Seq<u8>) -> bool {
    forall|p: Seq<u8>|
        #![trigger after.contains_key(p)]
        #![trigger after[p]]
        !is_under(dir, p) ==> after.contains_key(p) == before.contains_key(p) && (before.contains_key(p) ==> after[p]
            == before[p])
}

/// `after` agrees with `before` on every path outside both `a` and `b`.
pub open spec fn same_outside_both(
    before: Map<Seq<u8>, Seq<u8>>,
    after: Map<Seq<u8>, Seq<u8>>,
    a: Seq<u8>,
    b: Seq<u8>,
) -> bool {
    forall|p: Seq<u8>|
        #![trigger after.contains_key(p)]
        #![trigger after[p]]
        !is_under(a, p) && !is_under(b, p) ==> after.contains_key(p) == before.contains_key(p) && (before.contains_key(p)
            ==> after[p] == before[p])
}

proof fn lemma_joined_under(dir: Seq<u8>, rel: Seq<u8>)
    ensures
        is_under(dir, dir.push(SLASH) + rel),
{
    assert((dir.push(SLASH) + rel).subrange(0, dir.len() as int + 1) =~= dir.push(SLASH));
}

/// Writes the new packs and the new meta file of a flush into the staging
/// directory `temp_root`; nothing outside it is touched.
fn stage_files(
    fs: &mut PackMemoryFs,
    temp_root: &Vec<u8>,
    wrote: &Vec<(Vec<u8>, Vec<u8>)>,
    meta_rel: &Vec<u8>,
    meta_bytes: Vec<u8>,
)
    requires
        old(fs).wf(),
    ensures
        final(fs).wf(),
        same_outside(old(fs)@, final(fs)@, temp_root@),
{
    let mut i: usize = 0;
    while i < wrote.len()
        invariant
            fs.wf(),
            same_outside(old(fs)@, fs@, temp_root@),
        decreases wrote@.len() - i,
    {
        let staged = join3(temp_root.as_slice(), SLASH, wrote[i].0.as_slice());
        proof {
            assert(staged@.subrange(0, temp_root@.len() as int + 1) =~= temp_root@.push(SLASH));
        }
        let ghost f0 = fs@;
        fs.write_file(staged.as_slice(), wrote[i].1.clone());
        proof {
            assert(is_under(temp_root@, staged@));
            assert forall|p: Seq<u8>| !is_under(temp_root@, p) implies p != staged@ by {}
        }
        i = i + 1;
    }
    let staged_meta = join3(temp_root.as_slice(), SLASH, meta_rel.as_slice());
    proof {
        assert(staged_meta@.subrange(0, temp_root@.len() as int + 1) =~= temp_root@.push(SLASH));
    }
    fs.write_file(staged_meta.as_slice(), meta_bytes);
    proof {
        assert(is_under(temp_root@, staged_meta@));
    }
}

/// A file under `root` is no file under `temp_root` where the two
/// directories lie apart.
pub proof fn lemma_apart_paths(root: Seq<u8>, temp_root: Seq<u8>, rel: Seq<u8>)
    requires
        dirs_apart(root, temp_root),
    ensures
        !is_under(temp_root, join(root, rel)),
{
    let p = join(root, rel);
    let a = root.push(SLASH);
    let b = temp_root.push(SLASH);
    if is_under(temp_root, p) {
        assert(p.subrange(0, a.len() as int) =~= a);
        if a.len() <= b.len() {
            assert forall|i: int| 0 <= i < a.len() implies a[i] == b[i] by {
                assert(p.subrange(0, b.len() as int)[i] == p[i]);
                assert(p.subrange(0, a.len() as int)[i] == p[i]);
            }
            assert(a.is_prefix_of(b));
        } else {
            assert forall|i: int| 0 <= i < b.len() implies b[i] == a[i] by {
                assert(p.subrange(0, b.len() as int)[i] == p[i]);
                assert(p.subrange(0, a.len() as int)[i] == p[i]);
            }
            assert(b.is_prefix_of(a));
        }
    }
}

/// Staging a flush leaves every file of the storage root as it was: where
/// the process stops after the new packs are written and before the meta
/// file is replaced, the old meta file and every pack it lists (each a path
/// `rel` under `root`) still stand, unchanged.
pub proof fn lemma_crash_after_staging(
    before: Map<Seq<u8>, Seq<u8>>,
    after: Map<Seq<u8>, Seq<u8>>,
    root: Seq<u8>,
    temp_root: Seq<u8>,
    rel: Seq<u8>,
)
    requires
        dirs_apart(root, temp_root),
        same_outside(before, after, temp_root),
    ensures
        after.contains_key(join(root, rel)) == before.contains_key(join(root, rel)),
        before.contains_key(join(root, rel)) ==> after[join(root, rel)] == before[join(root, rel)],
{
    lemma_apart_paths(root, temp_root, rel);
    assert(!is_under(temp_root, join(root, rel)));
    if before.contains_key(join(root, rel)) {
        assert(after[join(root, rel)] == before[join(root, rel)]);
    }
}

/// Moves the staged files into `root`: first the packs whose files are
/// new, then the meta file, then packs that replace a file of the same
/// path; last it removes the files that the new meta file no longer lists.
/// Until the meta file is moved, no file that stood under `root` changes.
fn commit_files(
    fs: &mut PackMemoryFs,
    root: &Vec<u8>,
    temp_root: &Vec<u8>,
    wrote: &Vec<(Vec<u8>, Vec<u8>)>,
    meta_rel: &Vec<u8>,
    removed: &Vec<Vec<u8>>,
)
    requires
        old(fs).wf(),
    ensures
        final(fs).wf(),
        same_outside_both(old(fs)@, final(fs)@, root@, temp_root@),
{
    let mut later: Vec<usize> = Vec::new();
    let mut i: usize = 0;
    while i < wrote.len()
        invariant
            fs.wf(),
            i <= wrote@.len(),
            forall|x: int| 0 <= x < later@.len() ==> later@[x] < wrote@.len(),
            same_outside_both(old(fs)@, fs@, root@, temp_root@),
        decreases wrote@.len() - i,
    {
        let to = join3(root.as_slice(), SLASH, wrote[i].0.as_slice());
        if fs.file_exists(to.as_slice()) {
            later.push(i);
        } else {
            let from = join3(temp_root.as_slice(), SLASH, wrote[i].0.as_slice());
            proof {
                lemma_joined_under(root@, wrote@[i as int].0@);
                lemma_joined_under(temp_root@, wrote@[i as int].0@);
            }
            fs.move_file(from.as_slice(), to.as_slice());
        }
        i = i + 1;
    }
    let from = join3(temp_root.as_slice(), SLASH, meta_rel.as_slice());
    let to = join3(root.as_slice(), SLASH, meta_rel.as_slice());
    proof {
        lemma_joined_under(root@, meta_rel@);
        lemma_joined_under(temp_root@, meta_rel@);
    }
    fs.move_file(from.as_slice(), to.as_slice());
    let mut k: usize = 0;
    while k < later.len()
        invariant
            fs.wf(),
            forall|x: int| 0 <= x < later@.len() ==> later@[x] < wrote@.len(),
            same_outside_both(old(fs)@, fs@, root@, temp_root@),
        decreases later@.len() - k,
    {
        let w = &wrote[later[k]];
        let from = join3(temp_root.as_slice(), SLASH, w.0.as_slice());
        let to = join3(root.as_slice(), SLASH, w.0.as_slice());
        proof {
            lemma_joined_under(root@, w.0@);
            lemma_joined_under(temp_root@, w.0@);
        }
        fs.move_file(from.as_slice(), to.as_slice());
        k = k + 1;
    }
    let mut j: usize = 0;
    while j < removed.len()
        invariant
            fs.wf(),
            same_outside_both(old(fs)@, fs@, root@, temp_root@),
        decreases removed@.len() - j,
    {
        let path = join3(root.as_slice(), SLASH, removed[j].as_slice());
        proof {
            lemma_joined_under(root@, removed@[j as int]@);
        }
        fs.remove_file(path.as_slice());
        j = j + 1;
    }
}

proof fn lemma_flush_one_view(
    lp: Seq<(Seq<u8>, Map<Seq<u8>, Seq<u8>>)>,
    after: Seq<(Seq<u8>, Map<Seq<u8>, Seq<u8>>)>,
    idx: int,
    content: Map<Seq<u8>, Seq<u8>>,
)
    requires
        unique_keys(lp),
        0 <= idx < lp.len(),
        after == lp.update(idx, (lp[idx].0, content)),
    ensures
        unique_keys(after),
        assoc(after) == assoc(lp).insert(lp[idx].0, content),
{
    lemma_assoc_update(lp, idx, content);
}

/// A removal recorded after a value, for the same key of the same scope,
/// wins: once flushed, the key is gone from the scope, whatever the scope
/// held before and whatever else waited.
pub proof fn lemma_remove_after_set(
    pending: Map<Seq<u8>, Map<Seq<u8>, Option<Seq<u8>>>>,
    content: Map<Seq<u8>, Seq<u8>>,
    scope: Seq<u8>,
    key: Seq<u8>,
    value: Seq<u8>,
)
    ensures
        !apply_updates(content, record(record(pending, scope, key, Some(value)), scope, key, None)[scope]).contains_key(key),
{
    let u = record(record(pending, scope, key, Some(value)), scope, key, None)[scope];
    assert(u.contains_key(key) && u[key] is None);
}

/// Pairs one after the other read as a map: the later ones win.
pub proof fn lemma_assoc_concat<V>(a: Seq<(Seq<u8>, V)>, c: Seq<(Seq<u8>, V)>)
    ensures
        assoc(a + c) == assoc(a).union_prefer_right(assoc(c)),
    decreases c.len(),
{
    if c.len() == 0 {
        assert(a + c =~= a);
        assert(assoc(a).union_prefer_right(assoc(c)) =~= assoc(a));
    } else {
        lemma_assoc_concat(a, c.drop_last());
        assert((a + c).drop_last() =~= a + c.drop_last());
        assert((a + c).last() == c.last());
        assert(assoc(a + c) =~= assoc(a).union_prefer_right(assoc(c)));
    }
}

proof fn lemma_collect_step(
    before: Seq<(Seq<u8>, Seq<u8>)>,
    after: Seq<(Seq<u8>, Seq<u8>)>,
    ent: Seq<(Seq<u8>, Seq<u8>)>,
    packs: Seq<Vec<Pack>>,
    b: nat,
    bucket_size: nat,
)
    requires
        bucket_size >= 1,
        b < packs.len(),
        scope_wf(packs, bucket_size),
        ent == bucket_entries(packs[b as int]@),
        unique_keys(before),
        forall|k: Seq<u8>| #[trigger] assoc(before).contains_key(k) <==> (bucket_of(k, bucket_size) < b
            && scope_content(packs, bucket_size).contains_key(k)),
        forall|k: Seq<u8>| #[trigger] assoc(before).contains_key(k) ==> assoc(before)[k]
            == scope_content(packs, bucket_size)[k],
        after == before + ent,
    ensures
        unique_keys(after),
        forall|k: Seq<u8>| #[trigger] assoc(after).contains_key(k) <==> (bucket_of(k, bucket_size) < b + 1
            && scope_content(packs, bucket_size).contains_key(k)),
        forall|k: Seq<u8>| #[trigger] assoc(after).contains_key(k) ==> assoc(after)[k]
            == scope_content(packs, bucket_size)[k],
{
    lemma_assoc_concat(before, ent);
    assert(unique_keys(ent));
    assert forall|k: Seq<u8>| key_in(ent, k) implies bucket_of(k, bucket_size) == b by {
        assert(key_in(bucket_entries(packs[b as int]@), k));
    }
    assert forall|k: Seq<u8>| key_in(before, k) implies bucket_of(k, bucket_size) < b by {
        lemma_assoc_domain(before, k);
    }
    assert forall|x: int, y: int| 0 <= x < after.len() && 0 <= y < after.len() && x != y
        implies after[x].0 != after[y].0 by {
        if x < before.len() && y < before.len() {
        } else if x >= before.len() && y >= before.len() {
            assert(after[x] == ent[x - before.len()] && after[y] == ent[y - before.len()]);
        } else if x < before.len() {
            assert(key_in(before, after[x].0));
            assert(key_in(ent, after[y].0));
        } else {
            assert(key_in(before, after[y].0));
            assert(key_in(ent, after[x].0));
        }
    }
    assert forall|k: Seq<u8>| #[trigger] assoc(after).contains_key(k) <==> (bucket_of(k, bucket_size) < b + 1
        && scope_content(packs, bucket_size).contains_key(k)) by {
        lemma_assoc_domain(ent, k);
    }
    assert forall|k: Seq<u8>| #[trigger] assoc(after).contains_key(k) implies assoc(after)[k]
        == scope_content(packs, bucket_size)[k] by {
        lemma_assoc_domain(ent, k);
    }
}

/// All pairs of a loaded scope, bucket after bucket.
fn collect_scope(s: &LoadedScope, bucket_size: usize) -> (r: Vec<(Vec<u8>, Vec<u8>)>)
    requires
        bucket_size >= 1,
        scope_wf(s.packs@, bucket_size as nat),
    ensures
        unique_keys(pairs(r@)),
        assoc(pairs(r@)) == scope_content(s.packs@, bucket_size as nat),
{
    let mut out: Vec<(Vec<u8>, Vec<u8>)> = Vec::new();
    let mut b: usize = 0;
    while b < s.packs.len()
        invariant
            b <= s.packs@.len(),
            bucket_size >= 1,
            scope_wf(s.packs@, bucket_size as nat),
            unique_keys(pairs(out@)),
            forall|k: Seq<u8>| #[trigger] assoc(pairs(out@)).contains_key(k) <==> (bucket_of(k, bucket_size as nat) < b
                && scope_content(s.packs@, bucket_size as nat).contains_key(k)),
            forall|k: Seq<u8>| #[trigger] assoc(pairs(out@)).contains_key(k) ==> assoc(pairs(out@))[k]
                == scope_content(s.packs@, bucket_size as nat)[k],
        decreases s.packs@.len() - b,
    {
        let ghost before = pairs(out@);
        let bucket = &s.packs[b];
        let entries = crate::strategy::collect_entries(bucket);
        assert(s.packs@[b as int] == *bucket);
        let mut j: usize = 0;
        while j < entries.len()
            invariant
                j <= entries@.len(),
                pairs(out@) == before + pairs(entries@).subrange(0, j as int),
            decreases entries@.len() - j,
        {
            let ghost o0 = pairs(out@);
            out.push((entries[j].0.clone(), entries[j].1.clone()));
            assert(pairs(out@) =~= o0.push(pairs(entries@)[j as int]));
            assert(pairs(entries@).subrange(0, j + 1) =~= pairs(entries@).subrange(0, j as int).push(pairs(entries@)[j as int]));
            j = j + 1;
        }
        assert(pairs(entries@).subrange(0, j as int) =~= pairs(entries@));
        proof {
            lemma_collect_step(before, pairs(out@), pairs(entries@), s.packs@, b as nat, bucket_size as nat);
        }
        b = b + 1;
    }
    proof {
        assert forall|k: Seq<u8>| #[trigger] scope_content(s.packs@, bucket_size as nat).contains_key(k)
            implies bucket_of(k, bucket_size as nat) < b by {
            vstd::arithmetic::div_mod::lemma_mod_bound(crate::bucket::byte_sum(k) as int, bucket_size as int);
        }
        assert(assoc(pairs(out@)) =~= scope_content(s.packs@, bucket_size as nat));
    }
    out
}

} // verus!
