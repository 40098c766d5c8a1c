//! A scope: its buckets of packs, and the flush of a batch of updates.
use vstd::prelude::*;
use crate::bucket::{bucket_of, choose_bucket};

use crate::decimal::{dec, write_dec};
use crate::merge::{apply_updates, key_in};
use crate::meta::PackFileMeta;
use crate::pack::Pack;
use crate::split::{greedy, group_ok};
use crate::bucket::{pack_hash, pack_name};
use crate::strategy::{
    all_wf, bucket_entries, flush_bucket, meta_of, pack_path, pack_views, removals_exact, writes_complete, writes_sound, SLASH,
};
use crate::updates::{assoc, lemma_assoc_domain, lemma_assoc_index, unique_keys, update_pairs, ScopeUpdate};

verus! {

/// The settings of a storage: how many buckets a scope has, how many bytes
/// a pack should hold at most, and after how many milliseconds an untouched
/// scope may be dropped.
pub struct PackOptions {
    pub bucket_size: usize,
    pub pack_size: usize,
    pub expire: u64,
}

impl PackOptions {
    pub open spec fn wf(&self) -> bool {
        self.bucket_size >= 1 && self.pack_size > 0
    }
}

/// The buckets of a scope are well formed: one list of loaded packs per
/// bucket, no key twice in a bucket, and each key in the bucket its bytes
/// route it to.
pub open spec fn scope_wf(packs: Seq<Vec<Pack>>, bucket_size: nat) -> bool {
    &&& packs.len() == bucket_size
    &&& forall|b: int| 0 <= b < packs.len() ==> all_wf(#[trigger] packs[b]@)
    &&& forall|b: int| 0 <= b < packs.len() ==> unique_keys(bucket_entries(#[trigger] packs[b]@))
    &&& forall|b: int, k: Seq<u8>| 0 <= b < packs.len() && #[trigger] key_in(bucket_entries(packs[b]@), k)
        ==> bucket_of(k, bucket_size) == b
}

/// What the buckets of a scope hold: each key is looked up in its bucket.
pub open spec fn scope_content(packs: Seq<Vec<Pack>>, bucket_size: nat) -> Map<Seq<u8>, Seq<u8>> {
    Map::new(
        |k: Seq<u8>| assoc(bucket_entries(packs[bucket_of(k, bucket_size) as int]@)).contains_key(k),
        |k: Seq<u8>| assoc(bucket_entries(packs[bucket_of(k, bucket_size) as int]@))[k],
    )
}

/// The updates of `updates` whose keys route to bucket `b`.
pub open spec fn bucket_updates(
    updates: Map<Seq<u8>, Option<Seq<u8>>>,
    b: nat,
    bucket_size: nat,
) -> Map<Seq<u8>, Option<Seq<u8>>> {
    updates.restrict(Set::new(|k: Seq<u8>| bucket_of(k, bucket_size) == b))
}

/// The updates of `items` whose keys route to bucket `b`, in their order.
fn select_bucket(items: &Vec<(Vec<u8>, Option<Vec<u8>>)>, b: usize, bucket_size: usize) -> (r: Vec<
    (Vec<u8>, Option<Vec<u8>>),
>)
    requires
        bucket_size > 0,
        unique_keys(update_pairs(items@)),
    ensures
        unique_keys(update_pairs(r@)),
        assoc(update_pairs(r@)) == bucket_updates(assoc(update_pairs(items@)), b as nat, bucket_size as nat),
{
    let ghost all = update_pairs(items@);
    let mut out: Vec<(Vec<u8>, Option<Vec<u8>>)> = Vec::new();
    let mut i: usize = 0;
    assert(update_pairs(out@) =~= Seq::<(Seq<u8>, Option<Seq<u8>>)>::empty());
    while i < items.len()
        invariant
            i <= items@.len(),
            bucket_size > 0,
            all == update_pairs(items@),
            unique_keys(all),
            unique_keys(update_pairs(out@)),
            forall|k: Seq<u8>| #[trigger] key_in(update_pairs(out@), k) ==> exists|j: int| 0 <= j < i && all[j].0 == k,
            assoc(update_pairs(out@)) == bucket_updates(assoc(all.subrange(0, i as int)), b as nat, bucket_size as nat),
        decreases items@.len() - i,
    {
        let ghost before = update_pairs(out@);
        let ghost k0 = all[i as int].0;
        proof {
            assert(all.subrange(0, i + 1).drop_last() =~= all.subrange(0, i as int));
        }
        if choose_bucket(items[i].0.as_slice(), &bucket_size) == b {
            let value = match &items[i].1 {
                Some(v) => Some(v.clone()),
                None => None,
            };
            out.push((items[i].0.clone(), value));
            proof {
                let after = update_pairs(out@);
                assert(after =~= before.push(all[i as int]));
                assert(after.drop_last() =~= before);
                assert(!key_in(before, k0)) by {
                    if key_in(before, k0) {
                        let j = choose|j: int| 0 <= j < i && all[j].0 == k0;
                        assert(all[j].0 == all[i as int].0);
                    }
                }
                assert forall|x: int, y: int| 0 <= x < after.len() && 0 <= y < after.len() && x != y
                    implies after[x].0 != after[y].0 by {
                    if x < before.len() && y < before.len() {
                        assert(after[x] == before[x] && after[y] == before[y]);
                    } else if x == before.len() {
                        assert(after[y] == before[y]);
                    } else {
                        assert(after[x] == before[x]);
                    }
                }
                assert forall|k: Seq<u8>| #[trigger] key_in(after, k) implies exists|j: int| 0 <= j < i + 1 && all[j].0 == k by {
                    let x = choose|x: int| 0 <= x < after.len() && after[x].0 == k;
                    if x < before.len() {
                        assert(after[x] == before[x]);
                        assert(key_in(before, k));
                    } else {
                        assert(all[i as int].0 == k);
                    }
                }
                assert(assoc(after) =~= bucket_updates(assoc(all.subrange(0, i + 1)), b as nat, bucket_size as nat));
            }
        } else {
            proof {
                assert(assoc(update_pairs(out@)) =~= bucket_updates(assoc(all.subrange(0, i + 1)), b as nat, bucket_size as nat));
                assert forall|k: Seq<u8>| #[trigger] key_in(update_pairs(out@), k) implies exists|j: int| 0 <= j < i + 1
                    && all[j].0 == k by {
                    let j = choose|j: int| 0 <= j < i && all[j].0 == k;
                }
            }
        }
        i = i + 1;
    }
    assert(all.subrange(0, i as int) =~= all);
    out
}

/// The directory of bucket `b` inside the scope directory `dir`.
pub open spec fn bucket_dir(dir: Seq<u8>, b: nat) -> Seq<u8> {
    dir.push(SLASH) + dec(b)
}

pub fn make_bucket_dir(dir: &Vec<u8>, b: usize) -> (r: Vec<u8>)
    ensures
        r@ == bucket_dir(dir@, b as nat),
{
    let mut out = vstd::slice::slice_to_vec(dir.as_slice());
    out.push(SLASH);
    write_dec(&mut out, b as u64);
    assert(out@ =~= bucket_dir(dir@, b as nat));
    out
}


/// Each bucket has as many meta entries as packs.
pub open spec fn metas_in_step(packs: Seq<Vec<Pack>>, metas: Seq<Vec<PackFileMeta>>) -> bool {
    &&& packs.len() == metas.len()
    &&& forall|b: int| 0 <= b < packs.len() ==> (#[trigger] packs[b])@.len() == metas[b]@.len()
}

/// No update of `u` routes to bucket `b`.
pub open spec fn untouched(u: Map<Seq<u8>, Option<Seq<u8>>>, b: nat, bucket_size: nat) -> bool {
    bucket_updates(u, b, bucket_size).dom() == Set::<Seq<u8>>::empty()
}

/// What the flush of a scope gives: its new buckets and their meta
/// entries, for each bucket the files to write (path and bytes) and the
/// files to remove, and whether any bucket changed.
pub struct ScopeFlush {
    pub packs: Vec<Vec<Pack>>,
    pub metas: Vec<Vec<PackFileMeta>>,
    pub wrote: Vec<Vec<(Vec<u8>, Vec<u8>)>>,
    pub removed: Vec<Vec<Vec<u8>>>,
    pub touched: bool,
}

/// Bucket `b` went from `prev` to `next` under the updates `u`.
pub open spec fn bucket_step(
    prev: Seq<Pack>,
    next: Seq<Pack>,
    u: Map<Seq<u8>, Option<Seq<u8>>>,
    b: nat,
    bucket_size: nat,
) -> bool {
    &&& all_wf(next)
    &&& unique_keys(bucket_entries(next))
    &&& assoc(bucket_entries(next)) == apply_updates(assoc(bucket_entries(prev)), bucket_updates(u, b, bucket_size))
}

proof fn lemma_bucket_routing(
    prev: Seq<Pack>,
    next: Seq<Pack>,
    u: Map<Seq<u8>, Option<Seq<u8>>>,
    b: nat,
    bucket_size: nat,
)
    requires
        bucket_step(prev, next, u, b, bucket_size),
        forall|k: Seq<u8>| #[trigger] key_in(bucket_entries(prev), k) ==> bucket_of(k, bucket_size) == b,
    ensures
        forall|k: Seq<u8>| #[trigger] key_in(bucket_entries(next), k) ==> bucket_of(k, bucket_size) == b,
{
    assert forall|k: Seq<u8>| #[trigger] key_in(bucket_entries(next), k) implies bucket_of(k, bucket_size) == b by {
        lemma_assoc_domain(bucket_entries(next), k);
        lemma_assoc_domain(bucket_entries(prev), k);
        let bu = bucket_updates(u, b, bucket_size);
        if !bu.contains_key(k) {
            assert(key_in(bucket_entries(prev), k));
        }
    }
}

/// Flushes `updates` into the buckets of a scope whose directory is `dir`.
/// A bucket that no update routes to stays as it is; each other bucket is
/// flushed as `flush_bucket` says, in `dir/<bucket>`.
#[verifier::spinoff_prover]
#[verifier::rlimit(60)]
pub fn flush_scope(
    packs: Vec<Vec<Pack>>,
    metas: Vec<Vec<PackFileMeta>>,
    updates: &ScopeUpdate,
    options: &PackOptions,
    dir: &Vec<u8>,
) -> (r: ScopeFlush)
    requires
        options.wf(),
        updates.wf(),
        scope_wf(packs@, options.bucket_size as nat),
        metas@.len() == options.bucket_size,
        metas_in_step(packs@, metas@),
    ensures
        metas_in_step(r.packs@, r.metas@),
        forall|b: int, i: int| 0 <= b < packs@.len() && !untouched(updates@, b as nat, options.bucket_size as nat) && 0 <= i
            < r.packs@[b]@.len() ==> meta_of(r.metas@[b]@[i], #[trigger] r.packs@[b]@[i]),
        scope_wf(r.packs@, options.bucket_size as nat),
        r.metas@.len() == options.bucket_size,
        scope_content(r.packs@, options.bucket_size as nat) == apply_updates(
            scope_content(packs@, options.bucket_size as nat),
            updates@,
        ),
        forall|b: int| 0 <= b < packs@.len() ==> bucket_step(
            packs@[b]@,
            (#[trigger] r.packs@[b])@,
            updates@,
            b as nat,
            options.bucket_size as nat,
        ),
        forall|b: int| 0 <= b < packs@.len() && bucket_updates(updates@, b as nat, options.bucket_size as nat).dom() == Set::<Seq<u8>>::empty()
            ==> (#[trigger] r.packs@[b]) == packs@[b] && r.metas@[b] == metas@[b],
        forall|b: int, i: int| 0 <= b < packs@.len() && bucket_updates(updates@, b as nat, options.bucket_size as nat).dom() != Set::<Seq<u8>>::empty()
            && 0 <= i < r.packs@[b]@.len() ==> group_ok(
            (#[trigger] r.packs@[b]@[i].key_views(), r.packs@[b]@[i].content_views()),
            options.pack_size as nat,
        ),
        forall|b: int| 0 <= b < packs@.len() && !untouched(updates@, b as nat, options.bucket_size as nat) ==> greedy(
            pack_views((#[trigger] r.packs@[b])@),
            options.pack_size as nat,
        ),
        r.wrote@.len() == options.bucket_size,
        r.removed@.len() == options.bucket_size,
        forall|b: int| 0 <= b < packs@.len() && untouched(updates@, b as nat, options.bucket_size as nat) ==> (
        #[trigger] r.wrote@[b])@.len() == 0 && r.removed@[b]@.len() == 0,
        forall|b: int| 0 <= b < packs@.len() && !untouched(updates@, b as nat, options.bucket_size as nat) ==> writes_sound(
            (#[trigger] r.wrote@[b])@,
            r.packs@[b]@,
        ) && writes_complete(r.wrote@[b]@, r.packs@[b]@, packs@[b]@) && removals_exact(
            r.removed@[b]@,
            packs@[b]@,
            r.packs@[b]@,
        ) && forall|i: int| 0 <= i < r.packs@[b]@.len() ==> (#[trigger] r.packs@[b]@[i]).path@ == pack_path(
            bucket_dir(dir@, b as nat),
            pack_name(r.packs@[b]@[i].key_views()),
            pack_hash(r.packs@[b]@[i].content_views()),
        ),
        updates.items@.len() == 0 ==> !r.touched
            && r.packs@ == packs@ && r.metas@ == metas@,
{
    let bs = options.bucket_size;
    let ghost u = updates@;
    let ghost prev = packs@;
    let ghost prev_metas = metas@;
    let mut packs = packs;
    let mut metas = metas;
    let mut wrote: Vec<Vec<(Vec<u8>, Vec<u8>)>> = Vec::new();
    let mut removed: Vec<Vec<Vec<u8>>> = Vec::new();
    let mut touched = false;
    let mut b: usize = 0;
    while b < bs
        invariant
            b <= bs,
            bs == options.bucket_size,
            options.wf(),
            updates.wf(),
            u == updates@,
            prev_metas.len() == bs,
            scope_wf(prev, bs as nat),
            packs@.len() == bs,
            metas@.len() == bs,
            metas_in_step(prev, prev_metas),
            metas_in_step(packs@, metas@),
            forall|x: int, i: int| 0 <= x < b && !untouched(u, x as nat, bs as nat) && 0 <= i < packs@[x]@.len() ==> meta_of(
                metas@[x]@[i],
                #[trigger] packs@[x]@[i],
            ),
            forall|x: int| b <= x < bs ==> packs@[x] == prev[x],
            forall|x: int| 0 <= x < b ==> bucket_step(prev[x]@, (#[trigger] packs@[x])@, u, x as nat, bs as nat),
            forall|x: int| 0 <= x < b && untouched(u, x as nat, bs as nat) ==> (#[trigger] packs@[x]) == prev[x],
            forall|x: int| 0 <= x < b && untouched(u, x as nat, bs as nat) ==> (#[trigger] metas@[x]) == prev_metas[x],
            forall|x: int| b <= x < bs ==> metas@[x] == prev_metas[x],
            forall|x: int, i: int| 0 <= x < b && bucket_updates(u, x as nat, bs as nat).dom() != Set::<Seq<u8>>::empty()
                && 0 <= i < packs@[x]@.len() ==> group_ok(
                (#[trigger] packs@[x]@[i].key_views(), packs@[x]@[i].content_views()),
                options.pack_size as nat,
            ),
            updates.items@.len() == 0 ==> !touched,
            wrote@.len() == b,
            removed@.len() == b,
            forall|x: int| 0 <= x < b && untouched(u, x as nat, bs as nat) ==> (#[trigger] wrote@[x])@.len() == 0
                && removed@[x]@.len() == 0,
            forall|x: int| 0 <= x < b && !untouched(u, x as nat, bs as nat) ==> writes_sound((#[trigger] wrote@[x])@, packs@[x]@)
                && writes_complete(wrote@[x]@, packs@[x]@, prev[x]@) && removals_exact(removed@[x]@, prev[x]@, packs@[x]@)
                && forall|i: int| 0 <= i < packs@[x]@.len() ==> (#[trigger] packs@[x]@[i]).path@ == pack_path(
                bucket_dir(dir@, x as nat),
                pack_name(packs@[x]@[i].key_views()),
                pack_hash(packs@[x]@[i].content_views()),
            ),
            forall|x: int| 0 <= x < b && !untouched(u, x as nat, bs as nat) ==> greedy(
                pack_views((#[trigger] packs@[x])@),
                options.pack_size as nat,
            ),
        decreases bs - b,
    {
        let upd = select_bucket(&updates.items, b, bs);
        let ghost w_start = wrote@;
        let ghost r_start = removed@;
        if upd.len() == 0 {
            let ghost w0 = wrote@;
            let ghost r0 = removed@;
            wrote.push(Vec::new());
            removed.push(Vec::new());
            proof {
                assert forall|x: int| 0 <= x < b && !untouched(u, x as nat, bs as nat) implies writes_sound((#[trigger] wrote@[x])@, packs@[x]@)
                    && writes_complete(wrote@[x]@, packs@[x]@, prev[x]@) && removals_exact(removed@[x]@, prev[x]@, packs@[x]@)
                    && forall|i: int| 0 <= i < packs@[x]@.len() ==> (#[trigger] packs@[x]@[i]).path@ == pack_path(
                    bucket_dir(dir@, x as nat),
                    pack_name(packs@[x]@[i].key_views()),
                    pack_hash(packs@[x]@[i].content_views()),
                ) by {
                    assert(wrote@[x] == w0[x] && removed@[x] == r0[x]);
                }
                assert forall|x: int| 0 <= x < b && untouched(u, x as nat, bs as nat) implies (#[trigger] wrote@[x])@.len() == 0
                    && removed@[x]@.len() == 0 by {
                    assert(wrote@[x] == w0[x] && removed@[x] == r0[x]);
                }
                assert(update_pairs(upd@) =~= Seq::<(Seq<u8>, Option<Seq<u8>>)>::empty());
                assert(wrote@[b as int]@.len() == 0 && removed@[b as int]@.len() == 0);
                assert(bucket_updates(u, b as nat, bs as nat) =~= Map::<Seq<u8>, Option<Seq<u8>>>::empty());
                assert(bucket_updates(u, b as nat, bs as nat).dom() =~= Set::<Seq<u8>>::empty());
                let pb = prev[b as int]@;
                assert(assoc(bucket_entries(pb)) =~= apply_updates(assoc(bucket_entries(pb)), Map::empty()));
            }
        } else {
            proof {
                let p0 = update_pairs(upd@)[0];
                lemma_assoc_index(update_pairs(upd@), 0);
                assert(bucket_updates(u, b as nat, bs as nat).dom().contains(p0.0));
                if updates.items@.len() == 0 {
                    assert(update_pairs(updates.items@) =~= Seq::<(Seq<u8>, Option<Seq<u8>>)>::empty());
                    assert(u =~= Map::<Seq<u8>, Option<Seq<u8>>>::empty());
                    assert(bucket_updates(u, b as nat, bs as nat) =~= Map::<Seq<u8>, Option<Seq<u8>>>::empty());
                    assert(false);
                }
            }
            let mut bucket: Vec<Pack> = Vec::new();
            let ghost packs_before = packs@;
            let ghost metas_before = metas@;
            packs.set_and_swap(b, &mut bucket);
            assert(bucket == prev[b as int]);
            assert(all_wf(prev[b as int]@));
            assert(unique_keys(bucket_entries(prev[b as int]@)));
            let bdir = make_bucket_dir(dir, b);
            let mut flushed = flush_bucket(&bucket, &upd, options.pack_size, &bdir);
            let ghost fl = flushed;
            let ghost new_bucket = flushed.packs@;
            let mut new_packs: Vec<Pack> = Vec::new();
            core::mem::swap(&mut new_packs, &mut flushed.packs);
            let mut new_metas: Vec<PackFileMeta> = Vec::new();
            core::mem::swap(&mut new_metas, &mut flushed.metas);
            packs.set(b, new_packs);
            metas.set(b, new_metas);
            let mut bucket_wrote: Vec<(Vec<u8>, Vec<u8>)> = Vec::new();
            core::mem::swap(&mut bucket_wrote, &mut flushed.wrote);
            let mut bucket_removed: Vec<Vec<u8>> = Vec::new();
            core::mem::swap(&mut bucket_removed, &mut flushed.removed);
            let ghost w0 = wrote@;
            let ghost r0 = removed@;
            wrote.push(bucket_wrote);
            removed.push(bucket_removed);
            proof {
                assert forall|x: int| 0 <= x < b && !untouched(u, x as nat, bs as nat) implies writes_sound((#[trigger] wrote@[x])@, packs@[x]@)
                    && writes_complete(wrote@[x]@, packs@[x]@, prev[x]@) && removals_exact(removed@[x]@, prev[x]@, packs@[x]@)
                    && forall|i: int| 0 <= i < packs@[x]@.len() ==> (#[trigger] packs@[x]@[i]).path@ == pack_path(
                    bucket_dir(dir@, x as nat),
                    pack_name(packs@[x]@[i].key_views()),
                    pack_hash(packs@[x]@[i].content_views()),
                ) by {
                    assert(wrote@[x] == w0[x] && removed@[x] == r0[x]);
                    assert(packs@[x] == packs_before[x]);
                }
                assert forall|x: int| 0 <= x < b && untouched(u, x as nat, bs as nat) implies (#[trigger] wrote@[x])@.len() == 0
                    && removed@[x]@.len() == 0 by {
                    assert(wrote@[x] == w0[x] && removed@[x] == r0[x]);
                }
                assert(wrote@[b as int]@ == fl.wrote@ && removed@[b as int]@ == fl.removed@);
                assert(packs@[b as int]@ == fl.packs@);
                assert(prev[b as int] == bucket);
                assert(!untouched(u, b as nat, bs as nat)) by {
                    let p0 = update_pairs(upd@)[0];
                    lemma_assoc_index(update_pairs(upd@), 0);
                    assert(bucket_updates(u, b as nat, bs as nat).dom().contains(p0.0));
                }
                assert(writes_sound(wrote@[b as int]@, packs@[b as int]@));
                assert(writes_complete(wrote@[b as int]@, packs@[b as int]@, prev[b as int]@));
                assert(removals_exact(removed@[b as int]@, prev[b as int]@, packs@[b as int]@));
                assert(untouched(u, b as nat, bs as nat) ==> wrote@[b as int]@.len() == 0 && removed@[b as int]@.len() == 0);
                assert(forall|i: int| 0 <= i < packs@[b as int]@.len() ==> (#[trigger] packs@[b as int]@[i]).path@ == pack_path(
                    bucket_dir(dir@, b as nat),
                    pack_name(packs@[b as int]@[i].key_views()),
                    pack_hash(packs@[b as int]@[i].content_views()),
                ));
            }
            touched = true;
            proof {
                assert(packs@[b as int]@ == new_bucket);
                assert(bucket_updates(u, b as nat, bs as nat).dom() != Set::<Seq<u8>>::empty()) by {
                    let p0 = update_pairs(upd@)[0];
                    assert(bucket_updates(u, b as nat, bs as nat).dom().contains(p0.0));
                }
                assert forall|x: int| 0 <= x < packs@.len() implies (#[trigger] packs@[x])@.len() == metas@[x]@.len() by {
                    if x != b {
                        assert(packs@[x] == packs_before[x]);
                        assert(metas@[x] == metas_before[x]);
                    }
                }
                assert forall|x: int, i: int| 0 <= x < b + 1 && !untouched(u, x as nat, bs as nat) && 0 <= i < packs@[x]@.len()
                    implies meta_of(metas@[x]@[i], #[trigger] packs@[x]@[i]) by {
                    if x < b {
                        assert(packs@[x] == packs_before[x]);
                        assert(metas@[x] == metas_before[x]);
                    }
                }
                assert forall|x: int| 0 <= x < b + 1 && !untouched(u, x as nat, bs as nat) implies greedy(
                    pack_views((#[trigger] packs@[x])@),
                    options.pack_size as nat,
                ) by {
                    if x < b {
                        assert(packs@[x] == packs_before[x]);
                    }
                }
                assert forall|x: int| 0 <= x < b + 1 && untouched(u, x as nat, bs as nat)
                    implies (#[trigger] packs@[x]) == prev[x] by {
                    if x < b {
                        assert(packs@[x] == packs_before[x]);
                    }
                }
                assert forall|x: int| 0 <= x < b + 1 && untouched(u, x as nat, bs as nat)
                    implies (#[trigger] metas@[x]) == prev_metas[x] by {
                    if x < b {
                        assert(metas@[x] == metas_before[x]);
                    }
                }
                assert forall|x: int| b + 1 <= x < bs implies metas@[x] == prev_metas[x] by {
                    assert(metas@[x] == metas_before[x]);
                }
            }
        }
        proof {
            assert forall|x: int| 0 <= x < b + 1 implies bucket_step(prev[x]@, (#[trigger] packs@[x])@, u, x as nat, bs as nat) by {
            }
            assert(wrote@.len() == b + 1 && removed@.len() == b + 1);
            assert(untouched(u, b as nat, bs as nat) ==> wrote@[b as int]@.len() == 0 && removed@[b as int]@.len() == 0);
            assert forall|x: int| 0 <= x < b + 1 && untouched(u, x as nat, bs as nat) implies (#[trigger] wrote@[x])@.len() == 0
                && removed@[x]@.len() == 0 by {
                if x < b {
                    assert(wrote@[x] == w_start[x] && removed@[x] == r_start[x]);
                }
            }
        }
        b = b + 1;
    }
    proof {
        let next = packs@;
        let bsn = bs as nat;
        assert forall|x: int| 0 <= x < next.len() implies all_wf(#[trigger] next[x]@) by {
            assert(bucket_step(prev[x]@, next[x]@, u, x as nat, bsn));
        }
        assert forall|x: int| 0 <= x < next.len() implies unique_keys(bucket_entries(#[trigger] next[x]@)) by {
            assert(bucket_step(prev[x]@, next[x]@, u, x as nat, bsn));
        }
        assert forall|x: int, k: Seq<u8>| 0 <= x < next.len() && #[trigger] key_in(bucket_entries(next[x]@), k)
            implies bucket_of(k, bsn) == x by {
            assert(bucket_step(prev[x]@, next[x]@, u, x as nat, bsn));
            assert forall|k2: Seq<u8>| #[trigger] key_in(bucket_entries(prev[x]@), k2) implies bucket_of(k2, bsn) == x by {
                assert(key_in(bucket_entries(prev[x]@), k2));
            }
            lemma_bucket_routing(prev[x]@, next[x]@, u, x as nat, bsn);
        }
        assert forall|k: Seq<u8>| true implies #[trigger] scope_content(next, bsn).contains_key(k) == apply_updates(
            scope_content(prev, bsn), u).contains_key(k) && (scope_content(next, bsn).contains_key(k) ==>
            scope_content(next, bsn)[k] == apply_updates(scope_content(prev, bsn), u)[k]) by {
            let x = bucket_of(k, bsn) as int;
            vstd::arithmetic::div_mod::lemma_mod_bound(crate::bucket::byte_sum(k) as int, bsn as int);
            assert(bucket_step(prev[x]@, next[x]@, u, x as nat, bsn));
            let bu = bucket_updates(u, x as nat, bsn);
            assert(bu.contains_key(k) == u.contains_key(k));
        }
        assert(scope_content(next, bsn) =~= apply_updates(scope_content(prev, bsn), u));
        if updates.items@.len() == 0 {
            assert(update_pairs(updates.items@) =~= Seq::<(Seq<u8>, Option<Seq<u8>>)>::empty());
            assert(u =~= Map::<Seq<u8>, Option<Seq<u8>>>::empty());
            assert forall|x: int| 0 <= x < next.len() implies next[x] == prev[x] && metas@[x] == prev_metas[x] by {
                assert(bucket_updates(u, x as nat, bsn).dom() =~= Set::<Seq<u8>>::empty());
                assert(untouched(u, x as nat, bsn));
            }
            assert(next =~= prev);
            assert(metas@ =~= prev_metas);
        }
    }
    ScopeFlush { packs, metas, wrote, removed, touched }
}


proof fn lemma_bucket_prefix(ps: Seq<Pack>, i: int)
    requires
        0 <= i < ps.len(),
    ensures
        bucket_entries(ps.subrange(0, i + 1)) == bucket_entries(ps.subrange(0, i)) + ps[i].entries(),
        bucket_entries(ps.subrange(0, i + 1)).len() <= bucket_entries(ps).len(),
        bucket_entries(ps).subrange(0, bucket_entries(ps.subrange(0, i + 1)).len() as int) == bucket_entries(
            ps.subrange(0, i + 1),
        ),
    decreases ps.len(),
{
    assert(ps.subrange(0, i + 1).drop_last() =~= ps.subrange(0, i));
    if i + 1 == ps.len() {
        assert(ps.subrange(0, i + 1) =~= ps);
    } else {
        lemma_bucket_prefix(ps.drop_last(), i);
        assert(ps.drop_last().subrange(0, i + 1) =~= ps.subrange(0, i + 1));
        assert(ps.drop_last().subrange(0, i) =~= ps.subrange(0, i));
        let a = bucket_entries(ps.drop_last());
        assert(bucket_entries(ps) == a + ps.last().entries());
        assert(bucket_entries(ps).subrange(0, a.len() as int) =~= a);
    }
}

/// A key of a pack of a bucket stands in the pairs of the bucket at an
/// index past those of the packs before it.
proof fn lemma_pack_key_index(ps: Seq<Pack>, i: int, x: int)
    requires
        0 <= i < ps.len(),
        0 <= x < ps[i].entries().len(),
    ensures
        bucket_entries(ps.subrange(0, i)).len() + x < bucket_entries(ps).len(),
        bucket_entries(ps)[bucket_entries(ps.subrange(0, i)).len() + x] == ps[i].entries()[x],
        bucket_entries(ps.subrange(0, i + 1)).len() == bucket_entries(ps.subrange(0, i)).len() + ps[i].entries().len(),
{
    lemma_bucket_prefix(ps, i);
    let pre = bucket_entries(ps.subrange(0, i + 1));
    assert(pre[bucket_entries(ps.subrange(0, i)).len() + x] == ps[i].entries()[x]);
    assert(bucket_entries(ps).subrange(0, pre.len() as int)[bucket_entries(ps.subrange(0, i)).len() + x]
        == bucket_entries(ps)[bucket_entries(ps.subrange(0, i)).len() + x]);
}

proof fn lemma_prefix_len_monotone(ps: Seq<Pack>, i: int, j: int)
    requires
        0 <= i <= j <= ps.len(),
    ensures
        bucket_entries(ps.subrange(0, i)).len() <= bucket_entries(ps.subrange(0, j)).len(),
    decreases j - i,
{
    if i < j {
        lemma_prefix_len_monotone(ps, i, j - 1);
        lemma_bucket_prefix(ps, j - 1);
    }
}

/// In a well-formed scope each key stands in one place only: never in two
/// buckets, and never in two packs of one bucket (nor twice in one pack).
pub proof fn lemma_partition(packs: Seq<Vec<Pack>>, bucket_size: nat, b1: int, i1: int, x1: int, b2: int, i2: int, x2: int)
    requires
        bucket_size >= 1,
        scope_wf(packs, bucket_size),
        0 <= b1 < packs.len(),
        0 <= b2 < packs.len(),
        0 <= i1 < packs[b1]@.len(),
        0 <= i2 < packs[b2]@.len(),
        0 <= x1 < packs[b1]@[i1].entries().len(),
        0 <= x2 < packs[b2]@[i2].entries().len(),
        packs[b1]@[i1].entries()[x1].0 == packs[b2]@[i2].entries()[x2].0,
    ensures
        b1 == b2 && i1 == i2 && x1 == x2,
{
    let k = packs[b1]@[i1].entries()[x1].0;
    lemma_pack_key_index(packs[b1]@, i1, x1);
    lemma_pack_key_index(packs[b2]@, i2, x2);
    let o1 = bucket_entries(packs[b1]@.subrange(0, i1)).len() + x1;
    let o2 = bucket_entries(packs[b2]@.subrange(0, i2)).len() + x2;
    assert(key_in(bucket_entries(packs[b1]@), k) && bucket_entries(packs[b1]@)[o1 as int].0 == k);
    assert(key_in(bucket_entries(packs[b2]@), k) && bucket_entries(packs[b2]@)[o2 as int].0 == k);
    assert(b1 == b2);
    assert(o1 == o2);
    if i1 < i2 {
        lemma_prefix_len_monotone(packs[b1]@, i1 + 1, i2);
        assert(false);
    } else if i2 < i1 {
        lemma_prefix_len_monotone(packs[b1]@, i2 + 1, i1);
        assert(false);
    }
}


} // verus!
