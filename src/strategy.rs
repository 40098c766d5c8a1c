//! The flush of one bucket: merge the updates into its pairs, cut the
//! result into packs, and tell which pack files to write and to remove.
use vstd::prelude::*;
use crate::bucket::{get_hash, get_name, pack_hash, pack_name};
use crate::bytes::{bytes_eq, join3};
use crate::codec::{encode_pack, flatten, pack_bytes, views};
use crate::merge::{apply_updates, merge_entries, pairs};
use crate::meta::PackFileMeta;
use crate::pack::{zip_entries, Pack, PackContentsState, PackKeysState};
use crate::split::{concat_groups, greedy, group_ok, group_views, split_entries};
use crate::updates::{assoc, unique_keys, update_pairs};

verus! {

pub const SLASH: u8 = 47;

pub const DOT: u8 = 46;

/// The pairs of the packs of a bucket, pack after pack.
pub open spec fn bucket_entries(ps: Seq<Pack>) -> Seq<(Seq<u8>, Seq<u8>)>
    decreases ps.len(),
{
    if ps.len() == 0 {
        Seq::empty()
    } else {
        bucket_entries(ps.drop_last()) + ps.last().entries()
    }
}

/// The keys and values of each pack.
pub open spec fn pack_views(ps: Seq<Pack>) -> Seq<(Seq<Seq<u8>>, Seq<Seq<u8>>)> {
    ps.map_values(|p: Pack| (p.key_views(), p.content_views()))
}

pub open spec fn all_wf(ps: Seq<Pack>) -> bool {
    forall|i: int| 0 <= i < ps.len() ==> (#[trigger] ps[i]).wf()
}

/// The path of the pack named `name` in the bucket directory `dir`.
pub open spec fn pack_path(dir: Seq<u8>, name: Seq<u8>, hash: Seq<u8>) -> Seq<u8> {
    dir.push(SLASH) + file_name(name, hash)
}

/// The file of a pack: its name, a dot, and the hash of its values, so
/// that new values never land on a file that an older meta still lists.
pub open spec fn file_name(name: Seq<u8>, hash: Seq<u8>) -> Seq<u8> {
    name.push(DOT) + hash
}

pub open spec fn same_pack(a: Pack, b: Pack) -> bool {
    a.path@ == b.path@ && a.key_views() == b.key_views() && a.content_views() == b.content_views()
}

/// What the flush of one bucket gives: its new packs and their meta
/// entries, the files to write (path and bytes) and the files to remove.
pub struct BucketFlush {
    pub packs: Vec<Pack>,
    pub metas: Vec<PackFileMeta>,
    pub wrote: Vec<(Vec<u8>, Vec<u8>)>,
    pub removed: Vec<Vec<u8>>,
}

/// Collects the pairs of all packs of a bucket.
pub fn collect_entries(ps: &Vec<Pack>) -> (r: Vec<(Vec<u8>, Vec<u8>)>)
    requires
        all_wf(ps@),
    ensures
        pairs(r@) == bucket_entries(ps@),
{
    let mut out: Vec<(Vec<u8>, Vec<u8>)> = Vec::new();
    let mut i: usize = 0;
    assert(pairs(out@) =~= bucket_entries(ps@.subrange(0, 0)));
    while i < ps.len()
        invariant
            i <= ps@.len(),
            all_wf(ps@),
            pairs(out@) == bucket_entries(ps@.subrange(0, i as int)),
        decreases ps@.len() - i,
    {
        let p = &ps[i];
        assert(p.wf());
        let keys = p.keys.expect_value();
        let contents = p.contents.expect_value();
        let ghost start = pairs(out@);
        let mut j: usize = 0;
        while j < keys.len()
            invariant
                j <= keys@.len(),
                keys@.len() == contents@.len(),
                p.wf(),
                views(keys@) == p.key_views(),
                views(contents@) == p.content_views(),
                pairs(out@) == start + p.entries().subrange(0, j as int),
            decreases keys@.len() - j,
        {
            let ghost before = pairs(out@);
            out.push((keys[j].clone(), contents[j].clone()));
            assert(pairs(out@) =~= before.push(p.entries()[j as int]));
            assert(p.entries().subrange(0, j + 1) =~= p.entries().subrange(0, j as int).push(p.entries()[j as int]));
            j = j + 1;
        }
        proof {
            assert(p.entries().subrange(0, j as int) =~= p.entries());
            assert(ps@.subrange(0, i + 1).drop_last() =~= ps@.subrange(0, i as int));
        }
        i = i + 1;
    }
    assert(ps@.subrange(0, i as int) =~= ps@);
    out
}

/// Compares two lists of byte strings.
fn items_eq(a: &Vec<Vec<u8>>, b: &Vec<Vec<u8>>) -> (r: bool)
    ensures
        r == (views(a@) == views(b@)),
{
    if a.len() != b.len() {
        return false;
    }
    let mut i: usize = 0;
    while i < a.len()
        invariant
            i <= a@.len(),
            a@.len() == b@.len(),
            views(a@).subrange(0, i as int) == views(b@).subrange(0, i as int),
        decreases a@.len() - i,
    {
        if !bytes_eq(a[i].as_slice(), b[i].as_slice()) {
            assert(views(a@)[i as int] != views(b@)[i as int]);
            return false;
        }
        assert(views(a@).subrange(0, i + 1) =~= views(a@).subrange(0, i as int).push(views(a@)[i as int]));
        assert(views(b@).subrange(0, i + 1) =~= views(b@).subrange(0, i as int).push(views(b@)[i as int]));
        i = i + 1;
    }
    assert(views(a@) =~= views(a@).subrange(0, i as int));
    assert(views(b@) =~= views(b@).subrange(0, i as int));
    true
}

/// The total length of `items`, or `usize::MAX` where it is larger.
fn items_len_saturating(items: &Vec<Vec<u8>>) -> (r: usize)
    ensures
        r == if flatten(views(items@)).len() <= usize::MAX {
            flatten(views(items@)).len()
        } else {
            usize::MAX as nat
        },
{
    let mut total: usize = 0;
    let mut i: usize = 0;
    while i < items.len()
        invariant
            i <= items@.len(),
            total == if flatten(views(items@).subrange(0, i as int)).len() <= usize::MAX {
                flatten(views(items@).subrange(0, i as int)).len()
            } else {
                usize::MAX as nat
            },
        decreases items@.len() - i,
    {
        proof {
            let q = views(items@).subrange(0, i + 1);
            assert(q.drop_last() =~= views(items@).subrange(0, i as int));
        }
        total = total.saturating_add(items[i].len());
        i = i + 1;
    }
    assert(views(items@).subrange(0, i as int) =~= views(items@));
    total
}

/// Whether a pack of `ps` sits at `path` with exactly these keys and values.
fn find_same(ps: &Vec<Pack>, path: &Vec<u8>, keys: &Vec<Vec<u8>>, contents: &Vec<Vec<u8>>) -> (r: bool)
    requires
        all_wf(ps@),
    ensures
        r == exists|j: int| 0 <= j < ps@.len() && ps@[j].path@ == path@ && ps@[j].key_views() == views(keys@)
            && ps@[j].content_views() == views(contents@),
{
    let mut j: usize = 0;
    while j < ps.len()
        invariant
            j <= ps@.len(),
            all_wf(ps@),
            forall|x: int| 0 <= x < j ==> !(ps@[x].path@ == path@ && ps@[x].key_views() == views(keys@)
                && ps@[x].content_views() == views(contents@)),
        decreases ps@.len() - j,
    {
        let p = &ps[j];
        assert(p.wf());
        if bytes_eq(p.path.as_slice(), path.as_slice()) && items_eq(p.keys.expect_value(), keys)
            && items_eq(p.contents.expect_value(), contents) {
            return true;
        }
        j = j + 1;
    }
    false
}

/// Whether a pack of `ps` sits at `path`.
fn has_path(ps: &Vec<Pack>, path: &Vec<u8>) -> (r: bool)
    ensures
        r == path_taken(ps@, path@),
{
    let mut i: usize = 0;
    while i < ps.len()
        invariant
            i <= ps@.len(),
            forall|x: int| 0 <= x < i ==> ps@[x].path@ != path@,
        decreases ps@.len() - i,
    {
        if bytes_eq(ps[i].path.as_slice(), path.as_slice()) {
            return true;
        }
        i = i + 1;
    }
    false
}


pub open spec fn saturated(n: nat) -> nat {
    if n <= usize::MAX {
        n
    } else {
        usize::MAX as nat
    }
}

pub open spec fn pack_written(wrote: Seq<(Vec<u8>, Vec<u8>)>, p: Pack) -> bool {
    exists|w: int| 0 <= w < wrote.len() && wrote[w].0@ == p.path@ && wrote[w].1@ == pack_bytes(p.key_views(), p.content_views())
}

/// Each file to write is a new pack at its path, with its bytes.
#[verifier::opaque]
pub open spec fn writes_sound(wrote: Seq<(Vec<u8>, Vec<u8>)>, packs: Seq<Pack>) -> bool {
    forall|w: int| 0 <= w < wrote.len() ==> exists|x: int| 0 <= x < packs.len()
        && (#[trigger] wrote[w]).0@ == packs[x].path@ && wrote[w].1@ == pack_bytes(
        packs[x].key_views(),
        packs[x].content_views(),
    )
}

/// Each new pack is written, or already stands in `prev` as it is.
#[verifier::opaque]
pub open spec fn writes_complete(wrote: Seq<(Vec<u8>, Vec<u8>)>, packs: Seq<Pack>, prev: Seq<Pack>) -> bool {
    forall|x: int| 0 <= x < packs.len() ==> pack_written(wrote, #[trigger] packs[x]) || exists|j: int|
        0 <= j < prev.len() && same_pack(prev[j], packs[x])
}

/// The files to remove are exactly the paths of `prev` that no pack of
/// `packs` takes.
#[verifier::opaque]
pub open spec fn removals_exact(removed: Seq<Vec<u8>>, prev: Seq<Pack>, packs: Seq<Pack>) -> bool {
    &&& forall|x: int| 0 <= x < removed.len() ==> left_behind(prev, packs, (#[trigger] removed[x])@)
    &&& forall|j: int| 0 <= j < prev.len() && !path_taken(packs, (#[trigger] prev[j]).path@) ==> exists|x: int|
        0 <= x < removed.len() && removed[x]@ == prev[j].path@
}

/// `path` is the path of a pack of `prev` that no pack of `packs` takes.
pub open spec fn left_behind(prev: Seq<Pack>, packs: Seq<Pack>, path: Seq<u8>) -> bool {
    exists|j: int| 0 <= j < prev.len() && prev[j].path@ == path && !path_taken(packs, path)
}

/// Some pack of `packs` sits at `path`.
pub open spec fn path_taken(packs: Seq<Pack>, path: Seq<u8>) -> bool {
    exists|i: int| 0 <= i < packs.len() && packs[i].path@ == path
}

/// The meta entry that lists pack `p`.
pub open spec fn meta_of(m: PackFileMeta, p: Pack) -> bool {
    &&& m.name@ == pack_name(p.key_views())
    &&& m.hash@ == pack_hash(p.content_views())
    &&& m.size == saturated(p.spec_size())
}

pub proof fn lemma_bucket_entries_push(ps: Seq<Pack>, p: Pack)
    ensures
        bucket_entries(ps.push(p)) == bucket_entries(ps) + p.entries(),
{
    assert(ps.push(p).drop_last() =~= ps);
}

/// Turns the groups into packs in `dir`, with their meta entries, and
/// lists the packs to write: all but those that `prev` holds already.
#[verifier::spinoff_prover]
#[verifier::rlimit(80)]
fn build_packs(groups: Vec<(Vec<Vec<u8>>, Vec<Vec<u8>>)>, prev: &Vec<Pack>, dir: &Vec<u8>) -> (r: (
    Vec<Pack>,
    Vec<PackFileMeta>,
    Vec<(Vec<u8>, Vec<u8>)>,
))
    requires
        all_wf(prev@),
        forall|x: int| 0 <= x < groups@.len() ==> (#[trigger] group_views(groups@)[x]).0.len()
            == group_views(groups@)[x].1.len(),
    ensures
        r.0@.len() == groups@.len(),
        r.1@.len() == groups@.len(),
        bucket_entries(r.0@) == concat_groups(group_views(groups@)),
        all_wf(r.0@),
        forall|x: int| 0 <= x < r.0@.len() ==> (#[trigger] r.0@[x]).key_views() == group_views(groups@)[x].0
            && r.0@[x].content_views() == group_views(groups@)[x].1,
        forall|x: int| 0 <= x < r.0@.len() ==> (#[trigger] r.0@[x]).path@ == pack_path(dir@, pack_name(r.0@[x].key_views()), pack_hash(r.0@[x].content_views())),
        forall|x: int| 0 <= x < r.0@.len() ==> meta_of(#[trigger] r.1@[x], r.0@[x]),
        writes_sound(r.2@, r.0@),
        writes_complete(r.2@, r.0@, prev@),
{
    let mut groups = groups;
    let ghost gv = group_views(groups@);
    let mut packs: Vec<Pack> = Vec::new();
    let mut metas: Vec<PackFileMeta> = Vec::new();
    let mut wrote: Vec<(Vec<u8>, Vec<u8>)> = Vec::new();
    let mut i: usize = 0;
    proof {
        assert(gv.subrange(0, 0) =~= Seq::<(Seq<Seq<u8>>, Seq<Seq<u8>>)>::empty());
        assert(bucket_entries(packs@) =~= concat_groups(gv.subrange(0, 0)));
    }
    while i < groups.len()
        invariant
            i <= groups@.len(),
            groups@.len() == gv.len(),
            all_wf(prev@),
            forall|x: int| i <= x < gv.len() ==> group_views(groups@)[x] == gv[x],
            forall|x: int| 0 <= x < gv.len() ==> (#[trigger] gv[x]).0.len() == gv[x].1.len(),
            packs@.len() == i,
            metas@.len() == i,
            bucket_entries(packs@) == concat_groups(gv.subrange(0, i as int)),
            all_wf(packs@),
            forall|x: int| 0 <= x < i ==> (#[trigger] packs@[x]).key_views() == gv[x].0 && packs@[x].content_views()
                == gv[x].1,
            forall|x: int| 0 <= x < i ==> (#[trigger] packs@[x]).path@ == pack_path(dir@, pack_name(packs@[x].key_views()), pack_hash(packs@[x].content_views())),
            forall|x: int| 0 <= x < i ==> meta_of(#[trigger] metas@[x], packs@[x]),
            forall|w: int| 0 <= w < wrote@.len() ==> exists|x: int| 0 <= x < packs@.len()
                && (#[trigger] wrote@[w]).0@ == packs@[x].path@ && wrote@[w].1@ == pack_bytes(
                packs@[x].key_views(),
                packs@[x].content_views(),
            ),
            forall|x: int| 0 <= x < i ==> pack_written(wrote@, #[trigger] packs@[x]) || exists|j: int|
                0 <= j < prev@.len() && same_pack(prev@[j], packs@[x]),
        decreases groups@.len() - i,
    {
        let mut g: (Vec<Vec<u8>>, Vec<Vec<u8>>) = (Vec::new(), Vec::new());
        groups.set_and_swap(i, &mut g);
        let (keys, contents) = g;
        assert(views(keys@) == gv[i as int].0 && views(contents@) == gv[i as int].1);
        let name = get_name(&keys, &contents);
        let hash = get_hash(&contents);
        let file = join3(name.as_slice(), DOT, hash.as_slice());
        let path = join3(dir.as_slice(), SLASH, file.as_slice());
        assert(path@ =~= pack_path(dir@, name@, hash@));
        let size = items_len_saturating(&keys).saturating_add(items_len_saturating(&contents));
        let same = find_same(prev, &path, &keys, &contents);
        let ghost wrote_before = wrote@;
        if !same {
            let bytes = encode_pack(&keys, &contents);
            wrote.push((path.clone(), bytes));
        }
        let meta = PackFileMeta { name, hash, size };
        let pack = Pack { path, keys: PackKeysState::Value(keys), contents: PackContentsState::Value(contents) };
        let ghost packs_before = packs@;
        proof {
            assert(pack.wf());
            assert(meta_of(meta, pack));
        }
        metas.push(meta);
        packs.push(pack);
        proof {
            lemma_bucket_entries_push(packs_before, pack);
            assert(gv.subrange(0, i + 1).drop_last() =~= gv.subrange(0, i as int));
            assert(pack.entries() == zip_entries(gv[i as int].0, gv[i as int].1));
            assert(packs@[i as int] == pack);
            assert forall|x: int| 0 <= x < packs@.len() implies (#[trigger] packs@[x]).wf() by {
                if x < i {
                    assert(packs@[x] == packs_before[x]);
                }
            }
            assert forall|w: int| 0 <= w < wrote@.len() implies exists|x: int| 0 <= x < packs@.len()
                && (#[trigger] wrote@[w]).0@ == packs@[x].path@ && wrote@[w].1@ == pack_bytes(
                packs@[x].key_views(),
                packs@[x].content_views(),
            ) by {
                if w < wrote_before.len() {
                    let x = choose|x: int| 0 <= x < packs_before.len() && wrote_before[w].0@ == packs_before[x].path@
                        && wrote_before[w].1@ == pack_bytes(packs_before[x].key_views(), packs_before[x].content_views());
                    assert(packs@[x] == packs_before[x]);
                } else {
                    assert(wrote@[w].0@ == packs@[i as int].path@);
                }
            }
            assert forall|x: int| 0 <= x < packs@.len() implies pack_written(wrote@, #[trigger] packs@[x]) || exists|j: int|
                0 <= j < prev@.len() && same_pack(prev@[j], packs@[x]) by {
                if x < i {
                    assert(packs@[x] == packs_before[x]);
                    if pack_written(wrote_before, packs_before[x]) {
                        let w = choose|w: int| 0 <= w < wrote_before.len() && wrote_before[w].0@ == packs_before[x].path@
                            && wrote_before[w].1@ == pack_bytes(packs_before[x].key_views(), packs_before[x].content_views());
                        assert(wrote@[w] == wrote_before[w]);
                    }
                } else {
                    if !same {
                        assert(wrote@[wrote@.len() - 1].0@ == packs@[x].path@);
                    } else {
                        let j = choose|j: int| 0 <= j < prev@.len() && prev@[j].path@ == pack.path@ && prev@[j].key_views()
                            == pack.key_views() && prev@[j].content_views() == pack.content_views();
                        assert(same_pack(prev@[j], packs@[x]));
                    }
                }
            }
        }
        i = i + 1;
    }
    assert(gv.subrange(0, i as int) =~= gv);
    proof {
        reveal(writes_sound);
        reveal(writes_complete);
    }
    (packs, metas, wrote)
}

/// The paths of the packs of `prev` that no pack of `packs` takes.
fn removed_paths(prev: &Vec<Pack>, packs: &Vec<Pack>) -> (r: Vec<Vec<u8>>)
    ensures
        removals_exact(r@, prev@, packs@),
{
    let mut removed: Vec<Vec<u8>> = Vec::new();
    let mut j: usize = 0;
    while j < prev.len()
        invariant
            j <= prev@.len(),
            forall|x: int| 0 <= x < removed@.len() ==> left_behind(prev@, packs@, (#[trigger] removed@[x])@),
            forall|o: int| 0 <= o < j && !path_taken(packs@, (#[trigger] prev@[o]).path@) ==> exists|x: int|
                0 <= x < removed@.len() && removed@[x]@ == prev@[o].path@,
        decreases prev@.len() - j,
    {
        let ghost removed_before = removed@;
        let taken = has_path(packs, &prev[j].path);
        if !taken {
            removed.push(prev[j].path.clone());
            assert(removed@[removed@.len() - 1]@ == prev@[j as int].path@);
        }
        proof {
            assert forall|x: int| 0 <= x < removed@.len() implies left_behind(prev@, packs@, (#[trigger] removed@[x])@) by {
                if x < removed_before.len() {
                    assert(removed@[x] == removed_before[x]);
                } else {
                    assert(!taken);
                    assert(removed@[x]@ == prev@[j as int].path@);
                    assert(!path_taken(packs@, prev@[j as int].path@));
                }
            }
            assert forall|o: int| 0 <= o < j + 1 && !path_taken(packs@, (#[trigger] prev@[o]).path@) implies exists|x: int|
                0 <= x < removed@.len() && removed@[x]@ == prev@[o].path@ by {
                if o < j {
                    let x = choose|x: int| 0 <= x < removed_before.len() && removed_before[x]@ == prev@[o].path@;
                    assert(removed@[x] == removed_before[x]);
                } else {
                    assert(removed@[removed@.len() - 1]@ == prev@[j as int].path@);
                }
            }
        }
        j = j + 1;
    }
    proof {
        reveal(removals_exact);
    }
    removed
}

/// Flushes one bucket: applies `upd` to the pairs of `prev`, cuts the result
/// into packs of at most `pack_size` bytes, names each pack after its keys
/// and places it in `dir`.
///
/// A pack that `prev` already holds at the same path, with the same keys and
/// values, is not written again; every other new pack is. A file of `prev`
/// that no new pack takes is removed.
pub fn flush_bucket(
    prev: &Vec<Pack>,
    upd: &Vec<(Vec<u8>, Option<Vec<u8>>)>,
    pack_size: usize,
    dir: &Vec<u8>,
) -> (r: BucketFlush)
    requires
        all_wf(prev@),
        unique_keys(bucket_entries(prev@)),
        unique_keys(update_pairs(upd@)),
    ensures
        all_wf(r.packs@),
        r.packs@.len() == r.metas@.len(),
        unique_keys(bucket_entries(r.packs@)),
        assoc(bucket_entries(r.packs@)) == apply_updates(assoc(bucket_entries(prev@)), assoc(update_pairs(upd@))),
        forall|i: int| 0 <= i < r.packs@.len() ==> group_ok(
            (#[trigger] r.packs@[i].key_views(), r.packs@[i].content_views()),
            pack_size as nat,
        ),
        forall|i: int| 0 <= i < r.packs@.len() ==> (#[trigger] r.packs@[i]).path@ == pack_path(
            dir@,
            pack_name(r.packs@[i].key_views()),
            pack_hash(r.packs@[i].content_views()),
        ),
        forall|i: int| 0 <= i < r.packs@.len() ==> meta_of(#[trigger] r.metas@[i], r.packs@[i]),
        greedy(pack_views(r.packs@), pack_size as nat),
        writes_sound(r.wrote@, r.packs@),
        writes_complete(r.wrote@, r.packs@, prev@),
        removals_exact(r.removed@, prev@, r.packs@),
{
    let entries = collect_entries(prev);
    let merged = merge_entries(&entries, upd);
    let groups = split_entries(&merged, pack_size);
    let ghost gv = group_views(groups@);
    let (packs, metas, wrote) = build_packs(groups, prev, dir);
    let removed = removed_paths(prev, &packs);
    proof {
        assert(pack_views(packs@) =~= gv);
        assert forall|x: int| 0 <= x < packs@.len() implies group_ok(
            (#[trigger] packs@[x].key_views(), packs@[x].content_views()),
            pack_size as nat,
        ) by {
            assert(gv[x] == (packs@[x].key_views(), packs@[x].content_views()));
        }
    }
    BucketFlush { packs, metas, wrote, removed }
}

} // verus!
