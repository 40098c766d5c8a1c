//! Reading a scope back from its files.
use vstd::prelude::*;
use crate::bucket::{bucket_of, choose_bucket};
use crate::bytes::{bytes_eq, join3};
use crate::codec::{contents_framed, decode_pack_contents, decode_pack_keys, keys_framed};
use crate::memory_fs::PackMemoryFs;
use crate::merge::{key_in, pairs};
use crate::meta::{decode_meta, meta_bytes, plain_meta, Meta, PackFileMeta};
use crate::pack::{zip_entries, Pack, PackContentsState, PackKeysState};
use crate::scope::{bucket_dir, make_bucket_dir, metas_in_step, scope_content, scope_wf, PackOptions};
use crate::strategy::{all_wf, bucket_entries, file_name, DOT, SLASH};
use crate::updates::{assoc, unique_keys};

verus! {

/// The buckets of a scope with the meta entries of their packs.
pub struct LoadedScope {
    pub packs: Vec<Vec<Pack>>,
    pub metas: Vec<Vec<PackFileMeta>>,
}

/// `bucket_size` empty buckets.
pub fn empty_scope(bucket_size: usize) -> (r: LoadedScope)
    requires
        bucket_size >= 1,
    ensures
        scope_wf(r.packs@, bucket_size as nat),
        r.metas@.len() == bucket_size,
        scope_content(r.packs@, bucket_size as nat) == Map::<Seq<u8>, Seq<u8>>::empty(),
        forall|b: int| 0 <= b < r.packs@.len() ==> (#[trigger] r.packs@[b])@.len() == 0,
        metas_in_step(r.packs@, r.metas@),
{
    let mut packs: Vec<Vec<Pack>> = Vec::new();
    let mut metas: Vec<Vec<PackFileMeta>> = Vec::new();
    let mut b: usize = 0;
    while b < bucket_size
        invariant
            b <= bucket_size,
            packs@.len() == b,
            metas@.len() == b,
            forall|x: int| 0 <= x < b ==> (#[trigger] packs@[x])@.len() == 0,
            forall|x: int| 0 <= x < b ==> (#[trigger] metas@[x])@.len() == 0,
        decreases bucket_size - b,
    {
        packs.push(Vec::new());
        metas.push(Vec::new());
        b = b + 1;
    }
    proof {
        assert forall|x: int| 0 <= x < packs@.len() implies bucket_entries(#[trigger] packs@[x]@) == Seq::<(Seq<u8>, Seq<u8>)>::empty() by {
            assert(packs@[x]@.len() == 0);
        }
        assert forall|x: int, k: Seq<u8>| 0 <= x < packs@.len() && #[trigger] key_in(bucket_entries(packs@[x]@), k)
            implies bucket_of(k, bucket_size as nat) == x by {
            assert(bucket_entries(packs@[x]@) == Seq::<(Seq<u8>, Seq<u8>)>::empty());
        }
        assert forall|k: Seq<u8>| !#[trigger] scope_content(packs@, bucket_size as nat).contains_key(k) by {
            let x = bucket_of(k, bucket_size as nat) as int;
            vstd::arithmetic::div_mod::lemma_mod_bound(crate::bucket::byte_sum(k) as int, bucket_size as int);
            assert(bucket_entries(packs@[x]@) == Seq::<(Seq<u8>, Seq<u8>)>::empty());
            assert(assoc(bucket_entries(packs@[x]@)) == Map::<Seq<u8>, Seq<u8>>::empty());
        }
        assert(scope_content(packs@, bucket_size as nat) =~= Map::<Seq<u8>, Seq<u8>>::empty());
    }
    LoadedScope { packs, metas }
}

pub open spec fn meta_path(dir: Seq<u8>) -> Seq<u8> {
    dir.push(SLASH) + seq![99u8, 97u8, 99u8, 104u8, 101u8, 95u8, 109u8, 101u8, 116u8, 97u8]
}

/// The path of the meta file of the scope in `dir`: `dir/cache_meta`.
pub fn make_meta_path(dir: &Vec<u8>) -> (r: Vec<u8>)
    ensures
        r@ == meta_path(dir@),
{
    let name: Vec<u8> = vec![99u8, 97u8, 99u8, 104u8, 101u8, 95u8, 109u8, 101u8, 116u8, 97u8];
    let r = join3(dir.as_slice(), SLASH, name.as_slice());
    assert(name@ =~= seq![99u8, 97u8, 99u8, 104u8, 101u8, 95u8, 109u8, 101u8, 116u8, 97u8]);
    r
}

/// The pack `p` was read from the file its meta entry `m` names in the
/// bucket directory `bdir` under `root`.
pub open spec fn read_from(fs: Map<Seq<u8>, Seq<u8>>, root: Seq<u8>, bdir: Seq<u8>, m: PackFileMeta, p: Pack) -> bool {
    let file = root.push(SLASH) + p.path@;
    &&& p.path@ == bdir.push(SLASH) + file_name(m.name@, m.hash@)
    &&& fs.contains_key(file)
    &&& keys_framed(fs[file], p.key_views())
    &&& contents_framed(fs[file], p.content_views())
}

/// The keys that the file `bytes` frames (where it frames some).
pub open spec fn framed_keys(bytes: Seq<u8>) -> Seq<Seq<u8>> {
    choose|ks: Seq<Seq<u8>>| keys_framed(bytes, ks)
}

/// The values that the file `bytes` frames (where it frames some).
pub open spec fn framed_contents(bytes: Seq<u8>) -> Seq<Seq<u8>> {
    choose|cs: Seq<Seq<u8>>| contents_framed(bytes, cs)
}

/// The file, under `root`, of the pack that the entry `m` lists in the
/// bucket directory `bdir`.
pub open spec fn stored_file(root: Seq<u8>, bdir: Seq<u8>, m: PackFileMeta) -> Seq<u8> {
    root.push(SLASH) + (bdir.push(SLASH) + file_name(m.name@, m.hash@))
}

/// The file `file` stands and frames as many keys as values.
pub open spec fn pack_stored(fs: Map<Seq<u8>, Seq<u8>>, file: Seq<u8>) -> bool {
    &&& fs.contains_key(file)
    &&& exists|ks: Seq<Seq<u8>>| keys_framed(fs[file], ks)
    &&& exists|cs: Seq<Seq<u8>>| contents_framed(fs[file], cs)
    &&& framed_keys(fs[file]).len() == framed_contents(fs[file]).len()
}

/// The pairs that the files of the entries `list` hold, file after file.
pub open spec fn stored_entries(
    fs: Map<Seq<u8>, Seq<u8>>,
    root: Seq<u8>,
    bdir: Seq<u8>,
    list: Seq<PackFileMeta>,
) -> Seq<(Seq<u8>, Seq<u8>)>
    decreases list.len(),
{
    if list.len() == 0 {
        Seq::empty()
    } else {
        let f = fs[stored_file(root, bdir, list.last())];
        stored_entries(fs, root, bdir, list.drop_last()) + zip_entries(framed_keys(f), framed_contents(f))
    }
}

/// Every pack that `list` names for bucket `b` stands and frames as many
/// keys as values; no key stands twice in the bucket, and each routes to it.
pub open spec fn bucket_stored(
    fs: Map<Seq<u8>, Seq<u8>>,
    root: Seq<u8>,
    bdir: Seq<u8>,
    list: Seq<PackFileMeta>,
    b: nat,
    bucket_size: nat,
) -> bool {
    &&& forall|i: int| 0 <= i < list.len() ==> pack_stored(fs, #[trigger] stored_file(root, bdir, list[i]))
    &&& unique_keys(stored_entries(fs, root, bdir, list))
    &&& forall|k: Seq<u8>| #[trigger] key_in(stored_entries(fs, root, bdir, list), k) ==> bucket_of(k, bucket_size) == b
}

/// The scope in `dir` under `root` is stored whole: its meta file stands
/// and decodes to a plain meta; and every meta it decodes to has
/// `bucket_size` buckets, each stored whole.
pub open spec fn scope_stored(fs: Map<Seq<u8>, Seq<u8>>, root: Seq<u8>, dir: Seq<u8>, bucket_size: usize) -> bool {
    let file = root.push(SLASH) + meta_path(dir);
    &&& fs.contains_key(file)
    &&& exists|m: Meta| plain_meta(m) && #[trigger] meta_bytes(m) == fs[file]
    &&& forall|m: Meta| #[trigger] meta_bytes(m) == fs[file] ==> m.bucket_size == bucket_size && m.packs@.len()
        == bucket_size && forall|b: int| 0 <= b < bucket_size ==> bucket_stored(
        fs,
        root,
        bucket_dir(dir, b as nat),
        (#[trigger] m.packs@[b])@,
        b as nat,
        bucket_size as nat,
    )
}

/// Whether no key stands twice in `entries`.
fn keys_unique(entries: &Vec<(Vec<u8>, Vec<u8>)>) -> (r: bool)
    ensures
        r == unique_keys(pairs(entries@)),
{
    let ghost e = pairs(entries@);
    let mut i: usize = 0;
    while i < entries.len()
        invariant
            i <= entries@.len(),
            e == pairs(entries@),
            forall|x: int, y: int| 0 <= x < i && 0 <= y < e.len() && x != y ==> e[x].0 != e[y].0,
        decreases entries@.len() - i,
    {
        let mut j: usize = 0;
        while j < entries.len()
            invariant
                i < entries@.len(),
                j <= entries@.len(),
                e == pairs(entries@),
                forall|y: int| 0 <= y < j && y != i ==> e[i as int].0 != e[y].0,
            decreases entries@.len() - j,
        {
            if j != i && bytes_eq(entries[i].0.as_slice(), entries[j].0.as_slice()) {
                assert(e[i as int].0 == e[j as int].0);
                return false;
            }
            j = j + 1;
        }
        i = i + 1;
    }
    true
}

/// Whether every key of `entries` routes to bucket `b`.
fn keys_route(entries: &Vec<(Vec<u8>, Vec<u8>)>, b: usize, bucket_size: usize) -> (r: bool)
    requires
        bucket_size >= 1,
    ensures
        r == forall|k: Seq<u8>| #[trigger] key_in(pairs(entries@), k) ==> bucket_of(k, bucket_size as nat) == b,
{
    let ghost e = pairs(entries@);
    let mut i: usize = 0;
    while i < entries.len()
        invariant
            i <= entries@.len(),
            bucket_size >= 1,
            e == pairs(entries@),
            forall|x: int| 0 <= x < i ==> bucket_of(#[trigger] e[x].0, bucket_size as nat) == b,
        decreases entries@.len() - i,
    {
        if choose_bucket(entries[i].0.as_slice(), &bucket_size) != b {
            assert(key_in(e, e[i as int].0));
            return false;
        }
        i = i + 1;
    }
    assert forall|k: Seq<u8>| #[trigger] key_in(e, k) implies bucket_of(k, bucket_size as nat) == b by {
        let x = choose|x: int| 0 <= x < e.len() && e[x].0 == k;
    }
    true
}

/// Reads the packs listed for bucket `b`, and checks that each key routes
/// to `b` and stands once. It succeeds wherever the bucket is stored whole.
fn load_bucket(fs: &PackMemoryFs, root: &Vec<u8>, bdir: &Vec<u8>, list: &Vec<PackFileMeta>, b: usize, bucket_size: usize) -> (r: Option<
    Vec<Pack>,
>)
    requires
        fs.wf(),
        bucket_size >= 1,
    ensures
        r matches Some(ps) ==> all_wf(ps@) && unique_keys(bucket_entries(ps@)) && forall|k: Seq<u8>|
            #[trigger] key_in(bucket_entries(ps@), k) ==> bucket_of(k, bucket_size as nat) == b,
        r matches Some(ps) ==> ps@.len() == list@.len() && forall|i: int| 0 <= i < ps@.len() ==> read_from(
            fs@,
            root@,
            bdir@,
            list@[i],
            #[trigger] ps@[i],
        ),
        bucket_stored(fs@, root@, bdir@, list@, b as nat, bucket_size as nat) ==> r is Some,
{
    let ghost stored = bucket_stored(fs@, root@, bdir@, list@, b as nat, bucket_size as nat);
    let mut packs: Vec<Pack> = Vec::new();
    let mut i: usize = 0;
    proof {
        assert(bucket_entries(packs@) =~= Seq::<(Seq<u8>, Seq<u8>)>::empty());
        assert(list@.subrange(0, 0) =~= Seq::<PackFileMeta>::empty());
    }
    while i < list.len()
        invariant
            fs.wf(),
            bucket_size >= 1,
            stored == bucket_stored(fs@, root@, bdir@, list@, b as nat, bucket_size as nat),
            all_wf(packs@),
            i <= list@.len(),
            packs@.len() == i,
            forall|x: int| 0 <= x < packs@.len() ==> read_from(fs@, root@, bdir@, list@[x], #[trigger] packs@[x]),
            stored ==> bucket_entries(packs@) == stored_entries(fs@, root@, bdir@, list@.subrange(0, i as int)),
        decreases list@.len() - i,
    {
        let fname = join3(list[i].name.as_slice(), DOT, list[i].hash.as_slice());
        let path = join3(bdir.as_slice(), SLASH, fname.as_slice());
        let file = join3(root.as_slice(), SLASH, path.as_slice());
        let ghost sf = stored_file(root@, bdir@, list@[i as int]);
        proof {
            assert(file@ =~= sf);
            if stored {
                assert(pack_stored(fs@, sf));
                let ks = framed_keys(fs@[sf]);
                let cs = framed_contents(fs@[sf]);
                assert(keys_framed(fs@[sf], ks));
                assert(contents_framed(fs@[sf], cs));
            }
        }
        let bytes = match fs.read_file(file.as_slice()) {
            Some(x) => x,
            None => {
                return None;
            },
        };
        let keys = match decode_pack_keys(bytes.as_slice()) {
            Some(k) => k,
            None => {
                return None;
            },
        };
        let contents = match decode_pack_contents(bytes.as_slice()) {
            Some(c) => c,
            None => {
                return None;
            },
        };
        if keys.len() != contents.len() {
            return None;
        }
        let pack = Pack { path, keys: PackKeysState::Value(keys), contents: PackContentsState::Value(contents) };
        let ghost ps0 = packs@;
        packs.push(pack);
        proof {
            crate::strategy::lemma_bucket_entries_push(ps0, pack);
            assert(packs@ == ps0.push(pack));
            assert forall|x: int| 0 <= x < packs@.len() implies (#[trigger] packs@[x]).wf() by {
                if x < ps0.len() {
                    assert(packs@[x] == ps0[x]);
                }
            }
            assert forall|x: int| 0 <= x < packs@.len() implies read_from(fs@, root@, bdir@, list@[x], #[trigger] packs@[x]) by {
                if x < ps0.len() {
                    assert(packs@[x] == ps0[x]);
                } else {
                    assert(pack.path@ =~= bdir@.push(SLASH) + file_name(list@[x].name@, list@[x].hash@));
                }
            }
            if stored {
                let q = list@.subrange(0, i + 1);
                assert(q.drop_last() =~= list@.subrange(0, i as int));
                assert(q.last() == list@[i as int]);
                assert(pack.key_views() == framed_keys(fs@[sf]));
                assert(pack.content_views() == framed_contents(fs@[sf]));
            }
        }
        i = i + 1;
    }
    let entries = crate::strategy::collect_entries(&packs);
    proof {
        if stored {
            assert(list@.subrange(0, i as int) =~= list@);
        }
    }
    if !keys_unique(&entries) || !keys_route(&entries, b, bucket_size) {
        return None;
    }
    Some(packs)
}

/// Each pack of `s` was read from the file that the meta file of the scope
/// in `dir` under `root` lists for it, and that meta file lists `s.metas`.
pub open spec fn read_scope_from(fs: Map<Seq<u8>, Seq<u8>>, root: Seq<u8>, dir: Seq<u8>, bucket_size: usize, s: LoadedScope) -> bool {
    let file = root.push(SLASH) + meta_path(dir);
    &&& fs.contains_key(file)
    &&& exists|pack_size: usize, timestamp: u64| meta_bytes(
        Meta { bucket_size, pack_size, timestamp, packs: s.metas },
    ) == #[trigger] fs[file]
    &&& s.packs@.len() == s.metas@.len()
    &&& forall|b: int| 0 <= b < s.packs@.len() ==> (#[trigger] s.packs@[b])@.len() == s.metas@[b]@.len()
    &&& forall|b: int, i: int| 0 <= b < s.packs@.len() && 0 <= i < s.packs@[b]@.len() ==> read_from(
        fs,
        root,
        bucket_dir(dir, b as nat),
        s.metas@[b]@[i],
        #[trigger] s.packs@[b]@[i],
    )
}

/// Reads the scope in the directory `dir` under `root`: its meta file, then each pack it lists. Where
/// the meta file is missing, where it is corrupt or made for another bucket
/// count, and where a pack is missing or corrupt, the scope is read as
/// empty: a cache that cannot be trusted is a cache miss.
/// The paths of the packs read are relative to `root`.
pub fn load_scope(fs: &PackMemoryFs, root: &Vec<u8>, dir: &Vec<u8>, options: &PackOptions) -> (r: LoadedScope)
    requires
        fs.wf(),
        options.wf(),
    ensures
        scope_wf(r.packs@, options.bucket_size as nat),
        r.metas@.len() == options.bucket_size,
        !fs@.contains_key(root@.push(SLASH) + meta_path(dir@)) ==> scope_content(r.packs@, options.bucket_size as nat) == Map::<
            Seq<u8>,
            Seq<u8>,
        >::empty(),
        (forall|b: int| 0 <= b < r.packs@.len() ==> (#[trigger] r.packs@[b])@.len() == 0) || read_scope_from(
            fs@,
            root@,
            dir@,
            options.bucket_size,
            r,
        ),
        scope_stored(fs@, root@, dir@, options.bucket_size) ==> read_scope_from(fs@, root@, dir@, options.bucket_size, r),
        metas_in_step(r.packs@, r.metas@),
{
    let ghost stored = scope_stored(fs@, root@, dir@, options.bucket_size);
    let bs = options.bucket_size;
    let mp = make_meta_path(dir);
    let file = join3(root.as_slice(), SLASH, mp.as_slice());
    let bytes = match fs.read_file(file.as_slice()) {
        Some(b) => b,
        None => {
            return empty_scope(bs);
        },
    };
    let meta = match decode_meta(bytes.as_slice()) {
        Some(m) => m,
        None => {
            return empty_scope(bs);
        },
    };
    proof {
        if stored {
            assert(file@ =~= root@.push(SLASH) + meta_path(dir@));
            assert(meta_bytes(meta) == fs@[file@]);
        }
    }
    if meta.bucket_size != bs || meta.packs.len() != bs {
        return empty_scope(bs);
    }
    let mut packs: Vec<Vec<Pack>> = Vec::new();
    let mut b: usize = 0;
    while b < bs
        invariant
            b <= bs,
            bs == options.bucket_size,
            options.wf(),
            fs.wf(),
            meta.packs@.len() == bs,
            packs@.len() == b,
            forall|x: int| 0 <= x < b ==> all_wf(#[trigger] packs@[x]@),
            forall|x: int| 0 <= x < b ==> unique_keys(bucket_entries(#[trigger] packs@[x]@)),
            forall|x: int, k: Seq<u8>| 0 <= x < b && #[trigger] key_in(bucket_entries(packs@[x]@), k)
                ==> bucket_of(k, bs as nat) == x,
            forall|x: int| 0 <= x < b ==> (#[trigger] packs@[x])@.len() == meta.packs@[x]@.len(),
            stored == scope_stored(fs@, root@, dir@, options.bucket_size),
            stored ==> forall|x: int| 0 <= x < bs ==> bucket_stored(
                fs@,
                root@,
                bucket_dir(dir@, x as nat),
                (#[trigger] meta.packs@[x])@,
                x as nat,
                bs as nat,
            ),
            forall|x: int, i: int| 0 <= x < b && 0 <= i < packs@[x]@.len() ==> read_from(
                fs@,
                root@,
                bucket_dir(dir@, x as nat),
                meta.packs@[x]@[i],
                #[trigger] packs@[x]@[i],
            ),
        decreases bs - b,
    {
        let bdir = make_bucket_dir(dir, b);
        proof {
            if stored {
                let mb = meta.packs@[b as int];
                assert(bucket_stored(fs@, root@, bucket_dir(dir@, b as nat), mb@, b as nat, bs as nat));
                assert(meta.packs[b as int] == mb);
            }
        }
        match load_bucket(fs, root, &bdir, &meta.packs[b], b, bs) {
            Some(ps) => {
                let ghost p0 = packs@;
                packs.push(ps);
                proof {
                    assert forall|x: int, k: Seq<u8>| 0 <= x < b + 1 && #[trigger] key_in(bucket_entries(packs@[x]@), k)
                        implies bucket_of(k, bs as nat) == x by {
                        if x < b {
                            assert(packs@[x] == p0[x]);
                        }
                    }
                    assert forall|x: int| 0 <= x < b + 1 implies all_wf(#[trigger] packs@[x]@) by {
                        if x < b {
                            assert(packs@[x] == p0[x]);
                        }
                    }
                    assert forall|x: int| 0 <= x < b + 1 implies unique_keys(bucket_entries(#[trigger] packs@[x]@)) by {
                        if x < b {
                            assert(packs@[x] == p0[x]);
                        }
                    }
                    assert forall|x: int| 0 <= x < b + 1 implies (#[trigger] packs@[x])@.len() == meta.packs@[x]@.len() by {
                        if x < b {
                            assert(packs@[x] == p0[x]);
                        }
                    }
                    assert forall|x: int, i: int| 0 <= x < b + 1 && 0 <= i < packs@[x]@.len() implies read_from(
                        fs@,
                        root@,
                        bucket_dir(dir@, x as nat),
                        meta.packs@[x]@[i],
                        #[trigger] packs@[x]@[i],
                    ) by {
                        if x < b {
                            assert(packs@[x] == p0[x]);
                        }
                    }
                }
            },
            None => {
                return empty_scope(bs);
            },
        }
        b = b + 1;
    }
    let r = LoadedScope { packs, metas: meta.packs };
    proof {
        assert(meta_bytes(Meta { bucket_size: bs, pack_size: meta.pack_size, timestamp: meta.timestamp, packs: r.metas })
            == fs@[file@]);
    }
    r
}

} // verus!
