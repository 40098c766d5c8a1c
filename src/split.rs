//! Cutting the pairs of a bucket into packs of bounded size.
use vstd::prelude::*;
use crate::codec::{flatten, views};
use crate::merge::pairs;
use crate::pack::zip_entries;

verus! {

pub open spec fn group_view(g: (Vec<Vec<u8>>, Vec<Vec<u8>>)) -> (Seq<Seq<u8>>, Seq<Seq<u8>>) {
    (views(g.0@), views(g.1@))
}

pub open spec fn group_views(gs: Seq<(Vec<Vec<u8>>, Vec<Vec<u8>>)>) -> Seq<(Seq<Seq<u8>>, Seq<Seq<u8>>)> {
    gs.map_values(|g: (Vec<Vec<u8>>, Vec<Vec<u8>>)| group_view(g))
}

/// The pairs of all groups, group after group.
pub open spec fn concat_groups(gs: Seq<(Seq<Seq<u8>>, Seq<Seq<u8>>)>) -> Seq<(Seq<u8>, Seq<u8>)>
    decreases gs.len(),
{
    if gs.len() == 0 {
        Seq::empty()
    } else {
        concat_groups(gs.drop_last()) + zip_entries(gs.last().0, gs.last().1)
    }
}

pub open spec fn group_size(g: (Seq<Seq<u8>>, Seq<Seq<u8>>)) -> nat {
    flatten(g.0).len() + flatten(g.1).len()
}

/// A group as a pack holds it: at least one pair, as many values as keys,
/// and no more than `pack_size` bytes unless it is a single pair.
pub open spec fn group_ok(g: (Seq<Seq<u8>>, Seq<Seq<u8>>), pack_size: nat) -> bool {
    &&& g.0.len() >= 1
    &&& g.0.len() == g.1.len()
    &&& (group_size(g) <= pack_size || g.0.len() == 1)
}

/// The bytes of the first pair of a group.
pub open spec fn first_size(g: (Seq<Seq<u8>>, Seq<Seq<u8>>)) -> nat {
    g.0[0].len() + g.1[0].len()
}

/// Each group but the last was closed because the first pair of the next
/// one would not have fit in it.
pub open spec fn greedy(gs: Seq<(Seq<Seq<u8>>, Seq<Seq<u8>>)>, pack_size: nat) -> bool {
    forall|i: int| 0 <= i < gs.len() - 1 ==> group_size(#[trigger] gs[i]) + first_size(gs[i + 1]) > pack_size
}

proof fn lemma_zip_push(k: Seq<Seq<u8>>, v: Seq<Seq<u8>>, a: Seq<u8>, b: Seq<u8>)
    requires
        k.len() == v.len(),
    ensures
        zip_entries(k.push(a), v.push(b)) == zip_entries(k, v).push((a, b)),
{
    assert(zip_entries(k.push(a), v.push(b)) =~= zip_entries(k, v).push((a, b)));
}

/// Cuts `entries` into groups, in order: a group takes pairs as long as
/// they fit in `pack_size` bytes; a pair larger than that alone makes a
/// group of its own.
pub fn split_entries(entries: &Vec<(Vec<u8>, Vec<u8>)>, pack_size: usize) -> (r: Vec<(Vec<Vec<u8>>, Vec<Vec<u8>>)>)
    ensures
        concat_groups(group_views(r@)) == pairs(entries@),
        forall|i: int| 0 <= i < r@.len() ==> group_ok(#[trigger] group_views(r@)[i], pack_size as nat),
        greedy(group_views(r@), pack_size as nat),
{
    let mut groups: Vec<(Vec<Vec<u8>>, Vec<Vec<u8>>)> = Vec::new();
    let mut cur_k: Vec<Vec<u8>> = Vec::new();
    let mut cur_v: Vec<Vec<u8>> = Vec::new();
    let mut cur_size: usize = 0;
    let mut i: usize = 0;
    proof {
        assert(views(cur_k@) =~= Seq::<Seq<u8>>::empty());
        assert(views(cur_v@) =~= Seq::<Seq<u8>>::empty());
        assert(group_views(groups@) =~= Seq::<(Seq<Seq<u8>>, Seq<Seq<u8>>)>::empty());
        assert(zip_entries(views(cur_k@), views(cur_v@)) =~= Seq::<(Seq<u8>, Seq<u8>)>::empty());
        assert(pairs(entries@).subrange(0, 0) =~= Seq::<(Seq<u8>, Seq<u8>)>::empty());
    }
    while i < entries.len()
        invariant
            i <= entries@.len(),
            cur_k@.len() == cur_v@.len(),
            cur_size == flatten(views(cur_k@)).len() + flatten(views(cur_v@)).len(),
            cur_size <= pack_size,
            concat_groups(group_views(groups@)) + zip_entries(views(cur_k@), views(cur_v@))
                == pairs(entries@).subrange(0, i as int),
            forall|j: int| 0 <= j < groups@.len() ==> group_ok(#[trigger] group_views(groups@)[j], pack_size as nat),
            greedy(group_views(groups@), pack_size as nat),
            groups@.len() > 0 && cur_k@.len() == 0 ==> group_size(group_views(groups@).last()) > pack_size,
            groups@.len() > 0 && cur_k@.len() > 0 ==> group_size(group_views(groups@).last()) + cur_k@[0]@.len()
                + cur_v@[0]@.len() > pack_size,
        decreases entries@.len() - i,
    {
        let k = &entries[i].0;
        let v = &entries[i].1;
        let ghost e = pairs(entries@)[i as int];
        proof {
            assert(pairs(entries@).subrange(0, i + 1) =~= pairs(entries@).subrange(0, i as int).push(e));
        }
        let oversize = k.len() > pack_size || v.len() > pack_size - k.len();
        if oversize || k.len() + v.len() > pack_size - cur_size {
            if cur_k.len() > 0 {
                let ghost gs = group_views(groups@);
                let ghost g = (views(cur_k@), views(cur_v@));
                groups.push((cur_k, cur_v));
                proof {
                    assert(group_views(groups@) =~= gs.push(g));
                    assert(group_views(groups@).drop_last() =~= gs);
                    assert(group_ok(g, pack_size as nat));
                }
                cur_k = Vec::new();
                cur_v = Vec::new();
                cur_size = 0;
                proof {
                    assert(views(cur_k@) =~= Seq::<Seq<u8>>::empty());
                    assert(views(cur_v@) =~= Seq::<Seq<u8>>::empty());
                    assert(zip_entries(views(cur_k@), views(cur_v@)) =~= Seq::<(Seq<u8>, Seq<u8>)>::empty());
                    assert(concat_groups(group_views(groups@)) =~= concat_groups(gs) + zip_entries(g.0, g.1));
                }
            }
        }
        if oversize {
            let ghost gs = group_views(groups@);
            let ks = vec![k.clone()];
            let vs = vec![v.clone()];
            let ghost g = (views(ks@), views(vs@));
            proof {
                assert(views(ks@) =~= seq![k@]);
                assert(views(vs@) =~= seq![v@]);
                assert(zip_entries(g.0, g.1) =~= seq![e]);
            }
            groups.push((ks, vs));
            proof {
                assert(group_views(groups@) =~= gs.push(g));
                assert(group_views(groups@).drop_last() =~= gs);
                assert(concat_groups(group_views(groups@)) =~= concat_groups(gs) + zip_entries(g.0, g.1));
                assert(zip_entries(views(cur_k@), views(cur_v@)) =~= Seq::<(Seq<u8>, Seq<u8>)>::empty());
                assert(concat_groups(gs) =~= pairs(entries@).subrange(0, i as int));
            }
        } else {
            let ghost ck = views(cur_k@);
            let ghost cv = views(cur_v@);
            let item = k.len() + v.len();
            cur_k.push(k.clone());
            cur_v.push(v.clone());
            cur_size = cur_size + item;
            proof {
                assert(views(cur_k@) =~= ck.push(k@));
                assert(views(cur_v@) =~= cv.push(v@));
                assert(views(cur_k@).drop_last() =~= ck);
                assert(views(cur_v@).drop_last() =~= cv);
                assert(flatten(views(cur_k@)) == flatten(ck) + k@);
                assert(flatten(views(cur_v@)) == flatten(cv) + v@);
                lemma_zip_push(ck, cv, k@, v@);
            }
        }
        i = i + 1;
    }
    if cur_k.len() > 0 {
        let ghost gs = group_views(groups@);
        let ghost g = (views(cur_k@), views(cur_v@));
        groups.push((cur_k, cur_v));
        proof {
            assert(group_views(groups@) =~= gs.push(g));
            assert(group_views(groups@).drop_last() =~= gs);
            assert(concat_groups(group_views(groups@)) =~= concat_groups(gs) + zip_entries(g.0, g.1));
        }
    } else {
        proof {
            assert(zip_entries(views(cur_k@), views(cur_v@)) =~= Seq::<(Seq<u8>, Seq<u8>)>::empty());
            assert(concat_groups(group_views(groups@)) =~= concat_groups(group_views(groups@)) + Seq::<(Seq<u8>, Seq<u8>)>::empty());
        }
    }
    assert(pairs(entries@).subrange(0, i as int) =~= pairs(entries@));
    groups
}

} // verus!
