//! Listing the packs of a scope by position.
use vstd::prelude::*;
use crate::meta::PackFileMeta;
use crate::pack::Pack;

verus! {

/// `(b, i)` comes before `(c, j)`: bucket first, then position.
pub open spec fn index_before(x: (usize, usize), y: (usize, usize)) -> bool {
    x.0 < y.0 || (x.0 == y.0 && x.1 < y.1)
}

/// `(c, j)` stands in `out`.
pub open spec fn listed(out: Seq<(usize, usize)>, c: int, j: int) -> bool {
    exists|x: int| 0 <= x < out.len() && out[x].0 == c && out[x].1 == j
}

/// The filter, where there is one, turned down the pack at `(c, j)`.
pub open spec fn turned_down<F: Fn(&Pack, &PackFileMeta) -> bool>(
    filter: Option<F>,
    packs: Seq<Vec<Pack>>,
    metas: Seq<Vec<PackFileMeta>>,
    c: int,
    j: int,
) -> bool {
    filter matches Some(f) && f.ensures((&packs[c]@[j], &metas[c]@[j]), false)
}

/// The filter, where there is one, kept the pack at `(c, j)`.
pub open spec fn kept_by<F: Fn(&Pack, &PackFileMeta) -> bool>(
    filter: Option<F>,
    packs: Seq<Vec<Pack>>,
    metas: Seq<Vec<PackFileMeta>>,
    c: int,
    j: int,
) -> bool {
    filter matches Some(f) ==> f.ensures((&packs[c]@[j], &metas[c]@[j]), true)
}

/// The position `(bucket, pack)` of every pack that `filter` keeps (every
/// pack where there is no filter), bucket after bucket, in order.
pub fn get_indexed_packs<F: Fn(&Pack, &PackFileMeta) -> bool>(
    packs: &Vec<Vec<Pack>>,
    metas: &Vec<Vec<PackFileMeta>>,
    filter: Option<F>,
) -> (r: Vec<(usize, usize)>)
    requires
        packs@.len() == metas@.len(),
        forall|b: int| 0 <= b < packs@.len() ==> (#[trigger] packs@[b])@.len() == metas@[b]@.len(),
        filter matches Some(f) ==> forall|p: &Pack, m: &PackFileMeta| #[trigger] f.requires((p, m)),
    ensures
        forall|x: int| 0 <= x < r@.len() ==> (#[trigger] r@[x]).0 < packs@.len() && r@[x].1 < packs@[r@[x].0 as int]@.len(),
        forall|x: int, y: int| 0 <= x < y < r@.len() ==> index_before(#[trigger] r@[x], #[trigger] r@[y]),
        forall|x: int| 0 <= x < r@.len() ==> kept_by(filter, packs@, metas@, (#[trigger] r@[x]).0 as int, r@[x].1 as int),
        forall|b: int, i: int| 0 <= b < packs@.len() && 0 <= i < packs@[b]@.len() ==> #[trigger] listed(r@, b, i)
            || turned_down(filter, packs@, metas@, b, i),
{
    let mut out: Vec<(usize, usize)> = Vec::new();
    let mut b: usize = 0;
    while b < packs.len()
        invariant
            b <= packs@.len(),
            packs@.len() == metas@.len(),
            forall|c: int| 0 <= c < packs@.len() ==> (#[trigger] packs@[c])@.len() == metas@[c]@.len(),
            filter matches Some(f) ==> forall|p: &Pack, m: &PackFileMeta| #[trigger] f.requires((p, m)),
            forall|x: int| 0 <= x < out@.len() ==> (#[trigger] out@[x]).0 < b && out@[x].1 < packs@[out@[x].0 as int]@.len(),
            forall|x: int, y: int| 0 <= x < y < out@.len() ==> index_before(#[trigger] out@[x], #[trigger] out@[y]),
            forall|x: int| 0 <= x < out@.len() ==> kept_by(filter, packs@, metas@, (#[trigger] out@[x]).0 as int, out@[x].1 as int),
            forall|c: int, i: int| 0 <= c < b && 0 <= i < packs@[c]@.len() ==> #[trigger] listed(out@, c, i)
                || turned_down(filter, packs@, metas@, c, i),
        decreases packs@.len() - b,
    {
        let mut i: usize = 0;
        while i < packs[b].len()
            invariant
                b < packs@.len(),
                i <= packs@[b as int]@.len(),
                packs@.len() == metas@.len(),
                forall|c: int| 0 <= c < packs@.len() ==> (#[trigger] packs@[c])@.len() == metas@[c]@.len(),
                filter matches Some(f) ==> forall|p: &Pack, m: &PackFileMeta| #[trigger] f.requires((p, m)),
                forall|x: int| 0 <= x < out@.len() ==> ((#[trigger] out@[x]).0 < b || (out@[x].0 == b && out@[x].1 < i))
                    && out@[x].1 < packs@[out@[x].0 as int]@.len(),
                forall|x: int, y: int| 0 <= x < y < out@.len() ==> index_before(#[trigger] out@[x], #[trigger] out@[y]),
                forall|x: int| 0 <= x < out@.len() ==> kept_by(filter, packs@, metas@, (#[trigger] out@[x]).0 as int, out@[x].1 as int),
                forall|c: int, j: int| 0 <= c < packs@.len() && 0 <= j < packs@[c]@.len() && (c < b || (c == b && j < i))
                    ==> #[trigger] listed(out@, c, j) || turned_down(filter, packs@, metas@, c, j),
            decreases packs@[b as int]@.len() - i,
        {
            let keep = match &filter {
                Some(f) => f(&packs[b][i], &metas[b][i]),
                None => true,
            };
            let ghost o0 = out@;
            if keep {
                out.push((b, i));
                proof {
                    assert(out@[o0.len() as int] == (b, i));
                    assert(listed(out@, b as int, i as int));
                    assert forall|c: int, j: int| listed(o0, c, j) implies #[trigger] listed(out@, c, j) by {
                        let x = choose|x: int| 0 <= x < o0.len() && o0[x].0 == c && o0[x].1 == j;
                        assert(out@[x] == o0[x]);
                    }
                    assert forall|x: int, y: int| 0 <= x < y < out@.len() implies index_before(
                        #[trigger] out@[x],
                        #[trigger] out@[y],
                    ) by {
                        if y < o0.len() {
                            assert(out@[x] == o0[x] && out@[y] == o0[y]);
                        } else {
                            assert(out@[x] == o0[x]);
                        }
                    }
                }
            } else {
                assert(turned_down(filter, packs@, metas@, b as int, i as int));
            }
            i = i + 1;
        }
        b = b + 1;
    }
    out
}

} // verus!
