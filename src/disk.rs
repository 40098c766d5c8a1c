//! The order in which a flush reaches a disk: new pack files first, then
//! the meta files, then files overwritten in place, then removals.
use vstd::prelude::*;
use crate::bytes::bytes_eq;
use crate::memory_fs::PackMemoryFs;
use crate::merge::pairs;
use crate::updates::{assoc, lemma_assoc_domain, lemma_assoc_index, unique_keys};

verus! {

/// One operation on a disk.
pub enum DiskOp {
    Write(Vec<u8>, Vec<u8>),
    Remove(Vec<u8>),
}

pub open spec fn op_path(op: DiskOp) -> Seq<u8> {
    match op {
        DiskOp::Write(p, _) => p@,
        DiskOp::Remove(p) => p@,
    }
}

pub open spec fn apply_op(m: Map<Seq<u8>, Seq<u8>>, op: DiskOp) -> Map<Seq<u8>, Seq<u8>> {
    match op {
        DiskOp::Write(p, b) => m.insert(p@, b@),
        DiskOp::Remove(p) => m.remove(p@),
    }
}

/// The files after `ops`, one after the other.
pub open spec fn apply_ops(m: Map<Seq<u8>, Seq<u8>>, ops: Seq<DiskOp>) -> Map<Seq<u8>, Seq<u8>>
    decreases ops.len(),
{
    if ops.len() == 0 {
        m
    } else {
        apply_op(apply_ops(m, ops.drop_last()), ops.last())
    }
}

pub open spec fn meta_suffix() -> Seq<u8> {
    seq![47u8, 99u8, 97u8, 99u8, 104u8, 101u8, 95u8, 109u8, 101u8, 116u8, 97u8]
}

/// `p` is the path of a meta file: it ends in `/cache_meta`.
pub open spec fn is_meta_path(p: Seq<u8>) -> bool {
    p.len() >= 11 && p.subrange(p.len() - 11, p.len() as int) == meta_suffix()
}

/// The phase of an operation: 0 creates a file that is not there, 1
/// writes a meta file, 2 overwrites another file, 3 removes one.
pub open spec fn phase(op: DiskOp, before: Map<Seq<u8>, Seq<u8>>) -> nat {
    match op {
        DiskOp::Write(p, _) => if is_meta_path(p@) {
            1
        } else if !before.contains_key(p@) {
            0
        } else {
            2
        },
        DiskOp::Remove(_) => 3,
    }
}

pub open spec fn write_phase(p: Seq<u8>, before: Map<Seq<u8>, Seq<u8>>) -> nat {
    if is_meta_path(p) {
        1
    } else if !before.contains_key(p) {
        0
    } else {
        2
    }
}

/// The file at `p` must be written: it is new, or its bytes change.
pub open spec fn changed(p: Seq<u8>, v: Seq<u8>, before: Map<Seq<u8>, Seq<u8>>) -> bool {
    !before.contains_key(p) || before[p] != v
}

/// Each operation is needed: a write puts the new bytes of a changed file,
/// a removal takes a file that is gone from `after`.
pub open spec fn ops_sound(ops: Seq<DiskOp>, before: Map<Seq<u8>, Seq<u8>>, after: Map<Seq<u8>, Seq<u8>>) -> bool {
    forall|i: int| 0 <= i < ops.len() ==> match #[trigger] ops[i] {
        DiskOp::Write(p, v) => after.contains_key(p@) && v@ == after[p@] && changed(p@, v@, before),
        DiskOp::Remove(p) => before.contains_key(p@) && !after.contains_key(p@),
    }
}

pub open spec fn ops_distinct(ops: Seq<DiskOp>) -> bool {
    forall|i: int, j: int| 0 <= i < j < ops.len() ==> op_path(#[trigger] ops[i]) != op_path(#[trigger] ops[j])
}

pub open spec fn ops_ordered(ops: Seq<DiskOp>, before: Map<Seq<u8>, Seq<u8>>) -> bool {
    forall|i: int, j: int| 0 <= i < j < ops.len() ==> phase(#[trigger] ops[i], before) <= phase(#[trigger] ops[j], before)
}

pub open spec fn touched(ops: Seq<DiskOp>, p: Seq<u8>) -> bool {
    exists|i: int| 0 <= i < ops.len() && op_path(ops[i]) == p
}

/// Applying operations on distinct paths: each path touched ends as its
/// operation says, every other path is left alone.
proof fn lemma_apply_distinct(m: Map<Seq<u8>, Seq<u8>>, ops: Seq<DiskOp>, p: Seq<u8>)
    requires
        ops_distinct(ops),
    ensures
        !touched(ops, p) ==> apply_ops(m, ops).contains_key(p) == m.contains_key(p) && (m.contains_key(p)
            ==> apply_ops(m, ops)[p] == m[p]),
        forall|i: int| 0 <= i < ops.len() && op_path(#[trigger] ops[i]) == p ==> match ops[i] {
            DiskOp::Write(q, v) => apply_ops(m, ops).contains_key(p) && apply_ops(m, ops)[p] == v@,
            DiskOp::Remove(q) => !apply_ops(m, ops).contains_key(p),
        },
    decreases ops.len(),
{
    if ops.len() > 0 {
        let d = ops.drop_last();
        assert(ops_distinct(d)) by {
            assert forall|i: int, j: int| 0 <= i < j < d.len() implies op_path(#[trigger] d[i]) != op_path(#[trigger] d[j]) by {
                assert(d[i] == ops[i] && d[j] == ops[j]);
            }
        }
        lemma_apply_distinct(m, d, p);
        if touched(d, p) {
            let i = choose|i: int| 0 <= i < d.len() && op_path(d[i]) == p;
            assert(ops[i] == d[i]);
        }
        if !touched(ops, p) {
            assert(!touched(d, p)) by {
                if touched(d, p) {
                    let i = choose|i: int| 0 <= i < d.len() && op_path(d[i]) == p;
                    assert(op_path(ops[i]) == p);
                }
            }
            assert(op_path(ops[ops.len() - 1]) != p);
        }
        assert forall|i: int| 0 <= i < ops.len() && op_path(#[trigger] ops[i]) == p implies match ops[i] {
            DiskOp::Write(q, v) => apply_ops(m, ops).contains_key(p) && apply_ops(m, ops)[p] == v@,
            DiskOp::Remove(q) => !apply_ops(m, ops).contains_key(p),
        } by {
            if i < ops.len() - 1 {
                assert(d[i] == ops[i]);
                assert(op_path(ops[ops.len() - 1]) != p);
            }
        }
    }
}

proof fn lemma_touched_grows(a: Seq<DiskOp>, b: Seq<DiskOp>, p: Seq<u8>)
    requires
        touched(a, p),
        b.len() >= a.len(),
        forall|i: int| 0 <= i < a.len() ==> b[i] == a[i],
    ensures
        touched(b, p),
{
    let i = choose|i: int| 0 <= i < a.len() && op_path(a[i]) == p;
    assert(b[i] == a[i]);
}

/// A crash before the first meta file is written leaves every file that
/// stood before as it was: the operations before it only create files
/// that were not there. (With `plan_disk_ops`, whose operations are in
/// phase order, these are all the operations before the first one of a
/// later phase.)
pub proof fn lemma_crash_before_meta(before: Map<Seq<u8>, Seq<u8>>, ops: Seq<DiskOp>, k: int, p: Seq<u8>)
    requires
        0 <= k <= ops.len(),
        forall|i: int| 0 <= i < k ==> phase(#[trigger] ops[i], before) == 0,
        before.contains_key(p),
    ensures
        apply_ops(before, ops.subrange(0, k)).contains_key(p),
        apply_ops(before, ops.subrange(0, k))[p] == before[p],
    decreases k,
{
    if k > 0 {
        lemma_crash_before_meta(before, ops, k - 1, p);
        assert(ops.subrange(0, k).drop_last() =~= ops.subrange(0, k - 1));
        assert(phase(ops[k - 1], before) == 0);
        assert(op_path(ops[k - 1]) != p);
    }
}

/// Whether `p` ends in `/cache_meta`.
fn meta_file(p: &[u8]) -> (r: bool)
    ensures
        r == is_meta_path(p@),
{
    let suffix: Vec<u8> = vec![47u8, 99u8, 97u8, 99u8, 104u8, 101u8, 95u8, 109u8, 101u8, 116u8, 97u8];
    assert(suffix@ =~= meta_suffix());
    if p.len() < 11 {
        return false;
    }
    let tail = &p[p.len() - 11..p.len()];
    bytes_eq(tail, suffix.as_slice())
}

/// Appends a write for each changed file of `after` in phase `ph`, in the
/// order of `after`'s list.
fn push_writes(ops: &mut Vec<DiskOp>, before: &PackMemoryFs, after: &PackMemoryFs, ph: u8)
    requires
        before.wf(),
        after.wf(),
        ph <= 2,
        ops_sound(old(ops)@, before@, after@),
        ops_distinct(old(ops)@),
        ops_ordered(old(ops)@, before@),
        forall|i: int| 0 <= i < old(ops)@.len() ==> phase(#[trigger] old(ops)@[i], before@) < ph,
    ensures
        ops_sound(final(ops)@, before@, after@),
        ops_distinct(final(ops)@),
        ops_ordered(final(ops)@, before@),
        forall|i: int| 0 <= i < final(ops)@.len() ==> phase(#[trigger] final(ops)@[i], before@) <= ph,
        final(ops)@.len() >= old(ops)@.len(),
        forall|i: int| 0 <= i < old(ops)@.len() ==> final(ops)@[i] == old(ops)@[i],
        forall|p: Seq<u8>| #[trigger] after@.contains_key(p) && changed(p, after@[p], before@) && write_phase(p, before@)
            == ph ==> touched(final(ops)@, p),
{
    let ghost fa = pairs(after.files@);
    let ghost start = ops@.len();
    let mut x: usize = 0;
    while x < after.files.len()
        invariant
            x <= after.files@.len(),
            before.wf(),
            after.wf(),
            fa == pairs(after.files@),
            ph <= 2,
            start <= ops@.len(),
            forall|i: int| 0 <= i < start ==> ops@[i] == old(ops)@[i],
            forall|i: int| 0 <= i < start ==> phase(#[trigger] old(ops)@[i], before@) < ph,
            ops_sound(ops@, before@, after@),
            ops_distinct(ops@),
            ops_ordered(ops@, before@),
            forall|i: int| 0 <= i < ops@.len() ==> phase(#[trigger] ops@[i], before@) <= ph,
            forall|i: int| start <= i < ops@.len() ==> phase(#[trigger] ops@[i], before@) == ph && exists|y: int|
                0 <= y < x && fa[y].0 == op_path(ops@[i]),
            forall|y: int| 0 <= y < x && changed(fa[y].0, after@[fa[y].0], before@) && write_phase(fa[y].0, before@) == ph
                ==> touched(ops@, #[trigger] fa[y].0),
        decreases after.files@.len() - x,
    {
        let p = &after.files[x].0;
        let v = &after.files[x].1;
        proof {
            lemma_assoc_index(fa, x as int);
        }
        let is_meta = meta_file(p.as_slice());
        let prev = before.read_file(p.as_slice());
        let wph: u8 = if is_meta {
            1
        } else if prev.is_none() {
            0
        } else {
            2
        };
        let change = match &prev {
            None => true,
            Some(old_bytes) => !bytes_eq(old_bytes.as_slice(), v.as_slice()),
        };
        let ghost o0 = ops@;
        if wph == ph && change {
            let op = DiskOp::Write(p.clone(), v.clone());
            proof {
                assert(!touched(o0, p@)) by {
                    if touched(o0, p@) {
                        let i = choose|i: int| 0 <= i < o0.len() && op_path(o0[i]) == p@;
                        if i < start {
                            assert(phase(o0[i], before@) < ph);
                            assert(ops_sound(o0, before@, after@));
                        } else {
                            let y = choose|y: int| 0 <= y < x && fa[y].0 == op_path(o0[i]);
                            assert(fa[y].0 == fa[x as int].0);
                        }
                    }
                }
            }
            ops.push(op);
            proof {
                let n = ops@;
                assert(n[o0.len() as int] == op);
                assert forall|i: int| 0 <= i < n.len() implies match #[trigger] n[i] {
                    DiskOp::Write(q, w) => after@.contains_key(q@) && w@ == after@[q@] && changed(q@, w@, before@),
                    DiskOp::Remove(q) => before@.contains_key(q@) && !after@.contains_key(q@),
                } by {
                    if i < o0.len() {
                        assert(n[i] == o0[i]);
                    }
                }
                assert forall|i: int, j: int| 0 <= i < j < n.len() implies op_path(#[trigger] n[i]) != op_path(#[trigger] n[j]) by {
                    if j < o0.len() {
                        assert(n[i] == o0[i] && n[j] == o0[j]);
                    } else {
                        assert(n[i] == o0[i]);
                    }
                }
                assert forall|i: int, j: int| 0 <= i < j < n.len() implies phase(#[trigger] n[i], before@) <= phase(#[trigger] n[j], before@) by {
                    if j < o0.len() {
                        assert(n[i] == o0[i] && n[j] == o0[j]);
                    } else {
                        assert(n[i] == o0[i]);
                    }
                }
                assert forall|i: int| start <= i < n.len() implies phase(#[trigger] n[i], before@) == ph && exists|y: int|
                    0 <= y < x + 1 && fa[y].0 == op_path(n[i]) by {
                    if i < o0.len() {
                        assert(n[i] == o0[i]);
                        let y = choose|y: int| 0 <= y < x && fa[y].0 == op_path(o0[i]);
                    } else {
                        assert(fa[x as int].0 == op_path(n[i]));
                    }
                }
                assert forall|i: int| 0 <= i < n.len() implies phase(#[trigger] n[i], before@) <= ph by {
                    if i < o0.len() {
                        assert(n[i] == o0[i]);
                    }
                }
                assert forall|y: int| 0 <= y < x + 1 && changed(fa[y].0, after@[fa[y].0], before@) && write_phase(fa[y].0, before@) == ph
                    implies touched(n, #[trigger] fa[y].0) by {
                    if y < x {
                        let i = choose|i: int| 0 <= i < o0.len() && op_path(o0[i]) == fa[y].0;
                        assert(n[i] == o0[i]);
                    } else {
                        assert(op_path(n[o0.len() as int]) == fa[y].0);
                    }
                }
            }
        } else {
            proof {
                assert forall|i: int| start <= i < ops@.len() implies phase(#[trigger] ops@[i], before@) == ph && exists|y: int|
                    0 <= y < x + 1 && fa[y].0 == op_path(ops@[i]) by {
                    let y = choose|y: int| 0 <= y < x && fa[y].0 == op_path(ops@[i]);
                }
            }
        }
        x = x + 1;
    }
    proof {
        assert forall|p: Seq<u8>| #[trigger] after@.contains_key(p) && changed(p, after@[p], before@) && write_phase(p, before@)
            == ph implies touched(ops@, p) by {
            lemma_assoc_domain(fa, p);
            let y = choose|y: int| 0 <= y < fa.len() && fa[y].0 == p;
        }
    }
}


/// Appends a removal for each file of `before` that `after` no longer has.
fn push_removes(ops: &mut Vec<DiskOp>, before: &PackMemoryFs, after: &PackMemoryFs)
    requires
        before.wf(),
        after.wf(),
        ops_sound(old(ops)@, before@, after@),
        ops_distinct(old(ops)@),
        ops_ordered(old(ops)@, before@),
        forall|i: int| 0 <= i < old(ops)@.len() ==> old(ops)@[i] is Write,
    ensures
        ops_sound(final(ops)@, before@, after@),
        ops_distinct(final(ops)@),
        ops_ordered(final(ops)@, before@),
        final(ops)@.len() >= old(ops)@.len(),
        forall|i: int| 0 <= i < old(ops)@.len() ==> final(ops)@[i] == old(ops)@[i],
        forall|p: Seq<u8>| #[trigger] before@.contains_key(p) && !after@.contains_key(p) ==> touched(final(ops)@, p),
{
    let ghost fb = pairs(before.files@);
    let ghost start = ops@.len();
    let mut x: usize = 0;
    while x < before.files.len()
        invariant
            x <= before.files@.len(),
            before.wf(),
            after.wf(),
            fb == pairs(before.files@),
            start <= ops@.len(),
            forall|i: int| 0 <= i < start ==> ops@[i] == old(ops)@[i],
            forall|i: int| 0 <= i < start ==> old(ops)@[i] is Write,
            ops_sound(ops@, before@, after@),
            ops_distinct(ops@),
            ops_ordered(ops@, before@),
            forall|i: int| start <= i < ops@.len() ==> (#[trigger] ops@[i]) is Remove && exists|y: int| 0 <= y < x && fb[y].0
                == op_path(ops@[i]),
            forall|y: int| 0 <= y < x && !after@.contains_key(fb[y].0) ==> touched(ops@, #[trigger] fb[y].0),
        decreases before.files@.len() - x,
    {
        let p = &before.files[x].0;
        proof {
            lemma_assoc_index(fb, x as int);
        }
        let ghost o0 = ops@;
        if !after.file_exists(p.as_slice()) {
            let op = DiskOp::Remove(p.clone());
            proof {
                assert(!touched(o0, p@)) by {
                    if touched(o0, p@) {
                        let i = choose|i: int| 0 <= i < o0.len() && op_path(o0[i]) == p@;
                        if i >= start {
                            let y = choose|y: int| 0 <= y < x && fb[y].0 == op_path(o0[i]);
                            assert(fb[y].0 == fb[x as int].0);
                        }
                    }
                }
            }
            ops.push(op);
            proof {
                let n = ops@;
                assert(n[o0.len() as int] == op);
                assert forall|i: int| 0 <= i < n.len() implies match #[trigger] n[i] {
                    DiskOp::Write(q, w) => after@.contains_key(q@) && w@ == after@[q@] && changed(q@, w@, before@),
                    DiskOp::Remove(q) => before@.contains_key(q@) && !after@.contains_key(q@),
                } by {
                    if i < o0.len() {
                        assert(n[i] == o0[i]);
                    }
                }
                assert forall|i: int, j: int| 0 <= i < j < n.len() implies op_path(#[trigger] n[i]) != op_path(#[trigger] n[j]) by {
                    if j < o0.len() {
                        assert(n[i] == o0[i] && n[j] == o0[j]);
                    } else {
                        assert(n[i] == o0[i]);
                    }
                }
                assert forall|i: int, j: int| 0 <= i < j < n.len() implies phase(#[trigger] n[i], before@) <= phase(#[trigger] n[j], before@) by {
                    if j < o0.len() {
                        assert(n[i] == o0[i] && n[j] == o0[j]);
                    } else {
                        assert(n[i] == o0[i]);
                    }
                }
                assert forall|i: int| start <= i < n.len() implies (#[trigger] n[i]) is Remove && exists|y: int| 0 <= y < x + 1
                    && fb[y].0 == op_path(n[i]) by {
                    if i < o0.len() {
                        assert(n[i] == o0[i]);
                        let y = choose|y: int| 0 <= y < x && fb[y].0 == op_path(o0[i]);
                    } else {
                        assert(fb[x as int].0 == op_path(n[i]));
                    }
                }
                assert forall|y: int| 0 <= y < x + 1 && !after@.contains_key(fb[y].0) implies touched(n, #[trigger] fb[y].0) by {
                    if y < x {
                        let i = choose|i: int| 0 <= i < o0.len() && op_path(o0[i]) == fb[y].0;
                        assert(n[i] == o0[i]);
                    } else {
                        assert(op_path(n[o0.len() as int]) == fb[y].0);
                    }
                }
            }
        } else {
            proof {
                assert forall|i: int| start <= i < ops@.len() implies (#[trigger] ops@[i]) is Remove && exists|y: int| 0 <= y < x + 1
                    && fb[y].0 == op_path(ops@[i]) by {
                    let y = choose|y: int| 0 <= y < x && fb[y].0 == op_path(ops@[i]);
                }
            }
        }
        x = x + 1;
    }
    proof {
        assert forall|p: Seq<u8>| #[trigger] before@.contains_key(p) && !after@.contains_key(p) implies touched(ops@, p) by {
            lemma_assoc_domain(fb, p);
            let y = choose|y: int| 0 <= y < fb.len() && fb[y].0 == p;
        }
    }
}

/// The operations that take a disk holding `before` to `after`: new files
/// are created first, then the meta files are written, then files are
/// overwritten, then removed; a file whose bytes stay is not touched.
///
/// So until the first meta file is written, no file that stood before is
/// touched: the old meta files and every pack they list stay as they were.
pub fn plan_disk_ops(before: &PackMemoryFs, after: &PackMemoryFs) -> (r: Vec<DiskOp>)
    requires
        before.wf(),
        after.wf(),
    ensures
        apply_ops(before@, r@) == after@,
        ops_ordered(r@, before@),
        forall|i: int| 0 <= i < r@.len() ==> (#[trigger] r@[i] matches DiskOp::Write(p, v) ==> changed(p@, v@, before@)),
{
    let mut ops: Vec<DiskOp> = Vec::new();
    push_writes(&mut ops, before, after, 0);
    let ghost w0 = ops@;
    push_writes(&mut ops, before, after, 1);
    let ghost w1 = ops@;
    push_writes(&mut ops, before, after, 2);
    let ghost w = ops@;
    proof {
        assert forall|i: int| 0 <= i < ops@.len() implies ops@[i] is Write by {
            assert(phase(ops@[i], before@) <= 2);
        }
    }
    push_removes(&mut ops, before, after);
    proof {
        let r = ops@;
        assert forall|p: Seq<u8>| after@.contains_key(p) && changed(p, after@[p], before@) implies touched(r, p) by {
            let ph = write_phase(p, before@);
            if ph == 0 {
                lemma_touched_grows(w0, w1, p);
                lemma_touched_grows(w1, w, p);
            } else if ph == 1 {
                lemma_touched_grows(w1, w, p);
            }
            lemma_touched_grows(w, r, p);
        }
        assert forall|p: Seq<u8>| #[trigger] apply_ops(before@, r).contains_key(p) == after@.contains_key(p) && (after@.contains_key(p)
            ==> apply_ops(before@, r)[p] == after@[p]) by {
            lemma_apply_distinct(before@, r, p);
            if touched(r, p) {
                let i = choose|i: int| 0 <= i < r.len() && op_path(r[i]) == p;
                assert(ops_sound(r, before@, after@));
                let op = r[i];
            }
        }
        assert(apply_ops(before@, r) =~= after@);
    }
    ops
}

} // verus!
