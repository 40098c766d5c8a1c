//! The meta file of a scope: its layout and when it was last written.
//!
//! The first line holds the bucket count, the pack size and the timestamp,
//! in decimal, separated by spaces. Then comes one line per bucket, with an
//! entry `<name>,<hash>,<size>` for each pack, separated by spaces.
use vstd::prelude::*;
use crate::codec::{find_newline, NEWLINE, SPACE};
use crate::decimal::{dec, dec_at, lemma_dec_shape, parse_dec, write_dec};

verus! {

pub const COMMA: u8 = 44;

/// One pack as the meta file lists it.
pub struct PackFileMeta {
    pub name: Vec<u8>,
    pub hash: Vec<u8>,
    pub size: usize,
}

/// The layout of a scope: for each bucket, its packs in order.
pub struct Meta {
    pub bucket_size: usize,
    pub pack_size: usize,
    pub timestamp: u64,
    pub packs: Vec<Vec<PackFileMeta>>,
}

pub open spec fn entry_bytes(p: PackFileMeta) -> Seq<u8> {
    p.name@.push(COMMA) + p.hash@.push(COMMA) + dec(p.size as nat)
}

/// The entries of one bucket, separated by spaces.
pub open spec fn bucket_line(ps: Seq<PackFileMeta>) -> Seq<u8>
    decreases ps.len(),
{
    if ps.len() == 0 {
        Seq::empty()
    } else if ps.len() == 1 {
        entry_bytes(ps[0])
    } else {
        bucket_line(ps.drop_last()).push(SPACE) + entry_bytes(ps.last())
    }
}

/// The bucket lines, each ended by a newline.
pub open spec fn bucket_lines(bs: Seq<Vec<PackFileMeta>>) -> Seq<u8>
    decreases bs.len(),
{
    if bs.len() == 0 {
        Seq::empty()
    } else {
        bucket_lines(bs.drop_last()) + bucket_line(bs.last()@).push(NEWLINE)
    }
}

pub open spec fn meta_bytes(m: Meta) -> Seq<u8> {
    (dec(m.bucket_size as nat).push(SPACE) + dec(m.pack_size as nat).push(SPACE) + dec(m.timestamp as nat)).push(
        NEWLINE,
    ) + bucket_lines(m.packs@)
}

fn write_entry(out: &mut Vec<u8>, p: &PackFileMeta)
    ensures
        final(out)@ == old(out)@ + entry_bytes(*p),
{
    out.extend_from_slice(p.name.as_slice());
    out.push(COMMA);
    out.extend_from_slice(p.hash.as_slice());
    out.push(COMMA);
    write_dec(out, p.size as u64);
    assert(final(out)@ =~= old(out)@ + entry_bytes(*p));
}

fn write_bucket_line(out: &mut Vec<u8>, ps: &Vec<PackFileMeta>)
    ensures
        final(out)@ == old(out)@ + bucket_line(ps@),
{
    let mut i: usize = 0;
    assert(old(out)@ + bucket_line(ps@.subrange(0, 0)) =~= old(out)@);
    while i < ps.len()
        invariant
            i <= ps@.len(),
            out@ == old(out)@ + bucket_line(ps@.subrange(0, i as int)),
        decreases ps@.len() - i,
    {
        let ghost before = out@;
        if i > 0 {
            out.push(SPACE);
        }
        write_entry(out, &ps[i]);
        proof {
            let q = ps@.subrange(0, i + 1);
            assert(q.drop_last() =~= ps@.subrange(0, i as int));
            if i == 0 {
                assert(q =~= seq![ps@[0]]);
            }
            assert(out@ =~= old(out)@ + bucket_line(q));
        }
        i = i + 1;
    }
    assert(ps@.subrange(0, i as int) =~= ps@);
}

/// Encodes the meta file of a scope.
pub fn encode_meta(m: &Meta) -> (r: Vec<u8>)
    ensures
        r@ == meta_bytes(*m),
{
    let mut out: Vec<u8> = Vec::new();
    write_dec(&mut out, m.bucket_size as u64);
    out.push(SPACE);
    write_dec(&mut out, m.pack_size as u64);
    out.push(SPACE);
    write_dec(&mut out, m.timestamp);
    out.push(NEWLINE);
    let ghost head = out@;
    let mut b: usize = 0;
    assert(bucket_lines(m.packs@.subrange(0, 0)) =~= Seq::<u8>::empty());
    while b < m.packs.len()
        invariant
            b <= m.packs@.len(),
            out@ == head + bucket_lines(m.packs@.subrange(0, b as int)),
        decreases m.packs@.len() - b,
    {
        write_bucket_line(&mut out, &m.packs[b]);
        out.push(NEWLINE);
        proof {
            let q = m.packs@.subrange(0, b + 1);
            assert(q.drop_last() =~= m.packs@.subrange(0, b as int));
        }
        assert(out@ =~= head + bucket_lines(m.packs@.subrange(0, b + 1)));
        b = b + 1;
    }
    assert(m.packs@.subrange(0, b as int) =~= m.packs@);
    assert(out@ =~= meta_bytes(*m));
    out
}


pub open spec fn free_of(s: Seq<u8>, c: u8) -> bool {
    forall|i: int| 0 <= i < s.len() ==> s[i] != c
}

/// Text that can stand in an entry: no comma, space or newline.
pub open spec fn plain_text(s: Seq<u8>) -> bool {
    free_of(s, COMMA) && free_of(s, SPACE) && free_of(s, NEWLINE)
}

pub open spec fn plain_entries(ps: Seq<PackFileMeta>) -> bool {
    forall|i: int| 0 <= i < ps.len() ==> plain_text((#[trigger] ps[i]).name@) && plain_text(ps[i].hash@)
}

/// A meta file whose names and hashes can be read back, and whose
/// timestamp fits in a `usize`.
pub open spec fn plain_meta(m: Meta) -> bool {
    &&& m.timestamp <= usize::MAX
    &&& forall|b: int| 0 <= b < m.packs@.len() ==> plain_entries((#[trigger] m.packs@[b])@)
}

/// The first `byte` in `b[from..end]`, if any.
fn find_byte(b: &[u8], from: usize, end: usize, byte: u8) -> (r: Option<usize>)
    requires
        from <= end <= b@.len(),
    ensures
        r matches Some(j) ==> from <= j < end && b@[j as int] == byte && free_of(b@.subrange(from as int, j as int), byte),
        r is None ==> free_of(b@.subrange(from as int, end as int), byte),
{
    let mut j = from;
    while j < end
        invariant
            from <= j <= end <= b@.len(),
            free_of(b@.subrange(from as int, j as int), byte),
        decreases end - j,
    {
        if b[j] == byte {
            return Some(j);
        }
        assert(b@.subrange(from as int, j + 1) =~= b@.subrange(from as int, j as int).push(b@[j as int]));
        j = j + 1;
    }
    None
}

/// Where `t` holds `text` from `p` on, then `byte`, and `text` has no
/// `byte`, the first `byte` from `p` on stands right after `text`.
proof fn lemma_first_byte(t: Seq<u8>, p: int, text: Seq<u8>, byte: u8, j: int)
    requires
        0 <= p,
        p + text.len() < t.len(),
        t.subrange(p, p + text.len()) == text,
        t[p + text.len()] == byte,
        free_of(text, byte),
        p <= j < t.len(),
        t[j] == byte,
        free_of(t.subrange(p, j), byte),
    ensures
        j == p + text.len(),
{
    if j < p + text.len() {
        assert(t.subrange(p, p + text.len())[j - p] == t[j]);
    }
    if j > p + text.len() {
        assert(t.subrange(p, j)[text.len() as int] == t[p + text.len()]);
    }
}

proof fn lemma_entry_shape(e: PackFileMeta)
    requires
        plain_text(e.name@),
        plain_text(e.hash@),
    ensures
        free_of(entry_bytes(e), NEWLINE),
        free_of(entry_bytes(e), SPACE),
        entry_bytes(e).len() >= 1,
{
    crate::decimal::lemma_dec_shape(e.size as nat);
    let x = entry_bytes(e);
    assert forall|i: int| 0 <= i < x.len() implies x[i] != NEWLINE && x[i] != SPACE by {
        let n = e.name@.len() as int;
        let h = e.hash@.len() as int;
        if i < n {
            assert(x[i] == e.name@[i]);
        } else if i == n {
        } else if i < n + 1 + h {
            assert(x[i] == e.hash@[i - n - 1]);
        } else if i == n + 1 + h {
        } else {
            assert(x[i] == dec(e.size as nat)[i - n - 2 - h]);
            assert(crate::decimal::is_digit(dec(e.size as nat)[i - n - 2 - h]));
        }
    }
}

proof fn lemma_bucket_line_shape(ps: Seq<PackFileMeta>)
    requires
        plain_entries(ps),
    ensures
        free_of(bucket_line(ps), NEWLINE),
    decreases ps.len(),
{
    if ps.len() == 1 {
        lemma_entry_shape(ps[0]);
    } else if ps.len() > 1 {
        assert(plain_entries(ps.drop_last()));
        lemma_bucket_line_shape(ps.drop_last());
        lemma_entry_shape(ps.last());
        let a = bucket_line(ps.drop_last()).push(SPACE);
        let x = bucket_line(ps);
        assert forall|i: int| 0 <= i < x.len() implies x[i] != NEWLINE by {
            if i < a.len() - 1 {
                assert(x[i] == bucket_line(ps.drop_last())[i]);
            } else if i >= a.len() {
                assert(x[i] == entry_bytes(ps.last())[i - a.len()]);
            }
        }
    }
}

/// A longer list of entries extends the line of a shorter one by a space
/// and more.
proof fn lemma_bucket_line_prefix(ps: Seq<PackFileMeta>, c: int)
    requires
        1 <= c <= ps.len(),
    ensures
        bucket_line(ps.subrange(0, c)).len() <= bucket_line(ps).len(),
        bucket_line(ps).subrange(0, bucket_line(ps.subrange(0, c)).len() as int) == bucket_line(ps.subrange(0, c)),
        c < ps.len() ==> bucket_line(ps.subrange(0, c)).len() < bucket_line(ps).len(),
        c < ps.len() ==> bucket_line(ps)[bucket_line(ps.subrange(0, c)).len() as int] == SPACE,
    decreases ps.len(),
{
    if c == ps.len() {
        assert(ps.subrange(0, c) == ps);
    } else {
        let p = ps.drop_last();
        lemma_bucket_line_prefix(p, c);
        assert(p.subrange(0, c) == ps.subrange(0, c));
        let lp = bucket_line(p);
        let lc = bucket_line(ps.subrange(0, c));
        assert(bucket_line(ps) == lp.push(SPACE) + entry_bytes(ps.last()));
        assert(bucket_line(ps).subrange(0, lc.len() as int) == lp.subrange(0, lc.len() as int));
        if c < p.len() {
            assert(bucket_line(ps)[lc.len() as int] == lp[lc.len() as int]);
        } else {
            assert(p.subrange(0, c) == p);
        }
    }
}

/// Where the first `c` entries of `ps` were read up to `i`, entry `c`
/// stands at `i`, followed by a space or by the end of the line.
proof fn lemma_entry_step(u: Seq<u8>, start: int, i: int, ps: Seq<PackFileMeta>, c: int)
    requires
        0 <= start <= i <= u.len(),
        u.subrange(start, u.len() as int) == bucket_line(ps),
        0 <= c < ps.len(),
        c == 0 ==> i == start,
        c > 0 ==> u.subrange(start, i) == bucket_line(ps.subrange(0, c)).push(SPACE),
    ensures
        i + entry_bytes(ps[c]).len() <= u.len(),
        u.subrange(i, i + entry_bytes(ps[c]).len()) == entry_bytes(ps[c]),
        c + 1 < ps.len() ==> i + entry_bytes(ps[c]).len() < u.len() && u[i + entry_bytes(ps[c]).len()] == SPACE,
        c + 1 == ps.len() ==> i + entry_bytes(ps[c]).len() == u.len(),
{
    let line = u.subrange(start, u.len() as int);
    let pre = bucket_line(ps.subrange(0, c + 1));
    lemma_bucket_line_prefix(ps, c + 1);
    let e = entry_bytes(ps[c]);
    if c == 0 {
        assert(ps.subrange(0, 1) =~= seq![ps[0]]);
        assert(pre == e);
        assert(pre =~= u.subrange(start, i) + e);
    } else {
        assert(ps.subrange(0, c + 1).drop_last() =~= ps.subrange(0, c));
        assert(pre == bucket_line(ps.subrange(0, c)).push(SPACE) + e);
        assert(pre =~= u.subrange(start, i) + e);
    }
    assert(line.subrange(0, pre.len() as int) == pre);
    assert(u.subrange(i, i + e.len()) =~= pre.subrange(i - start, pre.len() as int));
    assert(pre.len() == i - start + e.len());
    if c + 1 < ps.len() {
        assert(u[i + e.len()] == line[pre.len() as int]);
    } else {
        assert(ps.subrange(0, c + 1) == ps);
    }
}

/// Reads the entries of one bucket line `b[start..end]`.
///
/// What it gives is the line, written out again; and it succeeds on every
/// line of entries whose names and hashes are plain.
#[verifier::spinoff_prover]
#[verifier::rlimit(60)]
fn parse_bucket_line(b: &[u8], start: usize, end: usize) -> (r: Option<Vec<PackFileMeta>>)
    requires
        start <= end <= b@.len(),
    ensures
        r matches Some(v) ==> bucket_line(v@) == b@.subrange(start as int, end as int),
        (exists|ps: Seq<PackFileMeta>| plain_entries(ps) && #[trigger] bucket_line(ps) == b@.subrange(start as int, end as int))
            ==> r is Some,
{
    let ghost line = b@.subrange(start as int, end as int);
    let ghost u = b@.subrange(0, end as int);
    let ghost target: Option<Seq<PackFileMeta>> = if exists|ps: Seq<PackFileMeta>| plain_entries(ps)
        && #[trigger] bucket_line(ps) == line {
        Some(choose|ps: Seq<PackFileMeta>| plain_entries(ps) && #[trigger] bucket_line(ps) == line)
    } else {
        None
    };
    let mut out: Vec<PackFileMeta> = Vec::new();
    if start == end {
        assert(line =~= Seq::<u8>::empty());
        assert(bucket_line(out@) =~= Seq::<u8>::empty());
        return Some(out);
    }
    proof {
        if let Some(t) = target {
            if t.len() == 0 {
                assert(bucket_line(t) =~= Seq::<u8>::empty());
            }
        }
    }
    let mut p = start;
    loop
        invariant
            start <= p <= end <= b@.len(),
            line == b@.subrange(start as int, end as int),
            u == b@.subrange(0, end as int),
            start < end,
            out@.len() == 0 ==> p == start,
            out@.len() > 0 ==> b@.subrange(start as int, p as int) == bucket_line(out@).push(SPACE),
            (exists|ps: Seq<PackFileMeta>| plain_entries(ps) && #[trigger] bucket_line(ps) == line) ==> target is Some,
            target matches Some(t) ==> plain_entries(t) && bucket_line(t) == line && out@.len() < t.len() && (out@.len() > 0
                ==> bucket_line(out@) == bucket_line(t.subrange(0, out@.len() as int))),
        decreases end - p,
    {
        let ghost c = out@.len() as int;
        proof {
            if let Some(t) = target {
                assert(u.subrange(start as int, u.len() as int) == line);
                if c > 0 {
                    assert(u.subrange(start as int, p as int) == b@.subrange(start as int, p as int));
                }
                lemma_entry_step(u, start as int, p as int, t, c);
                assert(plain_text(t[c].name@) && plain_text(t[c].hash@));
                let e = t[c];
                let n = e.name@.len() as int;
                let eb = entry_bytes(e);
                assert(u.subrange(p as int, p + n) =~= eb.subrange(0, n));
                assert(eb.subrange(0, n) =~= e.name@);
                assert(u[p + n] == eb[n]);
            }
        }
        let c1 = match find_byte(b, p, end, COMMA) {
            Some(x) => x,
            None => {
                proof {
                    if let Some(t) = target {
                        let n = t[c].name@.len() as int;
                        assert(b@.subrange(p as int, end as int)[n] == u[p + n]);
                    }
                }
                return None;
            },
        };
        proof {
            if let Some(t) = target {
                let e = t[c];
                let n = e.name@.len() as int;
                let h = e.hash@.len() as int;
                let eb = entry_bytes(e);
                assert(b@.subrange(p as int, c1 as int) =~= u.subrange(p as int, c1 as int));
                lemma_first_byte(u, p as int, e.name@, COMMA, c1 as int);
                assert(u.subrange(c1 + 1, c1 + 1 + h) =~= eb.subrange(n + 1, n + 1 + h));
                assert(eb.subrange(n + 1, n + 1 + h) =~= e.hash@);
                assert(u[c1 + 1 + h] == eb[n + 1 + h]);
            }
        }
        let c2 = match find_byte(b, c1 + 1, end, COMMA) {
            Some(x) => x,
            None => {
                proof {
                    if let Some(t) = target {
                        let h = t[c].hash@.len() as int;
                        assert(b@.subrange(c1 + 1, end as int)[h] == u[c1 + 1 + h]);
                    }
                }
                return None;
            },
        };
        proof {
            if let Some(t) = target {
                let e = t[c];
                let n = e.name@.len() as int;
                let h = e.hash@.len() as int;
                let eb = entry_bytes(e);
                assert(b@.subrange(c1 + 1, c2 as int) =~= u.subrange(c1 + 1, c2 as int));
                lemma_first_byte(u, c1 + 1, e.hash@, COMMA, c2 as int);
                let d = dec(e.size as nat);
                assert(u.subrange(c2 + 1, c2 + 1 + d.len()) =~= eb.subrange(n + h + 2, eb.len() as int));
                assert(eb.subrange(n + h + 2, eb.len() as int) =~= d);
                assert(crate::decimal::dec_at(u, c2 + 1, e.size as nat));
            }
        }
        let (size, j) = match parse_dec(b, c2 + 1, end) {
            Some(x) => x,
            None => {
                return None;
            },
        };
        let name = vstd::slice::slice_to_vec(&b[p..c1]);
        let hash = vstd::slice::slice_to_vec(&b[c1 + 1..c2]);
        let entry = PackFileMeta { name, hash, size };
        let ghost before = out@;
        out.push(entry);
        proof {
            assert(entry_bytes(entry) =~= b@.subrange(p as int, j as int)) by {
                assert(b@.subrange(c2 + 1, j as int) =~= u.subrange(c2 + 1, j as int));
            }
            assert(out@.drop_last() =~= before);
            if before.len() == 0 {
                assert(out@ =~= seq![entry]);
            }
            assert(b@.subrange(start as int, j as int) =~= (if before.len() == 0 {
                Seq::<u8>::empty()
            } else {
                bucket_line(before).push(SPACE)
            }) + entry_bytes(entry));
            assert(bucket_line(out@) == b@.subrange(start as int, j as int));
            if let Some(t) = target {
                let e = t[c];
                crate::codec::lemma_dec_at_unique(u, c2 + 1, size as nat, e.size as nat);
                assert(entry_bytes(entry) == entry_bytes(e));
                assert(t.subrange(0, c + 1).drop_last() =~= t.subrange(0, c));
                if c == 0 {
                    assert(t.subrange(0, 1) =~= seq![e]);
                }
                assert(bucket_line(out@) == bucket_line(t.subrange(0, c + 1)));
            }
        }
        if j == end {
            return Some(out);
        }
        if b[j] != SPACE {
            proof {
                if let Some(t) = target {
                    assert(c + 1 < t.len());
                }
            }
            return None;
        }
        assert(b@.subrange(start as int, j + 1) =~= b@.subrange(start as int, j as int).push(SPACE));
        proof {
            if let Some(t) = target {
                if c + 1 == t.len() {
                    assert(false);
                }
            }
        }
        p = j + 1;
    }
}


/// The first line of a meta file, without its newline.
pub open spec fn head_bytes(x: nat, y: nat, z: nat) -> Seq<u8> {
    dec(x).push(SPACE) + dec(y).push(SPACE) + dec(z)
}

proof fn lemma_head_shape(x: nat, y: nat, z: nat)
    ensures
        free_of(head_bytes(x, y, z), NEWLINE),
        dec_at(head_bytes(x, y, z), 0, x),
        head_bytes(x, y, z)[dec(x).len() as int] == SPACE,
        dec_at(head_bytes(x, y, z), dec(x).len() as int + 1, y),
        head_bytes(x, y, z)[dec(x).len() as int + 1 + dec(y).len() as int] == SPACE,
        dec_at(head_bytes(x, y, z), dec(x).len() as int + dec(y).len() as int + 2, z),
        dec(x).len() + dec(y).len() + 2 + dec(z).len() == head_bytes(x, y, z).len(),
{
    lemma_dec_shape(x);
    lemma_dec_shape(y);
    lemma_dec_shape(z);
    let h = head_bytes(x, y, z);
    let a = dec(x).len() as int;
    let b = dec(y).len() as int;
    assert(h.subrange(0, a) =~= dec(x));
    assert(h.subrange(a + 1, a + 1 + b) =~= dec(y));
    assert(h.subrange(a + b + 2, h.len() as int) =~= dec(z));
    assert forall|i: int| 0 <= i < h.len() implies h[i] != NEWLINE by {
        if i < a {
            assert(h[i] == dec(x)[i]);
            assert(crate::decimal::is_digit(dec(x)[i]));
        } else if a < i < a + 1 + b {
            assert(h[i] == dec(y)[i - a - 1]);
            assert(crate::decimal::is_digit(dec(y)[i - a - 1]));
        } else if i > a + 1 + b {
            assert(h[i] == dec(z)[i - a - b - 2]);
            assert(crate::decimal::is_digit(dec(z)[i - a - b - 2]));
        }
    }
    assert(crate::decimal::is_digit(dec(x)[0]));
}

/// Reads the first line of a meta file: three numbers.
fn parse_head(b: &[u8], end: usize) -> (r: Option<(usize, usize, usize)>)
    requires
        end <= b@.len(),
    ensures
        r matches Some((x, y, z)) ==> b@.subrange(0, end as int) == head_bytes(x as nat, y as nat, z as nat),
        (exists|x: nat, y: nat, z: nat| x <= usize::MAX && y <= usize::MAX && z <= usize::MAX
            && b@.subrange(0, end as int) == #[trigger] head_bytes(x, y, z)) ==> r is Some,
{
    let ghost t = b@.subrange(0, end as int);
    let ghost target: Option<(nat, nat, nat)> = if exists|x: nat, y: nat, z: nat| x <= usize::MAX && y <= usize::MAX
        && z <= usize::MAX && t == #[trigger] head_bytes(x, y, z) {
        let (x, y, z) = choose|x: nat, y: nat, z: nat| x <= usize::MAX && y <= usize::MAX && z <= usize::MAX
            && t == #[trigger] head_bytes(x, y, z);
        Some((x, y, z))
    } else {
        None
    };
    proof {
        if let Some((x, y, z)) = target {
            lemma_head_shape(x, y, z);
        }
    }
    let (bucket_size, j1) = match parse_dec(b, 0, end) {
        Some(x) => x,
        None => {
            return None;
        },
    };
    proof {
        if let Some((x, y, z)) = target {
            crate::codec::lemma_dec_at_unique(t, 0, bucket_size as nat, x);
        }
    }
    if j1 == end || b[j1] != SPACE {
        return None;
    }
    let (pack_size, j2) = match parse_dec(b, j1 + 1, end) {
        Some(x) => x,
        None => {
            return None;
        },
    };
    proof {
        if let Some((x, y, z)) = target {
            crate::codec::lemma_dec_at_unique(t, j1 + 1, pack_size as nat, y);
        }
    }
    if j2 == end || b[j2] != SPACE {
        return None;
    }
    let (timestamp, j3) = match parse_dec(b, j2 + 1, end) {
        Some(x) => x,
        None => {
            return None;
        },
    };
    proof {
        if let Some((x, y, z)) = target {
            crate::codec::lemma_dec_at_unique(t, j2 + 1, timestamp as nat, z);
        }
    }
    if j3 != end {
        return None;
    }
    proof {
        let h = head_bytes(bucket_size as nat, pack_size as nat, timestamp as nat);
        assert(t.subrange(0, j1 as int) == dec(bucket_size as nat));
        assert(t.subrange(j1 + 1, j2 as int) == dec(pack_size as nat));
        assert(t.subrange(j2 + 1, j3 as int) == dec(timestamp as nat));
        assert(t =~= h);
    }
    Some((bucket_size, pack_size, timestamp))
}

proof fn lemma_lines_concat(a: Seq<Vec<PackFileMeta>>, c: Seq<Vec<PackFileMeta>>)
    ensures
        bucket_lines(a + c) == bucket_lines(a) + bucket_lines(c),
    decreases c.len(),
{
    if c.len() == 0 {
        assert(a + c =~= a);
        assert(bucket_lines(a) + bucket_lines(c) =~= bucket_lines(a));
    } else {
        lemma_lines_concat(a, c.drop_last());
        assert((a + c).drop_last() =~= a + c.drop_last());
        assert(bucket_lines(a + c) =~= bucket_lines(a) + bucket_lines(c));
    }
}

/// Reads a meta file.
///
/// What it gives, written out again, is the file byte for byte; and it
/// succeeds on every file written from a meta whose names and hashes are
/// plain.
#[verifier::spinoff_prover]
#[verifier::rlimit(60)]
pub fn decode_meta(b: &[u8]) -> (r: Option<Meta>)
    ensures
        r matches Some(m) ==> meta_bytes(m) == b@,
        (exists|m: Meta| plain_meta(m) && #[trigger] meta_bytes(m) == b@) ==> r is Some,
{
    let blen = b.len();
    let ghost target: Option<Meta> = if exists|m: Meta| plain_meta(m) && #[trigger] meta_bytes(m) == b@ {
        Some(choose|m: Meta| plain_meta(m) && #[trigger] meta_bytes(m) == b@)
    } else {
        None
    };
    proof {
        if let Some(m) = target {
            lemma_head_shape(m.bucket_size as nat, m.pack_size as nat, m.timestamp as nat);
            let h = head_bytes(m.bucket_size as nat, m.pack_size as nat, m.timestamp as nat);
            assert(meta_bytes(m) =~= h.push(NEWLINE) + bucket_lines(m.packs@));
            assert(b@[h.len() as int] == NEWLINE);
        }
    }
    let n1 = match find_newline(b, 0) {
        Some(n) => n,
        None => {
            proof {
                if let Some(m) = target {
                    let h = head_bytes(m.bucket_size as nat, m.pack_size as nat, m.timestamp as nat);
                    assert(b@.subrange(0, b@.len() as int)[h.len() as int] == NEWLINE);
                }
            }
            return None;
        },
    };
    proof {
        if let Some(m) = target {
            let h = head_bytes(m.bucket_size as nat, m.pack_size as nat, m.timestamp as nat);
            crate::codec::lemma_first_newline(b@, h, bucket_lines(m.packs@), 0, n1 as int);
            assert(b@.subrange(0, n1 as int) =~= h);
        }
    }
    let (bucket_size, pack_size, timestamp) = match parse_head(b, n1) {
        Some(h) => h,
        None => {
            return None;
        },
    };
    let ghost body_start = n1 + 1;
    let mut packs: Vec<Vec<PackFileMeta>> = Vec::new();
    let mut pos = n1 + 1;
    proof {
        assert(b@.subrange(body_start, pos as int) =~= bucket_lines(packs@));
        if let Some(m) = target {
            assert(b@.subrange(body_start, b@.len() as int) =~= bucket_lines(m.packs@));
            assert(m.packs@.subrange(0, 0) =~= Seq::<Vec<PackFileMeta>>::empty());
        }
    }
    while pos < b.len()
        invariant
            body_start == n1 + 1,
            body_start <= pos <= b@.len(),
            b@.subrange(body_start, pos as int) == bucket_lines(packs@),
            (exists|m: Meta| plain_meta(m) && #[trigger] meta_bytes(m) == b@) ==> target is Some,
            target matches Some(m) ==> plain_meta(m) && b@.subrange(body_start, b@.len() as int) == bucket_lines(m.packs@)
                && packs@.len() <= m.packs@.len() && bucket_lines(packs@) == bucket_lines(m.packs@.subrange(0, packs@.len() as int)),
        decreases b@.len() - pos,
    {
        let ghost c = packs@.len() as int;
        proof {
            if let Some(m) = target {
                let bs = m.packs@;
                if c == bs.len() {
                    assert(bs.subrange(0, c) =~= bs);
                    assert(b@.subrange(body_start, pos as int).len() == b@.subrange(body_start, b@.len() as int).len());
                    assert(false);
                }
                lemma_lines_concat(bs.subrange(0, c), bs.subrange(c, bs.len() as int));
                assert(bs =~= bs.subrange(0, c) + bs.subrange(c, bs.len() as int));
                let rest = bs.subrange(c + 1, bs.len() as int);
                lemma_lines_concat(seq![bs[c]], rest);
                assert(bs.subrange(c, bs.len() as int) =~= seq![bs[c]] + rest);
                assert(seq![bs[c]].drop_last() =~= Seq::<Vec<PackFileMeta>>::empty());
                assert(seq![bs[c]].last() == bs[c]);
                assert(bucket_lines(Seq::<Vec<PackFileMeta>>::empty()) =~= Seq::<u8>::empty());
                let ln = bucket_line(bs[c]@);
                assert(bucket_lines(seq![bs[c]]) =~= ln.push(NEWLINE));
                let all = b@.subrange(body_start, b@.len() as int);
                assert(all =~= bucket_lines(bs.subrange(0, c)) + (ln.push(NEWLINE) + bucket_lines(rest)));
                let k = pos - body_start;
                assert(b@.subrange(body_start, pos as int).len() == k);
                assert(k == bucket_lines(bs.subrange(0, c)).len());
                assert(b@.subrange(pos as int, b@.len() as int) =~= all.subrange(k, all.len() as int));
                assert(b@.subrange(pos as int, b@.len() as int) =~= ln.push(NEWLINE) + bucket_lines(rest));
                assert(plain_entries(bs[c]@));
                lemma_bucket_line_shape(bs[c]@);
            }
        }
        let e = match find_newline(b, pos) {
            Some(e) => e,
            None => {
                proof {
                    if let Some(m) = target {
                        let ln = bucket_line(m.packs@[c]@);
                        assert(b@.subrange(pos as int, b@.len() as int)[ln.len() as int] == NEWLINE);
                    }
                }
                return None;
            },
        };
        proof {
            if let Some(m) = target {
                let bs = m.packs@;
                let ln = bucket_line(bs[c]@);
                let rest = bs.subrange(c + 1, bs.len() as int);
                let t2 = b@.subrange(pos as int, b@.len() as int);
                assert(t2.subrange(0, e - pos) =~= b@.subrange(pos as int, e as int));
                crate::codec::lemma_first_newline(t2, ln, bucket_lines(rest), 0, e - pos);
                assert(b@.subrange(pos as int, e as int) =~= ln);
            }
        }
        let line = match parse_bucket_line(b, pos, e) {
            Some(l) => l,
            None => {
                return None;
            },
        };
        let ghost before = packs@;
        packs.push(line);
        proof {
            assert(packs@.drop_last() =~= before);
            assert(b@.subrange(body_start, e + 1) =~= b@.subrange(body_start, pos as int) + b@.subrange(pos as int, e as int).push(NEWLINE));
            assert(bucket_lines(packs@) == bucket_lines(before) + bucket_line(line@).push(NEWLINE));
            if let Some(m) = target {
                let bs = m.packs@;
                assert(bs.subrange(0, c + 1).drop_last() =~= bs.subrange(0, c));
                assert(bucket_lines(bs.subrange(0, c + 1)) == bucket_lines(bs.subrange(0, c)) + bucket_line(bs[c]@).push(NEWLINE));
            }
        }
        pos = e + 1;
    }
    let m = Meta { bucket_size, pack_size, timestamp: timestamp as u64, packs };
    proof {
        assert(meta_bytes(m) =~= b@.subrange(0, n1 as int).push(NEWLINE) + b@.subrange(body_start, b@.len() as int));
        assert(b@ =~= b@.subrange(0, n1 as int).push(NEWLINE) + b@.subrange(body_start, b@.len() as int));
    }
    Some(m)
}

} // verus!
