//! The pack file format.
//!
//! A pack file holds two header lines and two byte areas:
//! the lengths of the keys in decimal, separated by single spaces, and a
//! newline; the lengths of the values in the same way; the keys one after
//! the other; the values one after the other.
use vstd::prelude::*;
use vstd::slice::slice_to_vec;
use crate::decimal::{dec, dec_at, is_digit, lemma_dec_shape, parse_dec, write_dec};

verus! {

pub const NEWLINE: u8 = 10;

pub const SPACE: u8 = 32;

/// Lengths in decimal, separated by single spaces.
pub open spec fn lengths_line(ls: Seq<nat>) -> Seq<u8>
    decreases ls.len(),
{
    if ls.len() == 0 {
        Seq::empty()
    } else if ls.len() == 1 {
        dec(ls[0])
    } else {
        lengths_line(ls.drop_last()).push(SPACE) + dec(ls.last())
    }
}

pub open spec fn lens(items: Seq<Seq<u8>>) -> Seq<nat> {
    items.map_values(|x: Seq<u8>| x.len())
}

/// All items, one after the other.
pub open spec fn flatten(items: Seq<Seq<u8>>) -> Seq<u8>
    decreases items.len(),
{
    if items.len() == 0 {
        Seq::empty()
    } else {
        flatten(items.drop_last()) + items.last()
    }
}

/// The bytes of a pack file that holds `keys` and `contents`.
pub open spec fn pack_bytes(keys: Seq<Seq<u8>>, contents: Seq<Seq<u8>>) -> Seq<u8> {
    lengths_line(lens(keys)).push(NEWLINE) + lengths_line(lens(contents)).push(NEWLINE)
        + flatten(keys) + flatten(contents)
}

pub open spec fn no_newline(s: Seq<u8>) -> bool {
    forall|i: int| 0 <= i < s.len() ==> s[i] != NEWLINE
}

/// `b` starts with the key header of `keys`, any second line, and the key
/// bytes of `keys`.
pub open spec fn keys_framed(b: Seq<u8>, keys: Seq<Seq<u8>>) -> bool {
    exists|line2: Seq<u8>, rest: Seq<u8>|
        no_newline(line2) && b == #[trigger] (lengths_line(lens(keys)).push(NEWLINE) + line2.push(NEWLINE)
            + flatten(keys) + rest)
}

/// `b` starts with some key header, the value header of `contents`, as many
/// bytes as the key header counts, and the value bytes of `contents`.
pub open spec fn contents_framed(b: Seq<u8>, contents: Seq<Seq<u8>>) -> bool {
    exists|key_lens: Seq<nat>, skipped: Seq<u8>, rest: Seq<u8>|
        skipped.len() == sum(key_lens) && b == #[trigger] (lengths_line(key_lens).push(NEWLINE)
            + lengths_line(lens(contents)).push(NEWLINE) + skipped + flatten(contents) + rest)
}

pub open spec fn sum(ls: Seq<nat>) -> nat
    decreases ls.len(),
{
    if ls.len() == 0 {
        0
    } else {
        sum(ls.drop_last()) + ls.last()
    }
}

pub open spec fn views(v: Seq<Vec<u8>>) -> Seq<Seq<u8>> {
    v.map_values(|x: Vec<u8>| x@)
}

pub open spec fn as_nats(v: Seq<usize>) -> Seq<nat> {
    v.map_values(|x: usize| x as nat)
}

pub proof fn lemma_line_chars(ls: Seq<nat>)
    ensures
        no_newline(lengths_line(ls)),
        forall|i: int| 0 <= i < lengths_line(ls).len() ==> (is_digit(#[trigger] lengths_line(ls)[i])
            || lengths_line(ls)[i] == SPACE),
        ls.len() == 0 <==> lengths_line(ls).len() == 0,
    decreases ls.len(),
{
    if ls.len() == 1 {
        lemma_dec_shape(ls[0]);
    } else if ls.len() > 1 {
        lemma_line_chars(ls.drop_last());
        lemma_dec_shape(ls.last());
    }
}

/// A longer list of lengths extends the line of a shorter one by a space
/// and more.
pub proof fn lemma_line_prefix(ls: Seq<nat>, c: int)
    requires
        1 <= c <= ls.len(),
    ensures
        lengths_line(ls.subrange(0, c)).len() <= lengths_line(ls).len(),
        lengths_line(ls).subrange(0, lengths_line(ls.subrange(0, c)).len() as int)
            == lengths_line(ls.subrange(0, c)),
        c < ls.len() ==> lengths_line(ls.subrange(0, c)).len() < lengths_line(ls).len(),
        c < ls.len() ==> lengths_line(ls)[lengths_line(ls.subrange(0, c)).len() as int] == SPACE,
    decreases ls.len(),
{
    if c == ls.len() {
        assert(ls.subrange(0, c) == ls);
    } else {
        let p = ls.drop_last();
        lemma_line_prefix(p, c);
        assert(p.subrange(0, c) == ls.subrange(0, c));
        let lp = lengths_line(p);
        let lc = lengths_line(ls.subrange(0, c));
        assert(lengths_line(ls) == lp.push(SPACE) + dec(ls.last()));
        assert(lengths_line(ls).subrange(0, lc.len() as int) == lp.subrange(0, lc.len() as int));
        if c < p.len() {
            assert(lengths_line(ls)[lc.len() as int] == lp[lc.len() as int]);
        } else {
            assert(p.subrange(0, c) == p);
        }
    }
}

/// Two canonical numbers at the same place are the same number.
pub proof fn lemma_dec_at_unique(t: Seq<u8>, i: int, a: nat, b: nat)
    requires
        dec_at(t, i, a),
        dec_at(t, i, b),
    ensures
        a == b,
{
    lemma_dec_shape(a);
    lemma_dec_shape(b);
    let la = dec(a).len() as int;
    let lb = dec(b).len() as int;
    if la < lb {
        assert(t.subrange(i, i + lb)[la] == t[i + la]);
        assert(false);
    } else if lb < la {
        assert(t.subrange(i, i + la)[lb] == t[i + lb]);
        assert(false);
    }
}

/// Each line of lengths is the line of one list of lengths only.
pub proof fn lemma_line_injective(a: Seq<nat>, b: Seq<nat>)
    requires
        lengths_line(a) == lengths_line(b),
    ensures
        a == b,
    decreases a.len() + b.len(),
{
    let t = lengths_line(a);
    lemma_line_chars(a);
    lemma_line_chars(b);
    if a.len() == 0 || b.len() == 0 {
        assert(a.len() == 0 && b.len() == 0);
        assert(a =~= b);
    } else {
        // both lines start with the canonical first number
        lemma_first_dec(a);
        lemma_first_dec(b);
        lemma_dec_at_unique(t, 0, a[0], b[0]);
        if a.len() == 1 || b.len() == 1 {
            lemma_dec_shape(a[0]);
            if a.len() > 1 {
                lemma_line_prefix(a, 1);
                assert(a.subrange(0, 1) =~= seq![a[0]]);
                assert(lengths_line(a.subrange(0, 1)) == dec(a[0]));
                assert(lengths_line(b) == dec(b[0]));
                assert(false);
            }
            if b.len() > 1 {
                lemma_line_prefix(b, 1);
                assert(b.subrange(0, 1) =~= seq![b[0]]);
                assert(lengths_line(b.subrange(0, 1)) == dec(b[0]));
                assert(lengths_line(a) == dec(a[0]));
                assert(false);
            }
            assert(a.len() == 1 && b.len() == 1);
            assert(a =~= b);
        } else {
            let k = dec(a[0]).len() as int + 1;
            lemma_line_tail(a);
            lemma_line_tail(b);
            assert(t.subrange(k, t.len() as int) =~= lengths_line(a.drop_first()));
            assert(t.subrange(k, t.len() as int) =~= lengths_line(b.drop_first()));
            lemma_line_injective(a.drop_first(), b.drop_first());
            assert(a =~= seq![a[0]] + a.drop_first());
            assert(b =~= seq![b[0]] + b.drop_first());
        }
    }
}

proof fn lemma_first_dec(a: Seq<nat>)
    requires
        a.len() >= 1,
    ensures
        dec_at(lengths_line(a), 0, a[0]),
{
    lemma_dec_shape(a[0]);
    lemma_line_prefix(a, 1);
    assert(a.subrange(0, 1) =~= seq![a[0]]);
}

/// Past the first number and its space stands the line of the rest.
proof fn lemma_line_tail(a: Seq<nat>)
    requires
        a.len() >= 2,
    ensures
        lengths_line(a) == dec(a[0]).push(SPACE) + lengths_line(a.drop_first()),
    decreases a.len(),
{
    if a.len() == 2 {
        assert(a.drop_last() =~= seq![a[0]]);
        assert(a.drop_first() =~= seq![a[1]]);
        assert(lengths_line(a.drop_last()) == dec(a[0]));
        assert(lengths_line(a.drop_first()) == dec(a[1]));
        assert(lengths_line(a) =~= dec(a[0]).push(SPACE) + lengths_line(a.drop_first()));
    } else {
        lemma_line_tail(a.drop_last());
        assert(a.drop_last().drop_first() =~= a.drop_first().drop_last());
        assert(a.drop_first().last() == a.last());
        assert(a.drop_last()[0] == a[0]);
        assert(lengths_line(a.drop_first()) == lengths_line(a.drop_first().drop_last()).push(SPACE)
            + dec(a.drop_first().last()));
        assert(lengths_line(a) =~= dec(a[0]).push(SPACE) + lengths_line(a.drop_first()));
    }
}

/// Appends the lengths line of `items`.
fn write_lengths(out: &mut Vec<u8>, items: &Vec<Vec<u8>>)
    ensures
        final(out)@ == old(out)@ + lengths_line(lens(views(items@))),
{
    let ghost items_v = views(items@);
    let mut i: usize = 0;
    while i < items.len()
        invariant
            i <= items.len(),
            items_v == views(items@),
            out@ == old(out)@ + lengths_line(lens(items_v.subrange(0, i as int))),
        decreases items.len() - i,
    {
        let ghost before = out@;
        if i > 0 {
            out.push(SPACE);
        }
        write_dec(out, items[i].len() as u64);
        proof {
            let p = items_v.subrange(0, i as int);
            let q = items_v.subrange(0, i + 1);
            assert(lens(q).drop_last() =~= lens(p));
            assert(lens(q).last() == items[i as int]@.len());
            if i == 0 {
                assert(lens(q) =~= seq![items[0]@.len()]);
                assert(lengths_line(lens(p)) =~= Seq::<u8>::empty());
            }
            assert(out@ =~= old(out)@ + lengths_line(lens(q)));
        }
        i = i + 1;
    }
    assert(items_v.subrange(0, items.len() as int) =~= items_v);
}

/// Appends all items one after the other.
fn write_items(out: &mut Vec<u8>, items: &Vec<Vec<u8>>)
    ensures
        final(out)@ == old(out)@ + flatten(views(items@)),
{
    let ghost items_v = views(items@);
    let mut i: usize = 0;
    while i < items.len()
        invariant
            i <= items.len(),
            items_v == views(items@),
            out@ == old(out)@ + flatten(items_v.subrange(0, i as int)),
        decreases items.len() - i,
    {
        out.extend_from_slice(items[i].as_slice());
        proof {
            let q = items_v.subrange(0, i + 1);
            assert(q.drop_last() =~= items_v.subrange(0, i as int));
            assert(out@ =~= old(out)@ + flatten(q));
        }
        i = i + 1;
    }
    assert(items_v.subrange(0, items.len() as int) =~= items_v);
}

/// Encodes a pack file.
pub fn encode_pack(keys: &Vec<Vec<u8>>, contents: &Vec<Vec<u8>>) -> (r: Vec<u8>)
    ensures
        r@ == pack_bytes(views(keys@), views(contents@)),
{
    let mut out: Vec<u8> = Vec::new();
    write_lengths(&mut out, keys);
    out.push(NEWLINE);
    write_lengths(&mut out, contents);
    out.push(NEWLINE);
    write_items(&mut out, keys);
    write_items(&mut out, contents);
    assert(out@ =~= pack_bytes(views(keys@), views(contents@)));
    out
}


/// The items before `i` and those from `i` on make up all of them.
pub proof fn lemma_flatten_split(items: Seq<Seq<u8>>, i: int)
    requires
        0 <= i <= items.len(),
    ensures
        flatten(items) == flatten(items.subrange(0, i)) + flatten(items.subrange(i, items.len() as int)),
    decreases items.len(),
{
    if i == items.len() {
        assert(items.subrange(0, i) == items);
        assert(flatten(items.subrange(i, items.len() as int)) == Seq::<u8>::empty());
        assert(flatten(items) =~= flatten(items.subrange(0, i)) + Seq::<u8>::empty());
    } else {
        let p = items.drop_last();
        lemma_flatten_split(p, i);
        assert(p.subrange(0, i) == items.subrange(0, i));
        let tail = items.subrange(i, items.len() as int);
        assert(tail.drop_last() =~= p.subrange(i, p.len() as int));
        assert(tail.last() == items.last());
        assert(flatten(items) =~= flatten(items.subrange(0, i)) + flatten(tail));
    }
}

pub proof fn lemma_flatten_len(items: Seq<Seq<u8>>)
    ensures
        flatten(items).len() == sum(lens(items)),
    decreases items.len(),
{
    if items.len() > 0 {
        lemma_flatten_len(items.drop_last());
        assert(lens(items).drop_last() =~= lens(items.drop_last()));
    }
}

proof fn lemma_sum_prefix(ls: Seq<nat>, i: int)
    requires
        0 <= i <= ls.len(),
    ensures
        sum(ls.subrange(0, i)) <= sum(ls),
    decreases ls.len(),
{
    if i < ls.len() {
        lemma_sum_prefix(ls.drop_last(), i);
        assert(ls.drop_last().subrange(0, i) == ls.subrange(0, i));
    } else {
        assert(ls.subrange(0, i) == ls);
    }
}

/// Items of the same lengths whose bytes agree are the same items.
pub proof fn lemma_flatten_unique(a: Seq<Seq<u8>>, b: Seq<Seq<u8>>, x: Seq<u8>, y: Seq<u8>)
    requires
        lens(a) == lens(b),
        flatten(a) + x == flatten(b) + y,
    ensures
        a == b,
        x == y,
    decreases a.len(),
{
    lemma_flatten_len(a);
    lemma_flatten_len(b);
    assert(a.len() == lens(a).len() && b.len() == lens(b).len());
    let fa = flatten(a);
    let fb = flatten(b);
    assert(fa =~= (fa + x).subrange(0, fa.len() as int));
    assert(fb =~= (fb + y).subrange(0, fb.len() as int));
    assert(fa == fb);
    assert(x =~= (fa + x).subrange(fa.len() as int, (fa + x).len() as int));
    assert(y =~= (fb + y).subrange(fb.len() as int, (fb + y).len() as int));
    if a.len() > 0 {
        let la = a.last();
        let lb = b.last();
        assert(lens(a).last() == lens(b).last());
        assert(la.len() == lb.len());
        assert(lens(a.drop_last()) =~= lens(a).drop_last());
        assert(lens(b.drop_last()) =~= lens(b).drop_last());
        assert(flatten(a) == flatten(a.drop_last()) + la);
        assert(flatten(b) == flatten(b.drop_last()) + lb);
        lemma_flatten_unique(a.drop_last(), b.drop_last(), la, lb);
        assert(a =~= a.drop_last().push(la));
        assert(b =~= b.drop_last().push(lb));
    } else {
        assert(a =~= b);
    }
}

/// A line without a newline ends at the first newline.
pub proof fn lemma_newline_unique(l1: Seq<u8>, x: Seq<u8>, l2: Seq<u8>, y: Seq<u8>)
    requires
        no_newline(l1),
        no_newline(l2),
        l1.push(NEWLINE) + x == l2.push(NEWLINE) + y,
    ensures
        l1 == l2,
        x == y,
{
    let t = l1.push(NEWLINE) + x;
    if l1.len() < l2.len() {
        assert(t[l1.len() as int] == NEWLINE);
        assert(t[l1.len() as int] == l2[l1.len() as int]);
    } else if l2.len() < l1.len() {
        assert(t[l2.len() as int] == NEWLINE);
        assert(t[l2.len() as int] == l1[l2.len() as int]);
    }
    assert(l1 =~= t.subrange(0, l1.len() as int));
    assert(l2 =~= t.subrange(0, l2.len() as int));
    assert(x =~= t.subrange(l1.len() as int + 1, t.len() as int));
    assert(y =~= t.subrange(l2.len() as int + 1, t.len() as int));
}

/// The keys framed at the start of a file are determined by its bytes.
pub proof fn lemma_keys_framed_unique(bytes: Seq<u8>, a: Seq<Seq<u8>>, b: Seq<Seq<u8>>)
    requires
        keys_framed(bytes, a),
        keys_framed(bytes, b),
    ensures
        a == b,
{
    let (la, ra) = choose|line2: Seq<u8>, rest: Seq<u8>|
        no_newline(line2) && bytes == #[trigger] (lengths_line(lens(a)).push(NEWLINE) + line2.push(NEWLINE)
            + flatten(a) + rest);
    let (lb, rb) = choose|line2: Seq<u8>, rest: Seq<u8>|
        no_newline(line2) && bytes == #[trigger] (lengths_line(lens(b)).push(NEWLINE) + line2.push(NEWLINE)
            + flatten(b) + rest);
    lemma_line_chars(lens(a));
    lemma_line_chars(lens(b));
    let xa = la.push(NEWLINE) + flatten(a) + ra;
    let xb = lb.push(NEWLINE) + flatten(b) + rb;
    assert(bytes =~= lengths_line(lens(a)).push(NEWLINE) + xa);
    assert(bytes =~= lengths_line(lens(b)).push(NEWLINE) + xb);
    lemma_newline_unique(lengths_line(lens(a)), xa, lengths_line(lens(b)), xb);
    lemma_line_injective(lens(a), lens(b));
    assert(xa =~= la.push(NEWLINE) + (flatten(a) + ra));
    assert(xb =~= lb.push(NEWLINE) + (flatten(b) + rb));
    lemma_newline_unique(la, flatten(a) + ra, lb, flatten(b) + rb);
    lemma_flatten_unique(a, b, ra, rb);
}

/// The contents framed in a file are determined by its bytes.
pub proof fn lemma_contents_framed_unique(bytes: Seq<u8>, a: Seq<Seq<u8>>, b: Seq<Seq<u8>>)
    requires
        contents_framed(bytes, a),
        contents_framed(bytes, b),
    ensures
        a == b,
{
    let (ka, sa, ra) = choose|key_lens: Seq<nat>, skipped: Seq<u8>, rest: Seq<u8>|
        skipped.len() == sum(key_lens) && bytes == #[trigger] (lengths_line(key_lens).push(NEWLINE)
            + lengths_line(lens(a)).push(NEWLINE) + skipped + flatten(a) + rest);
    let (kb, sb, rb) = choose|key_lens: Seq<nat>, skipped: Seq<u8>, rest: Seq<u8>|
        skipped.len() == sum(key_lens) && bytes == #[trigger] (lengths_line(key_lens).push(NEWLINE)
            + lengths_line(lens(b)).push(NEWLINE) + skipped + flatten(b) + rest);
    lemma_line_chars(ka);
    lemma_line_chars(kb);
    lemma_line_chars(lens(a));
    lemma_line_chars(lens(b));
    let xa = lengths_line(lens(a)).push(NEWLINE) + (sa + flatten(a) + ra);
    let xb = lengths_line(lens(b)).push(NEWLINE) + (sb + flatten(b) + rb);
    assert(bytes =~= lengths_line(ka).push(NEWLINE) + xa);
    assert(bytes =~= lengths_line(kb).push(NEWLINE) + xb);
    lemma_newline_unique(lengths_line(ka), xa, lengths_line(kb), xb);
    lemma_line_injective(ka, kb);
    lemma_newline_unique(lengths_line(lens(a)), sa + flatten(a) + ra, lengths_line(lens(b)), sb + flatten(b) + rb);
    lemma_line_injective(lens(a), lens(b));
    let ya = sa + flatten(a) + ra;
    assert(sa =~= ya.subrange(0, sa.len() as int));
    assert(sb =~= ya.subrange(0, sb.len() as int));
    assert(flatten(a) + ra =~= ya.subrange(sa.len() as int, ya.len() as int));
    assert(flatten(b) + rb =~= ya.subrange(sb.len() as int, ya.len() as int));
    lemma_flatten_unique(a, b, ra, rb);
}

/// A file written by `encode_pack` frames exactly the keys and the
/// contents it was written from: reading its keys and its contents gives
/// back those lists, in their order.
pub proof fn lemma_pack_round_trip(keys: Seq<Seq<u8>>, contents: Seq<Seq<u8>>)
    ensures
        keys_framed(pack_bytes(keys, contents), keys),
        contents_framed(pack_bytes(keys, contents), contents),
        forall|other: Seq<Seq<u8>>| keys_framed(pack_bytes(keys, contents), other) ==> other == keys,
        forall|other: Seq<Seq<u8>>| contents_framed(pack_bytes(keys, contents), other) ==> other == contents,
{
    let b = pack_bytes(keys, contents);
    let l2 = lengths_line(lens(contents));
    lemma_line_chars(lens(contents));
    assert(b == (lengths_line(lens(keys)).push(NEWLINE) + l2.push(NEWLINE) + flatten(keys) + flatten(contents)));
    let kl = lens(keys);
    lemma_flatten_len(keys);
    assert(flatten(keys).len() == sum(kl));
    assert(b == (lengths_line(kl).push(NEWLINE) + lengths_line(lens(contents)).push(NEWLINE) + flatten(keys)
        + flatten(contents) + Seq::<u8>::empty()));
    assert forall|other: Seq<Seq<u8>>| keys_framed(b, other) implies other == keys by {
        lemma_keys_framed_unique(b, keys, other);
    }
    assert forall|other: Seq<Seq<u8>>| contents_framed(b, other) implies other == contents by {
        lemma_contents_framed_unique(b, contents, other);
    }
}


/// The first newline at or after `from`, if any.
pub fn find_newline(b: &[u8], from: usize) -> (r: Option<usize>)
    requires
        from <= b@.len(),
    ensures
        r matches Some(j) ==> from <= j < b@.len() && b@[j as int] == NEWLINE
            && no_newline(b@.subrange(from as int, j as int)),
        r is None ==> no_newline(b@.subrange(from as int, b@.len() as int)),
{
    let mut j = from;
    while j < b.len()
        invariant
            from <= j <= b@.len(),
            no_newline(b@.subrange(from as int, j as int)),
        decreases b@.len() - j,
    {
        if b[j] == NEWLINE {
            return Some(j);
        }
        assert(b@.subrange(from as int, j + 1) =~= b@.subrange(from as int, j as int).push(b@[j as int]));
        j = j + 1;
    }
    None
}

/// Where `t` starts with `l` and a newline and `l` has none, the first
/// newline of `t` stands right after `l`.
pub proof fn lemma_first_newline(t: Seq<u8>, l: Seq<u8>, x: Seq<u8>, from: int, j: int)
    requires
        no_newline(l),
        t == l.push(NEWLINE) + x,
        0 <= from <= l.len(),
        from <= j < t.len(),
        t[j] == NEWLINE,
        no_newline(t.subrange(from, j)),
    ensures
        j == l.len(),
{
    if j < l.len() {
        assert(t[j] == l[j]);
    }
    if j > l.len() {
        assert(t.subrange(from, j)[l.len() - from] == t[l.len() as int]);
    }
}

/// Where a lengths line stands from `start` on and the first `c` numbers
/// have been read up to `i`, the next number stands at `i`.
proof fn lemma_parse_step(u: Seq<u8>, start: int, i: int, t: Seq<nat>, c: int)
    requires
        0 <= start <= i <= u.len(),
        u.subrange(start, u.len() as int) == lengths_line(t),
        0 <= c < t.len(),
        c == 0 ==> i == start,
        c > 0 ==> u.subrange(start, i) == lengths_line(t.subrange(0, c)).push(SPACE),
    ensures
        dec_at(u, i, t[c]),
        c + 1 < t.len() ==> i + dec(t[c]).len() < u.len() && u[i + dec(t[c]).len()] == SPACE,
        c + 1 == t.len() ==> i + dec(t[c]).len() == u.len(),
{
    let line = u.subrange(start, u.len() as int);
    let pre = lengths_line(t.subrange(0, c + 1));
    lemma_line_prefix(t, c + 1);
    lemma_line_chars(t);
    lemma_dec_shape(t[c]);
    if c == 0 {
        assert(t.subrange(0, 1) =~= seq![t[0]]);
        assert(pre == dec(t[0]));
        assert(pre =~= u.subrange(start, i) + dec(t[c]));
    } else {
        assert(t.subrange(0, c + 1).drop_last() =~= t.subrange(0, c));
        assert(pre == lengths_line(t.subrange(0, c)).push(SPACE) + dec(t[c]));
        assert(pre =~= u.subrange(start, i) + dec(t[c]));
    }
    assert(line.subrange(0, pre.len() as int) == pre);
    assert(u.subrange(i, i + dec(t[c]).len()) =~= pre.subrange(i - start, pre.len() as int));
    assert(pre.len() == i - start + dec(t[c]).len());
    if c + 1 < t.len() {
        assert(u[i + dec(t[c]).len()] == line[pre.len() as int]);
        assert(!is_digit(u[i + dec(t[c]).len()]));
    } else {
        assert(t.subrange(0, c + 1) == t);
        assert(pre == line);
        assert(i + dec(t[c]).len() == u.len());
    }
    assert(u.subrange(i, i + dec(t[c]).len()) == dec(t[c]));
}

/// Parses the lengths line `s[start..end]`.
fn parse_lengths(s: &[u8], start: usize, end: usize) -> (r: Option<Vec<usize>>)
    requires
        start <= end <= s@.len(),
    ensures
        r matches Some(v) ==> s@.subrange(start as int, end as int) == lengths_line(as_nats(v@)),
        (exists|ls: Seq<nat>| (forall|k: int| 0 <= k < ls.len() ==> ls[k] <= usize::MAX)
            && s@.subrange(start as int, end as int) == #[trigger] lengths_line(ls)) ==> r is Some,
{
    let ghost line = s@.subrange(start as int, end as int);
    let ghost u = s@.subrange(0, end as int);
    let ghost target: Option<Seq<nat>> = if exists|ls: Seq<nat>| (forall|k: int| 0 <= k < ls.len() ==> ls[k] <= usize::MAX)
        && line == #[trigger] lengths_line(ls) {
        Some(choose|ls: Seq<nat>| (forall|k: int| 0 <= k < ls.len() ==> ls[k] <= usize::MAX)
            && line == #[trigger] lengths_line(ls))
    } else {
        None
    };
    let mut out: Vec<usize> = Vec::new();
    if start == end {
        assert(line =~= Seq::<u8>::empty());
        assert(as_nats(out@) =~= Seq::<nat>::empty());
        return Some(out);
    }
    proof {
        if let Some(t) = target {
            lemma_line_chars(t);
        }
    }
    let mut i = start;
    loop
        invariant
            start <= i <= end <= s@.len(),
            line == s@.subrange(start as int, end as int),
            u == s@.subrange(0, end as int),
            start < end,
            out@.len() == 0 ==> i == start,
            out@.len() > 0 ==> s@.subrange(start as int, i as int) == lengths_line(as_nats(out@)).push(SPACE),
            (exists|ls: Seq<nat>| (forall|k: int| 0 <= k < ls.len() ==> ls[k] <= usize::MAX)
                && line == #[trigger] lengths_line(ls)) ==> target is Some,
            target matches Some(t) ==> (forall|k: int| 0 <= k < t.len() ==> t[k] <= usize::MAX)
                && line == lengths_line(t) && as_nats(out@) == t.subrange(0, out@.len() as int)
                && out@.len() < t.len(),
        decreases end - i,
    {
        let ghost c = out@.len() as int;
        proof {
            if let Some(t) = target {
                assert(u.subrange(start as int, u.len() as int) == line);
                if c > 0 {
                    assert(u.subrange(start as int, i as int) == s@.subrange(start as int, i as int));
                }
                lemma_parse_step(u, start as int, i as int, t, c);
            }
        }
        let parsed = parse_dec(s, i, end);
        let (n, j) = match parsed {
            Some(p) => p,
            None => {
                return None;
            },
        };
        let ghost before = out@;
        out.push(n);
        proof {
            assert(as_nats(out@).drop_last() =~= as_nats(before));
            assert(as_nats(out@).last() == n as nat);
            if before.len() == 0 {
                assert(as_nats(out@) =~= seq![n as nat]);
                assert(s@.subrange(start as int, j as int) =~= u.subrange(i as int, j as int));
            } else {
                assert(s@.subrange(start as int, j as int) =~= s@.subrange(start as int, i as int)
                    + u.subrange(i as int, j as int));
            }
            assert(s@.subrange(start as int, j as int) == lengths_line(as_nats(out@)));
            if let Some(t) = target {
                lemma_dec_at_unique(u, i as int, n as nat, t[c]);
                assert(as_nats(out@) =~= t.subrange(0, c + 1));
                lemma_line_prefix(t, c + 1);
                if c + 1 < t.len() {
                    assert(j < end);
                }
            }
        }
        if j == end {
            proof {
                if let Some(t) = target {
                    if c + 1 < t.len() {
                        assert(false);
                    }
                }
            }
            return Some(out);
        }
        if s[j] != SPACE {
            proof {
                if let Some(t) = target {
                    if c + 1 == t.len() {
                        assert(t.subrange(0, c + 1) =~= t);
                        assert(false);
                    }
                    assert(line[j - start] == SPACE);
                }
            }
            return None;
        }
        assert(s@.subrange(start as int, j + 1) =~= s@.subrange(start as int, j as int).push(SPACE));
        proof {
            if let Some(t) = target {
                if c + 1 == t.len() {
                    assert(t.subrange(0, c + 1) =~= t);
                    assert(false);
                }
            }
        }
        i = j + 1;
    }
}


/// Each item is no longer than all of them together.
pub proof fn lemma_item_len(items: Seq<Seq<u8>>, k: int)
    requires
        0 <= k < items.len(),
    ensures
        items[k].len() <= flatten(items).len(),
    decreases items.len(),
{
    if k < items.len() - 1 {
        lemma_item_len(items.drop_last(), k);
    }
}

/// Reads the keys of a pack file, and neither its values nor anything
/// after its keys.
///
/// It succeeds exactly where the file frames some list of keys, and then
/// gives that list.
pub fn decode_pack_keys(b: &[u8]) -> (r: Option<Vec<Vec<u8>>>)
    ensures
        r matches Some(ks) ==> keys_framed(b@, views(ks@)),
        forall|ks: Seq<Seq<u8>>| #[trigger] keys_framed(b@, ks) ==> (r matches Some(v) && views(v@) == ks),
{
    let blen = b.len();
    let ghost target: Option<(Seq<Seq<u8>>, Seq<u8>, Seq<u8>)> = if exists|ks: Seq<Seq<u8>>| keys_framed(b@, ks) {
        let ks = choose|ks: Seq<Seq<u8>>| keys_framed(b@, ks);
        let (line2, rest) = choose|line2: Seq<u8>, rest: Seq<u8>|
            no_newline(line2) && b@ == #[trigger] (lengths_line(lens(ks)).push(NEWLINE) + line2.push(NEWLINE)
                + flatten(ks) + rest);
        Some((ks, line2, rest))
    } else {
        None
    };
    proof {
        if let Some((ks, line2, rest)) = target {
            lemma_line_chars(lens(ks));
            assert forall|other: Seq<Seq<u8>>| keys_framed(b@, other) implies other == ks by {
                lemma_keys_framed_unique(b@, ks, other);
            }
            let l1 = lengths_line(lens(ks));
            assert(b@[l1.len() as int] == NEWLINE);
            assert(b@ =~= l1.push(NEWLINE) + (line2.push(NEWLINE) + flatten(ks) + rest));
            assert forall|k: int| 0 <= k < lens(ks).len() implies lens(ks)[k] <= usize::MAX by {
                lemma_item_len(ks, k);
                assert(lens(ks)[k] == ks[k].len());
            }
        }
    }
    let n1 = match find_newline(b, 0) {
        Some(n) => n,
        None => {
            proof {
                if let Some((ks, line2, rest)) = target {
                    let l1 = lengths_line(lens(ks));
                    assert(b@.subrange(0, b@.len() as int)[l1.len() as int] == NEWLINE);
                }
            }
            return None;
        },
    };
    proof {
        if let Some((ks, line2, rest)) = target {
            let l1 = lengths_line(lens(ks));
            lemma_first_newline(b@, l1, line2.push(NEWLINE) + flatten(ks) + rest, 0, n1 as int);
            assert(b@.subrange(0, n1 as int) =~= l1);
        }
    }
    let ls = match parse_lengths(b, 0, n1) {
        Some(v) => v,
        None => {
            return None;
        },
    };
    let ghost l1 = b@.subrange(0, n1 as int);
    proof {
        lemma_line_chars(as_nats(ls@));
        if let Some((ks, line2, rest)) = target {
            lemma_line_injective(as_nats(ls@), lens(ks));
        }
    }
    let n2 = match find_newline(b, n1 + 1) {
        Some(n) => n,
        None => {
            proof {
                if let Some((ks, line2, rest)) = target {
                    let t2 = b@.subrange(n1 + 1, b@.len() as int);
                    assert(t2 =~= line2.push(NEWLINE) + (flatten(ks) + rest));
                    assert(t2[line2.len() as int] == NEWLINE);
                }
            }
            return None;
        },
    };
    let ghost line2_found = b@.subrange(n1 + 1, n2 as int);
    let ghost data = n2 + 1;
    proof {
        if let Some((ks, line2, rest)) = target {
            let t2 = b@.subrange(n1 + 1, b@.len() as int);
            assert(t2 =~= line2.push(NEWLINE) + (flatten(ks) + rest));
            assert(t2.subrange(0, n2 - (n1 + 1)) =~= b@.subrange(n1 + 1, n2 as int));
            lemma_first_newline(t2, line2, flatten(ks) + rest, 0, n2 - (n1 + 1));
            assert(b@.subrange(data, b@.len() as int) =~= flatten(ks) + rest);
        }
    }
    proof {
        if let Some((ks, line2, rest)) = target {
            let t = b@.subrange(data, b@.len() as int);
            assert(t.subrange(0, flatten(ks).len() as int) =~= flatten(ks));
            assert(b@.subrange(data, data + flatten(ks).len()) =~= t.subrange(0, flatten(ks).len() as int));
            assert(holds_items_at(b@, data, ks));
        }
    }
    let keys = match read_items(b, n2 + 1, &ls) {
        Some(v) => v,
        None => {
            return None;
        },
    };
    proof {
        let f = flatten(views(keys@));
        let rest_found = b@.subrange(data + f.len(), b@.len() as int);
        assert(b@ =~= lengths_line(lens(views(keys@))).push(NEWLINE) + line2_found.push(NEWLINE) + f + rest_found);
    }
    Some(keys)
}


pub open spec fn holds_items_at(b: Seq<u8>, start: int, items: Seq<Seq<u8>>) -> bool {
    &&& start + flatten(items).len() <= b.len()
    &&& b.subrange(start, start + flatten(items).len()) == flatten(items)
}

/// Reads items of the lengths `ls`, one after the other, from `start` on.
fn read_items(b: &[u8], start: usize, ls: &Vec<usize>) -> (r: Option<Vec<Vec<u8>>>)
    requires
        start <= b@.len(),
    ensures
        r matches Some(v) ==> lens(views(v@)) == as_nats(ls@) && holds_items_at(b@, start as int, views(v@)),
        forall|items: Seq<Seq<u8>>| lens(items) == as_nats(ls@) && #[trigger] holds_items_at(b@, start as int, items)
            ==> (r matches Some(v) && views(v@) == items),
{
    let ghost target: Option<Seq<Seq<u8>>> = if exists|items: Seq<Seq<u8>>| lens(items) == as_nats(ls@)
        && #[trigger] holds_items_at(b@, start as int, items) {
        Some(choose|items: Seq<Seq<u8>>| lens(items) == as_nats(ls@) && #[trigger] holds_items_at(b@, start as int, items))
    } else {
        None
    };
    proof {
        if let Some(ks) = target {
            assert forall|o: Seq<Seq<u8>>| lens(o) == as_nats(ls@) && #[trigger] holds_items_at(b@, start as int, o)
                implies o == ks by {
                lemma_flatten_len(o);
                lemma_flatten_len(ks);
                lemma_flatten_unique(ks, o, Seq::<u8>::empty(), Seq::<u8>::empty());
            }
        }
    }
    let mut items: Vec<Vec<u8>> = Vec::new();
    let mut pos: usize = start;
    let mut i: usize = 0;
    while i < ls.len()
        invariant
            i <= ls@.len(),
            start <= pos <= b@.len(),
            pos == start + flatten(views(items@)).len(),
            b@.subrange(start as int, pos as int) == flatten(views(items@)),
            lens(views(items@)) == as_nats(ls@).subrange(0, i as int),
            (exists|o: Seq<Seq<u8>>| lens(o) == as_nats(ls@) && #[trigger] holds_items_at(b@, start as int, o))
                ==> target is Some,
            target matches Some(ks) ==> lens(ks) == as_nats(ls@) && holds_items_at(b@, start as int, ks)
                && views(items@) == ks.subrange(0, i as int) && (forall|o: Seq<Seq<u8>>| lens(o) == as_nats(ls@)
                && #[trigger] holds_items_at(b@, start as int, o) ==> o == ks),
        decreases ls@.len() - i,
    {
        let len = ls[i];
        proof {
            if let Some(ks) = target {
                lemma_flatten_split(ks, i + 1);
                let q = ks.subrange(0, i + 1);
                assert(q.drop_last() =~= ks.subrange(0, i as int));
                assert(flatten(q) == flatten(views(items@)) + ks[i as int]);
                assert(lens(ks)[i as int] == len);
            }
        }
        if len > b.len() - pos {
            proof {
                if let Some(ks) = target {
                    let q = ks.subrange(0, i + 1);
                    lemma_flatten_split(ks, i + 1);
                    assert(flatten(q).len() <= flatten(ks).len());
                    assert(false);
                }
            }
            return None;
        }
        let item = slice_to_vec(&b[pos..pos + len]);
        let ghost before = items@;
        items.push(item);
        proof {
            assert(views(items@).drop_last() =~= views(before));
            assert(views(items@).last() == b@.subrange(pos as int, pos + len));
            assert(b@.subrange(start as int, pos + len) =~= b@.subrange(start as int, pos as int)
                + b@.subrange(pos as int, pos + len));
            assert(lens(views(items@)).drop_last() =~= lens(views(before)));
            assert(lens(views(items@)).last() == len);
            assert(lens(views(items@)) =~= as_nats(ls@).subrange(0, i + 1));
            assert(flatten(views(items@)) == flatten(views(before)) + views(items@).last());
            if let Some(ks) = target {
                let q = ks.subrange(0, i + 1);
                lemma_flatten_split(ks, i + 1);
                let t = b@.subrange(start as int, start + flatten(ks).len());
                assert(t.subrange(0, flatten(q).len() as int) == flatten(q));
                assert(b@.subrange(pos as int, pos + len) =~= t.subrange(pos - start, pos + len - start));
                assert(ks[i as int] =~= flatten(q).subrange(pos - start, pos + len - start));
                assert(views(items@).last() == ks[i as int]);
                assert(q =~= ks.subrange(0, i as int).push(ks[i as int]));
                assert(views(items@) =~= views(before).push(ks[i as int]));
                assert(views(items@) =~= q);
            }
        }
        pos = pos + len;
        i = i + 1;
    }
    proof {
        assert(as_nats(ls@).subrange(0, i as int) =~= as_nats(ls@));
        if let Some(ks) = target {
            assert(ks.subrange(0, i as int) =~= ks);
        }
    }
    Some(items)
}


proof fn lemma_sum_item(ls: Seq<nat>, k: int)
    requires
        0 <= k < ls.len(),
    ensures
        ls[k] <= sum(ls),
    decreases ls.len(),
{
    if k < ls.len() - 1 {
        lemma_sum_item(ls.drop_last(), k);
    }
}

/// Adds up `ls`, or fails where the sum exceeds `bound`.
fn sum_within(ls: &Vec<usize>, bound: usize) -> (r: Option<usize>)
    ensures
        r matches Some(t) ==> t == sum(as_nats(ls@)) && t <= bound,
        sum(as_nats(ls@)) <= bound ==> r is Some,
{
    let mut total: usize = 0;
    let mut i: usize = 0;
    while i < ls.len()
        invariant
            i <= ls@.len(),
            total == sum(as_nats(ls@).subrange(0, i as int)),
            total <= bound,
        decreases ls@.len() - i,
    {
        proof {
            let q = as_nats(ls@).subrange(0, i + 1);
            assert(q.drop_last() =~= as_nats(ls@).subrange(0, i as int));
            lemma_sum_prefix(as_nats(ls@), i + 1);
        }
        if ls[i] > bound - total {
            return None;
        }
        total = total + ls[i];
        i = i + 1;
    }
    assert(as_nats(ls@).subrange(0, i as int) =~= as_nats(ls@));
    Some(total)
}

/// Reads the values of a pack file: it reads the two header lines, steps
/// over the key bytes without reading them, and reads the value bytes.
///
/// It succeeds exactly where the file frames some list of values, and then
/// gives that list.
#[verifier::spinoff_prover]
#[verifier::rlimit(60)]
pub fn decode_pack_contents(b: &[u8]) -> (r: Option<Vec<Vec<u8>>>)
    ensures
        r matches Some(cs) ==> contents_framed(b@, views(cs@)),
        forall|cs: Seq<Seq<u8>>| #[trigger] contents_framed(b@, cs) ==> (r matches Some(v) && views(v@) == cs),
{
    let blen = b.len();
    let ghost target: Option<(Seq<Seq<u8>>, Seq<nat>, Seq<u8>, Seq<u8>)> =
        if exists|cs: Seq<Seq<u8>>| contents_framed(b@, cs) {
        let cs = choose|cs: Seq<Seq<u8>>| contents_framed(b@, cs);
        let (kl, skipped, rest) = choose|key_lens: Seq<nat>, skipped: Seq<u8>, rest: Seq<u8>|
            skipped.len() == sum(key_lens) && b@ == #[trigger] (lengths_line(key_lens).push(NEWLINE)
                + lengths_line(lens(cs)).push(NEWLINE) + skipped + flatten(cs) + rest);
        Some((cs, kl, skipped, rest))
    } else {
        None
    };
    proof {
        if let Some((cs, kl, skipped, rest)) = target {
            lemma_line_chars(kl);
            lemma_line_chars(lens(cs));
            assert forall|other: Seq<Seq<u8>>| contents_framed(b@, other) implies other == cs by {
                lemma_contents_framed_unique(b@, cs, other);
            }
            let l1 = lengths_line(kl);
            assert(b@[l1.len() as int] == NEWLINE);
            assert(b@ =~= l1.push(NEWLINE) + (lengths_line(lens(cs)).push(NEWLINE) + skipped + flatten(cs) + rest));
            assert forall|k: int| 0 <= k < kl.len() implies kl[k] <= usize::MAX by {
                lemma_sum_item(kl, k);
            }
            assert forall|k: int| 0 <= k < lens(cs).len() implies lens(cs)[k] <= usize::MAX by {
                lemma_item_len(cs, k);
                assert(lens(cs)[k] == cs[k].len());
            }
        }
    }
    let n1 = match find_newline(b, 0) {
        Some(n) => n,
        None => {
            proof {
                if let Some((cs, kl, skipped, rest)) = target {
                    assert(b@.subrange(0, b@.len() as int)[lengths_line(kl).len() as int] == NEWLINE);
                }
            }
            return None;
        },
    };
    proof {
        if let Some((cs, kl, skipped, rest)) = target {
            let l1 = lengths_line(kl);
            lemma_first_newline(b@, l1, lengths_line(lens(cs)).push(NEWLINE) + skipped + flatten(cs) + rest, 0, n1 as int);
            assert(b@.subrange(0, n1 as int) =~= l1);
        }
    }
    let key_lens = match parse_lengths(b, 0, n1) {
        Some(v) => v,
        None => {
            return None;
        },
    };
    proof {
        if let Some((cs, kl, skipped, rest)) = target {
            lemma_line_injective(as_nats(key_lens@), kl);
        }
    }
    let total = match sum_within(&key_lens, blen) {
        Some(t) => t,
        None => {
            return None;
        },
    };
    let n2 = match find_newline(b, n1 + 1) {
        Some(n) => n,
        None => {
            proof {
                if let Some((cs, kl, skipped, rest)) = target {
                    let t2 = b@.subrange(n1 + 1, b@.len() as int);
                    let l2 = lengths_line(lens(cs));
                    assert(t2 =~= l2.push(NEWLINE) + (skipped + flatten(cs) + rest));
                    assert(t2[l2.len() as int] == NEWLINE);
                }
            }
            return None;
        },
    };
    proof {
        if let Some((cs, kl, skipped, rest)) = target {
            let t2 = b@.subrange(n1 + 1, b@.len() as int);
            let l2 = lengths_line(lens(cs));
            assert(t2 =~= l2.push(NEWLINE) + (skipped + flatten(cs) + rest));
            assert(t2.subrange(0, n2 - (n1 + 1)) =~= b@.subrange(n1 + 1, n2 as int));
            lemma_first_newline(t2, l2, skipped + flatten(cs) + rest, 0, n2 - (n1 + 1));
            assert(b@.subrange(n1 + 1, n2 as int) =~= l2);
            assert(b@.subrange(n2 + 1, b@.len() as int) =~= skipped + flatten(cs) + rest);
        }
    }
    let value_lens = match parse_lengths(b, n1 + 1, n2) {
        Some(v) => v,
        None => {
            return None;
        },
    };
    proof {
        lemma_line_chars(as_nats(key_lens@));
        if let Some((cs, kl, skipped, rest)) = target {
            lemma_line_injective(as_nats(value_lens@), lens(cs));
        }
    }
    if total > blen - (n2 + 1) {
        proof {
            if let Some((cs, kl, skipped, rest)) = target {
                assert(b@.subrange(n2 + 1, b@.len() as int).len() >= skipped.len());
            }
        }
        return None;
    }
    let data = n2 + 1 + total;
    proof {
        if let Some((cs, kl, skipped, rest)) = target {
            let t = b@.subrange(n2 + 1, b@.len() as int);
            assert(t =~= skipped + (flatten(cs) + rest));
            assert(b@.subrange(data as int, b@.len() as int) =~= flatten(cs) + rest);
            let u = b@.subrange(data as int, b@.len() as int);
            assert(u.subrange(0, flatten(cs).len() as int) =~= flatten(cs));
            assert(b@.subrange(data as int, data + flatten(cs).len()) =~= u.subrange(0, flatten(cs).len() as int));
            assert(holds_items_at(b@, data as int, cs));
        }
    }
    let contents = match read_items(b, data, &value_lens) {
        Some(v) => v,
        None => {
            return None;
        },
    };
    proof {
        let f = flatten(views(contents@));
        let skipped_found = b@.subrange(n2 + 1, data as int);
        let rest_found = b@.subrange(data + f.len(), b@.len() as int);
        lemma_line_chars(lens(views(contents@)));
        assert(b@ =~= lengths_line(as_nats(key_lens@)).push(NEWLINE) + lengths_line(lens(views(contents@))).push(NEWLINE)
            + skipped_found + f + rest_found);
        assert(skipped_found.len() == sum(as_nats(key_lens@)));
    }
    Some(contents)
}

} // verus!
