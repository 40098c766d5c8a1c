//! Routing keys to buckets and naming packs.
use vstd::prelude::*;
use vstd::arithmetic::div_mod::lemma_add_mod_noop_right;
use crate::codec::views;
use std::hash::Hasher;

verus! {

/// The sum of all bytes of a key.
pub open spec fn byte_sum(key: Seq<u8>) -> nat
    decreases key.len(),
{
    if key.len() == 0 {
        0
    } else {
        byte_sum(key.drop_last()) + key.last() as nat
    }
}

/// The bucket of `key` among `total` buckets.
pub open spec fn bucket_of(key: Seq<u8>, total: nat) -> nat
    recommends
        total > 0,
{
    byte_sum(key) % total
}

/// Chooses the bucket of `key`: the sum of its bytes modulo `total`.
pub fn choose_bucket(key: &[u8], total: &usize) -> (r: usize)
    requires
        *total > 0,
    ensures
        r == bucket_of(key@, *total as nat),
        r < *total,
{
    let t = *total;
    let mut acc: usize = 0;
    let mut i: usize = 0;
    assert(byte_sum(key@.subrange(0, 0)) == 0);
    assert(0nat % (t as nat) == 0) by {
        vstd::arithmetic::div_mod::lemma_small_mod(0, t as nat);
    }
    while i < key.len()
        invariant
            i <= key@.len(),
            t == *total,
            t > 0,
            acc < t,
            acc == byte_sum(key@.subrange(0, i as int)) % (t as nat),
        decreases key@.len() - i,
    {
        proof {
            let q = key@.subrange(0, i + 1);
            assert(q.drop_last() =~= key@.subrange(0, i as int));
            lemma_add_mod_noop_right(key@[i as int] as int, byte_sum(key@.subrange(0, i as int)) as int, t as int);
        }
        let x = (key[i] as usize) % t;
        let ghost prev = acc;
        if x >= t - acc {
            acc = x - (t - acc);
            assert(acc == (x + prev) % (t as int)) by {
                vstd::arithmetic::div_mod::lemma_mod_sub_multiples_vanish((x + prev) as int, t as int);
                vstd::arithmetic::div_mod::lemma_small_mod((x + prev - t) as nat, t as nat);
            }
        } else {
            acc = acc + x;
            assert(acc == (x + prev) % (t as int)) by {
                vstd::arithmetic::div_mod::lemma_small_mod((x + prev) as nat, t as nat);
            }
        }
        proof {
            let s = byte_sum(key@.subrange(0, i as int)) as int;
            let b = key@[i as int] as int;
            vstd::arithmetic::div_mod::lemma_add_mod_noop(b, s, t as int);
            vstd::arithmetic::div_mod::lemma_mod_twice(s, t as int);
            vstd::arithmetic::div_mod::lemma_mod_bound((b % t as int) + s % t as int, t as int);
        }
        i = i + 1;
    }
    assert(key@.subrange(0, i as int) =~= key@);
    acc
}

/// What rustc-hash's `FxHasher` gives after it has been fed the items one
/// by one and then their number.
pub uninterp spec fn fx_items_hash(items: Seq<Seq<u8>>) -> u64;

/// Relies on `rustc_hash::FxHasher` (`Default`, `Hasher::write`,
/// `Hasher::write_usize`, `Hasher::finish`): the hasher starts from zero,
/// each write folds its input into the state and `finish` rotates the
/// state. Nothing is seeded or random; the multiplier is fixed for the
/// target's pointer width, so on a given target the result depends on the
/// items fed alone.
#[verifier::external_body]
fn fx_hash_items(items: &Vec<Vec<u8>>) -> (r: u64)
    ensures
        r == fx_items_hash(views(items@)),
{
    let mut hasher = rustc_hash::FxHasher::default();
    for item in items {
        hasher.write(item);
    }
    hasher.write_usize(items.len());
    hasher.finish()
}

pub open spec fn hex_char(d: nat) -> u8
    recommends
        d < 16,
{
    if d < 10 {
        (d + 48) as u8
    } else {
        (d - 10 + 97) as u8
    }
}

/// The last `k` hexadecimal digits of `n`, lower case, zeros in front.
pub open spec fn hex_digits(n: nat, k: nat) -> Seq<u8>
    decreases k,
{
    if k == 0 {
        Seq::empty()
    } else {
        hex_digits(n / 16, (k - 1) as nat).push(hex_char(n % 16))
    }
}

fn write_hex(out: &mut Vec<u8>, n: u64, k: u32)
    ensures
        final(out)@ == old(out)@ + hex_digits(n as nat, k as nat),
    decreases k,
{
    if k == 0 {
        assert(old(out)@ + hex_digits(n as nat, 0) =~= old(out)@);
        return;
    }
    write_hex(out, n / 16, k - 1);
    let d = (n % 16) as u8;
    if d < 10 {
        out.push(d + 48);
    } else {
        out.push(d - 10 + 97);
    }
    assert(final(out)@ =~= old(out)@ + hex_digits(n as nat, k as nat)) by {
        assert(hex_digits(n as nat, k as nat) == hex_digits((n / 16) as nat, (k - 1) as nat).push(hex_char((n % 16) as nat)));
    }
}

/// The name of a pack: the hash of its keys in sixteen lower case hex
/// digits. It depends on the keys alone.
pub open spec fn pack_name(keys: Seq<Seq<u8>>) -> Seq<u8> {
    hex_digits(fx_items_hash(keys) as nat, 16)
}

/// The hash of a pack's values, as the meta file lists it.
pub open spec fn pack_hash(contents: Seq<Seq<u8>>) -> Seq<u8> {
    hex_digits(fx_items_hash(contents) as nat, 16)
}

/// Hashes the values of a pack.
pub fn get_hash(contents: &Vec<Vec<u8>>) -> (r: Vec<u8>)
    ensures
        r@ == pack_hash(views(contents@)),
{
    let h = fx_hash_items(contents);
    hex_name(h)
}

/// Names a pack after its ordered keys; the contents play no part.
pub fn get_name(keys: &Vec<Vec<u8>>, contents: &Vec<Vec<u8>>) -> (r: Vec<u8>)
    ensures
        r@ == pack_name(views(keys@)),
{
    let h = fx_hash_items(keys);
    hex_name(h)
}

/// Sixteen lower case hex digits of `h`.
pub fn hex_name(h: u64) -> (r: Vec<u8>)
    ensures
        r@ == hex_digits(h as nat, 16),
{
    let mut out: Vec<u8> = Vec::new();
    write_hex(&mut out, h, 16);
    assert(out@ =~= hex_digits(h as nat, 16));
    out
}

} // verus!
