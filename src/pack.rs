//! One pack file in memory: its path, and its keys and values once read.
use vstd::prelude::*;
use crate::codec::{flatten, views};

verus! {

/// The keys of a pack: not read yet, or read.
pub enum PackKeysState {
    Pending,
    Value(Vec<Vec<u8>>),
}

impl PackKeysState {
    /// The keys; they must have been read.
    pub fn expect_value(&self) -> (r: &Vec<Vec<u8>>)
        requires
            self is Value,
        ensures
            self matches PackKeysState::Value(v) && r == v,
    {
        match self {
            PackKeysState::Value(v) => v,
            PackKeysState::Pending => vstd::pervasive::unreached(),
        }
    }
}

/// The values of a pack: not read yet, or read.
pub enum PackContentsState {
    Pending,
    Value(Vec<Vec<u8>>),
}

impl PackContentsState {
    /// The values; they must have been read.
    pub fn expect_value(&self) -> (r: &Vec<Vec<u8>>)
        requires
            self is Value,
        ensures
            self matches PackContentsState::Value(v) && r == v,
    {
        match self {
            PackContentsState::Value(v) => v,
            PackContentsState::Pending => vstd::pervasive::unreached(),
        }
    }
}

/// A pack: the `i`th key goes with the `i`th value.
pub struct Pack {
    pub path: Vec<u8>,
    pub keys: PackKeysState,
    pub contents: PackContentsState,
}

/// Keys and values, pair by pair.
pub open spec fn zip_entries(keys: Seq<Seq<u8>>, contents: Seq<Seq<u8>>) -> Seq<(Seq<u8>, Seq<u8>)> {
    Seq::new(keys.len(), |i: int| (keys[i], contents[i]))
}

impl Pack {
    pub open spec fn spec_loaded(&self) -> bool {
        self.keys is Value && self.contents is Value
    }

    pub open spec fn key_views(&self) -> Seq<Seq<u8>> {
        match self.keys {
            PackKeysState::Value(v) => views(v@),
            PackKeysState::Pending => Seq::empty(),
        }
    }

    pub open spec fn content_views(&self) -> Seq<Seq<u8>> {
        match self.contents {
            PackContentsState::Value(v) => views(v@),
            PackContentsState::Pending => Seq::empty(),
        }
    }

    /// Loaded, with as many values as keys.
    pub open spec fn wf(&self) -> bool {
        self.spec_loaded() && self.key_views().len() == self.content_views().len()
    }

    /// The pairs of a well-formed pack, in order.
    pub open spec fn entries(&self) -> Seq<(Seq<u8>, Seq<u8>)> {
        zip_entries(self.key_views(), self.content_views())
    }

    pub open spec fn spec_size(&self) -> nat {
        flatten(self.key_views()).len() + flatten(self.content_views()).len()
    }

    /// A pack at `path` whose keys and values are not read yet.
    pub fn new(path: Vec<u8>) -> (r: Pack)
        ensures
            r.path == path,
            r.keys is Pending,
            r.contents is Pending,
    {
        Pack { path, keys: PackKeysState::Pending, contents: PackContentsState::Pending }
    }

    /// Whether both the keys and the values have been read.
    pub fn loaded(&self) -> (r: bool)
        ensures
            r == self.spec_loaded(),
    {
        matches!(self.keys, PackKeysState::Value(_)) && matches!(self.contents, PackContentsState::Value(_))
    }

    /// The bytes of all keys and values together.
    pub fn size(&self) -> (r: usize)
        requires
            self.spec_loaded(),
            self.spec_size() <= usize::MAX,
        ensures
            r == self.spec_size(),
    {
        let k = items_len(self.keys.expect_value());
        let c = items_len(self.contents.expect_value());
        k + c
    }
}

/// The total length of `items`.
pub fn items_len(items: &Vec<Vec<u8>>) -> (r: usize)
    requires
        flatten(views(items@)).len() <= usize::MAX,
    ensures
        r == flatten(views(items@)).len(),
{
    let mut total: usize = 0;
    let mut i: usize = 0;
    while i < items.len()
        invariant
            i <= items@.len(),
            flatten(views(items@)).len() <= usize::MAX,
            total == flatten(views(items@).subrange(0, i as int)).len(),
        decreases items@.len() - i,
    {
        proof {
            let q = views(items@).subrange(0, i + 1);
            assert(q.drop_last() =~= views(items@).subrange(0, i as int));
            crate::codec::lemma_flatten_split(views(items@), i + 1);
        }
        total = total + items[i].len();
        i = i + 1;
    }
    assert(views(items@).subrange(0, i as int) =~= views(items@));
    total
}

} // verus!
