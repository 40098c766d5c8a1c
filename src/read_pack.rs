//! Reading one pack file: its keys, or its values.
use vstd::prelude::*;
use vstd::string::{StringExecFns, StringSliceAdditionalSpecFns};
use crate::codec::{contents_framed, decode_pack_contents, decode_pack_keys, keys_framed, views};
use crate::error::{PackFsError, PackFsErrorOpt};
use crate::memory_fs::PackMemoryFs;

verus! {

/// Reads and writes packs under `root`, staging writes under `temp_root`.
pub struct SplitPackStrategy {
    pub root: Vec<u8>,
    pub temp_root: Vec<u8>,
}

/// The error for a pack file whose framing is broken.
fn corrupt(path: &str) -> (r: PackFsError)
    ensures
        r.file@ == path@,
        r.opt == PackFsErrorOpt::Read,
{
    PackFsError::from_fs_error(path, PackFsErrorOpt::Read, String::from_str("malformed pack file"))
}

impl SplitPackStrategy {
    pub fn new(root: Vec<u8>, temp_root: Vec<u8>) -> (r: SplitPackStrategy)
        ensures
            r.root == root,
            r.temp_root == temp_root,
    {
        SplitPackStrategy { root, temp_root }
    }

    /// The keys of the pack file at `path`: `None` where no file stands
    /// there, an error where the file frames no keys.
    pub fn read_pack_keys(&self, fs: &PackMemoryFs, path: &str) -> (r: Result<Option<Vec<Vec<u8>>>, PackFsError>)
        requires
            fs.wf(),
        ensures
            !fs@.contains_key(path.spec_bytes()) ==> r matches Ok(None),
            fs@.contains_key(path.spec_bytes()) ==> match r {
                Ok(Some(v)) => keys_framed(fs@[path.spec_bytes()], views(v@)),
                Ok(None) => false,
                Err(e) => e.file@ == path@ && e.opt == PackFsErrorOpt::Read && !exists|ks: Seq<Seq<u8>>| keys_framed(
                    fs@[path.spec_bytes()],
                    ks,
                ),
            },
            forall|ks: Seq<Seq<u8>>| fs@.contains_key(path.spec_bytes()) && #[trigger] keys_framed(fs@[path.spec_bytes()], ks)
                ==> (r matches Ok(Some(v)) && views(v@) == ks),
    {
        match fs.read_file(path.as_bytes()) {
            None => Ok(None),
            Some(bytes) => match decode_pack_keys(bytes.as_slice()) {
                Some(keys) => Ok(Some(keys)),
                None => Err(corrupt(path)),
            },
        }
    }

    /// The values of the pack file at `path`: `None` where no file stands
    /// there, an error where the file frames no values. The key bytes are
    /// stepped over, not read.
    pub fn read_pack_contents(&self, fs: &PackMemoryFs, path: &str) -> (r: Result<Option<Vec<Vec<u8>>>, PackFsError>)
        requires
            fs.wf(),
        ensures
            !fs@.contains_key(path.spec_bytes()) ==> r matches Ok(None),
            fs@.contains_key(path.spec_bytes()) ==> match r {
                Ok(Some(v)) => contents_framed(fs@[path.spec_bytes()], views(v@)),
                Ok(None) => false,
                Err(e) => e.file@ == path@ && e.opt == PackFsErrorOpt::Read && !exists|cs: Seq<Seq<u8>>| contents_framed(
                    fs@[path.spec_bytes()],
                    cs,
                ),
            },
            forall|cs: Seq<Seq<u8>>| fs@.contains_key(path.spec_bytes()) && #[trigger] contents_framed(fs@[path.spec_bytes()], cs)
                ==> (r matches Ok(Some(v)) && views(v@) == cs),
    {
        match fs.read_file(path.as_bytes()) {
            None => Ok(None),
            Some(bytes) => match decode_pack_contents(bytes.as_slice()) {
                Some(contents) => Ok(Some(contents)),
                None => Err(corrupt(path)),
            },
        }
    }
}

} // verus!
