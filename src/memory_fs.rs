//! A file store held in memory: each path with its bytes.
use vstd::prelude::*;
use vstd::string::{StringExecFns, StringSliceAdditionalSpecFns};
use crate::error::{PackFsError, PackFsErrorOpt};
use crate::bytes::find_key;
use crate::updates::{assoc, lemma_assoc_domain, lemma_assoc_index, lemma_assoc_update, unique_keys};
use crate::merge::{key_in, pairs};
use crate::strategy::SLASH;

verus! {

/// `path` lies inside the directory `dir`.
pub open spec fn is_under(dir: Seq<u8>, path: Seq<u8>) -> bool {
    path.len() > dir.len() && path.subrange(0, dir.len() as int + 1) == dir.push(SLASH)
}

/// Whether `path` lies inside the directory `dir`.
fn under(dir: &[u8], path: &[u8]) -> (r: bool)
    ensures
        r == is_under(dir@, path@),
{
    if path.len() <= dir.len() {
        return false;
    }
    let mut i: usize = 0;
    while i < dir.len()
        invariant
            i <= dir@.len(),
            dir@.len() < path@.len(),
            forall|j: int| 0 <= j < i ==> path@[j] == dir@[j],
        decreases dir@.len() - i,
    {
        if path[i] != dir[i] {
            assert(path@.subrange(0, dir@.len() as int + 1)[i as int] != dir@.push(SLASH)[i as int]);
            return false;
        }
        i = i + 1;
    }
    if path[i] != SLASH {
        assert(path@.subrange(0, dir@.len() as int + 1)[i as int] != dir@.push(SLASH)[i as int]);
        return false;
    }
    assert(path@.subrange(0, dir@.len() as int + 1) =~= dir@.push(SLASH));
    true
}

/// The leading part of `rest` up to its first slash.
pub open spec fn segment(rest: Seq<u8>) -> Seq<u8>
    decreases rest.len(),
{
    if rest.len() == 0 || rest[0] == SLASH {
        Seq::empty()
    } else {
        seq![rest[0]] + segment(rest.drop_first())
    }
}

/// The name, directly inside `dir`, of the entry that holds `path`.
pub open spec fn entry_name(dir: Seq<u8>, path: Seq<u8>) -> Seq<u8> {
    segment(path.subrange(dir.len() as int + 1, path.len() as int))
}

proof fn lemma_segment_prefix(rest: Seq<u8>, k: int)
    requires
        0 <= k <= rest.len(),
        forall|i: int| 0 <= i < k ==> rest[i] != SLASH,
    ensures
        segment(rest) == rest.subrange(0, k) + segment(rest.subrange(k, rest.len() as int)),
    decreases k,
{
    if k == 0 {
        assert(rest.subrange(0, 0) + segment(rest.subrange(0, rest.len() as int)) =~= segment(rest)) by {
            assert(rest.subrange(0, rest.len() as int) =~= rest);
        }
    } else {
        let t = rest.drop_first();
        lemma_segment_prefix(t, k - 1);
        assert(t.subrange(0, k - 1) =~= rest.subrange(1, k));
        assert(t.subrange(k - 1, t.len() as int) =~= rest.subrange(k, rest.len() as int));
        assert(segment(rest) =~= rest.subrange(0, k) + segment(rest.subrange(k, rest.len() as int)));
    }
}

/// The name of the entry inside `dir` that holds `path`.
fn entry_of(dir: &[u8], path: &[u8]) -> (r: Vec<u8>)
    requires
        dir@.len() < path@.len(),
    ensures
        r@ == entry_name(dir@, path@),
{
    let plen = path.len();
    let start = dir.len() + 1;
    let ghost rest = path@.subrange(start as int, path@.len() as int);
    let mut k = start;
    while k < path.len() && path[k] != SLASH
        invariant
            start <= k <= path@.len(),
            rest == path@.subrange(start as int, path@.len() as int),
            forall|i: int| 0 <= i < k - start ==> rest[i] != SLASH,
        decreases path@.len() - k,
    {
        k = k + 1;
    }
    proof {
        let kk = k - start;
        lemma_segment_prefix(rest, kk);
        let tail = rest.subrange(kk, rest.len() as int);
        assert(segment(tail) == Seq::<u8>::empty()) by {
            if tail.len() > 0 {
                assert(tail[0] == path@[k as int]);
            }
        }
        assert(rest.subrange(0, kk) =~= path@.subrange(start as int, k as int));
    }
    let r = vstd::slice::slice_to_vec(&path[start..k]);
    assert(r@ =~= entry_name(dir@, path@));
    r
}

/// Some file of `files` lies inside `dir` in the entry `name`.
pub open spec fn names_entry(files: Map<Seq<u8>, Seq<u8>>, dir: Seq<u8>, name: Seq<u8>) -> bool {
    exists|p: Seq<u8>| files.contains_key(p) && is_under(dir, p) && entry_name(dir, p) == name
}

/// What is known of a file: its size, when it changed, and its kind.
pub struct FileMeta {
    pub size: u64,
    pub mtime: u64,
    pub is_file: bool,
    pub is_dir: bool,
}

/// Files in memory, each path once.
pub struct PackMemoryFs {
    pub files: Vec<(Vec<u8>, Vec<u8>)>,
}

/// Removing the pair at `i` removes its key from the map.
pub proof fn lemma_assoc_remove<V>(s: Seq<(Seq<u8>, V)>, i: int)
    requires
        unique_keys(s),
        0 <= i < s.len(),
    ensures
        assoc(s.remove(i)) == assoc(s).remove(s[i].0),
        unique_keys(s.remove(i)),
    decreases s.len(),
{
    let t = s.remove(i);
    if i == s.len() - 1 {
        assert(t =~= s.drop_last());
        assert forall|k: Seq<u8>| #[trigger] assoc(s.drop_last()).contains_key(k) implies k != s[i].0 by {
            lemma_assoc_domain(s.drop_last(), k);
            let j = choose|j: int| 0 <= j < s.drop_last().len() && s.drop_last()[j].0 == k;
            assert(s[j].0 == k);
        }
        assert(assoc(t) =~= assoc(s).remove(s[i].0));
    } else {
        lemma_assoc_remove(s.drop_last(), i);
        assert(t.drop_last() =~= s.drop_last().remove(i));
        assert(t.last() == s.last());
        assert(s.last().0 != s[i].0);
        assert(assoc(t) =~= assoc(s).remove(s[i].0));
    }
}

impl View for PackMemoryFs {
    type V = Map<Seq<u8>, Seq<u8>>;

    open spec fn view(&self) -> Map<Seq<u8>, Seq<u8>> {
        assoc(pairs(self.files@))
    }
}

impl PackMemoryFs {
    pub open spec fn wf(&self) -> bool {
        unique_keys(pairs(self.files@))
    }

    /// An empty store.
    pub fn new() -> (r: PackMemoryFs)
        ensures
            r.wf(),
            r@ == Map::<Seq<u8>, Seq<u8>>::empty(),
    {
        let r = PackMemoryFs { files: Vec::new() };
        assert(pairs(r.files@) =~= Seq::<(Seq<u8>, Seq<u8>)>::empty());
        r
    }

    /// Whether a file stands at `path`.
    pub fn file_exists(&self, path: &[u8]) -> (r: bool)
        requires
            self.wf(),
        ensures
            r == self@.contains_key(path@),
    {
        proof {
            lemma_assoc_domain(pairs(self.files@), path@);
        }
        match find_key(&self.files, path) {
            Some(i) => {
                assert(pairs(self.files@)[i as int].0 == path@);
                true
            },
            None => {
                assert forall|j: int| 0 <= j < pairs(self.files@).len() implies pairs(self.files@)[j].0 != path@ by {
                    assert(self.files@[j].0@ != path@);
                }
                false
            },
        }
    }

    /// The size of the file at `path`; an error of the stat operation on
    /// `path` where there is none. Files in memory carry no time.
    pub fn metadata(&self, path: &str) -> (r: Result<FileMeta, PackFsError>)
        requires
            self.wf(),
        ensures
            r matches Ok(m) ==> self@.contains_key(path.spec_bytes()) && m.size == self@[path.spec_bytes()].len()
                && m.is_file && !m.is_dir && m.mtime == 0,
            r matches Err(e) ==> !self@.contains_key(path.spec_bytes()) && e.file@ == path@ && e.opt
                == PackFsErrorOpt::Stat && e.inner@ == "Rspack FS Error: file not exist"@,
            !self@.contains_key(path.spec_bytes()) ==> r is Err,
    {
        match self.read_file(path.as_bytes()) {
            Some(bytes) => Ok(FileMeta { size: bytes.len() as u64, mtime: 0, is_file: true, is_dir: false }),
            None => Err(
                PackFsError::from_fs_error(path, PackFsErrorOpt::Stat, String::from_str("Rspack FS Error: file not exist")),
            ),
        }
    }

    /// The bytes of the file at `path`, or `None` where there is none.
    pub fn read_file(&self, path: &[u8]) -> (r: Option<Vec<u8>>)
        requires
            self.wf(),
        ensures
            r matches Some(b) ==> self@.contains_key(path@) && b@ == self@[path@],
            r is None ==> !self@.contains_key(path@),
    {
        proof {
            lemma_assoc_domain(pairs(self.files@), path@);
        }
        match find_key(&self.files, path) {
            Some(i) => {
                proof {
                    lemma_assoc_index(pairs(self.files@), i as int);
                }
                Some(self.files[i].1.clone())
            },
            None => {
                assert forall|j: int| 0 <= j < pairs(self.files@).len() implies pairs(self.files@)[j].0 != path@ by {
                    assert(self.files@[j].0@ != path@);
                }
                None
            },
        }
    }

    /// Writes `bytes` at `path`, over what stood there.
    pub fn write_file(&mut self, path: &[u8], bytes: Vec<u8>)
        requires
            old(self).wf(),
        ensures
            final(self).wf(),
            final(self)@ == old(self)@.insert(path@, bytes@),
    {
        let ghost before = pairs(self.files@);
        let ghost bv = bytes@;
        match find_key(&self.files, path) {
            Some(i) => {
                let p = vstd::slice::slice_to_vec(path);
                self.files.set(i, (p, bytes));
                proof {
                    assert(pairs(self.files@) =~= before.update(i as int, (before[i as int].0, bv)));
                    lemma_assoc_update(before, i as int, bv);
                }
            },
            None => {
                let p = vstd::slice::slice_to_vec(path);
                self.files.push((p, bytes));
                proof {
                    let after = pairs(self.files@);
                    assert(after =~= before.push((path@, bv)));
                    assert(after.drop_last() =~= before);
                    assert forall|a: int, b: int| 0 <= a < after.len() && 0 <= b < after.len() && a != b
                        implies after[a].0 != after[b].0 by {
                        if a < before.len() && b < before.len() {
                            assert(after[a] == before[a] && after[b] == before[b]);
                        } else if a == before.len() {
                            assert(after[b] == before[b]);
                            assert(old(self).files@[b].0@ != path@);
                        } else {
                            assert(after[a] == before[a]);
                            assert(old(self).files@[a].0@ != path@);
                        }
                    }
                }
            },
        }
    }

    /// Removes the file at `path`; nothing happens where there is none.
    pub fn remove_file(&mut self, path: &[u8])
        requires
            old(self).wf(),
        ensures
            final(self).wf(),
            final(self)@ == old(self)@.remove(path@),
    {
        let ghost before = pairs(self.files@);
        proof {
            lemma_assoc_domain(before, path@);
        }
        match find_key(&self.files, path) {
            Some(i) => {
                self.files.remove(i);
                proof {
                    assert(pairs(self.files@) =~= before.remove(i as int));
                    lemma_assoc_remove(before, i as int);
                }
            },
            None => {
                assert forall|j: int| 0 <= j < before.len() implies before[j].0 != path@ by {
                    assert(old(self).files@[j].0@ != path@);
                }
                assert(old(self)@ =~= old(self)@.remove(path@));
            },
        }
    }

    /// Removes every file inside the directory `dir`; nothing happens where
    /// there is none.
    pub fn remove_dir(&mut self, dir: &[u8])
        requires
            old(self).wf(),
        ensures
            final(self).wf(),
            final(self)@ == old(self)@.restrict(Set::new(|p: Seq<u8>| !is_under(dir@, p))),
    {
        let ghost before = pairs(self.files@);
        let mut kept: Vec<(Vec<u8>, Vec<u8>)> = Vec::new();
        let mut files: Vec<(Vec<u8>, Vec<u8>)> = Vec::new();
        core::mem::swap(&mut files, &mut self.files);
        let mut i: usize = 0;
        while i < files.len()
            invariant
                i <= files@.len(),
                before == pairs(files@),
                unique_keys(before),
                unique_keys(pairs(kept@)),
                forall|k: Seq<u8>| #[trigger] key_in(pairs(kept@), k) ==> key_in(before.subrange(0, i as int), k),
                assoc(pairs(kept@)) == assoc(before.subrange(0, i as int)).restrict(
                    Set::new(|p: Seq<u8>| !is_under(dir@, p)),
                ),
            decreases files@.len() - i,
        {
            let ghost k0 = before[i as int].0;
            proof {
                assert(before.subrange(0, i + 1).drop_last() =~= before.subrange(0, i as int));
            }
            if !under(dir, files[i].0.as_slice()) {
                let ghost k_before = pairs(kept@);
                kept.push((files[i].0.clone(), files[i].1.clone()));
                proof {
                    let after = pairs(kept@);
                    assert(after =~= k_before.push(before[i as int]));
                    assert(after.drop_last() =~= k_before);
                    assert(!key_in(k_before, k0)) by {
                        if key_in(k_before, k0) {
                            let j = choose|j: int| 0 <= j < i && before.subrange(0, i as int)[j].0 == k0;
                            assert(before[j].0 == before[i as int].0);
                        }
                    }
                    assert forall|a: int, b: int| 0 <= a < after.len() && 0 <= b < after.len() && a != b
                        implies after[a].0 != after[b].0 by {
                        if a < k_before.len() && b < k_before.len() {
                            assert(after[a] == k_before[a] && after[b] == k_before[b]);
                        } else if a == k_before.len() {
                            assert(after[b] == k_before[b]);
                        } else {
                            assert(after[a] == k_before[a]);
                        }
                    }
                    assert forall|k: Seq<u8>| #[trigger] key_in(after, k) implies key_in(before.subrange(0, i + 1), k) by {
                        let x = choose|x: int| 0 <= x < after.len() && after[x].0 == k;
                        if x < k_before.len() {
                            assert(after[x] == k_before[x]);
                            assert(key_in(k_before, k));
                            let j = choose|j: int| 0 <= j < i && before.subrange(0, i as int)[j].0 == k;
                            assert(before.subrange(0, i + 1)[j].0 == k);
                        } else {
                            assert(before.subrange(0, i + 1)[i as int].0 == k);
                        }
                    }
                    assert(assoc(after) =~= assoc(before.subrange(0, i + 1)).restrict(
                        Set::new(|p: Seq<u8>| !is_under(dir@, p)),
                    ));
                }
            } else {
                proof {
                    assert(assoc(pairs(kept@)) =~= assoc(before.subrange(0, i + 1)).restrict(
                        Set::new(|p: Seq<u8>| !is_under(dir@, p)),
                    ));
                    assert forall|k: Seq<u8>| #[trigger] key_in(pairs(kept@), k) implies key_in(before.subrange(0, i + 1), k) by {
                        let j = choose|j: int| 0 <= j < i && before.subrange(0, i as int)[j].0 == k;
                        assert(before.subrange(0, i + 1)[j].0 == k);
                    }
                }
            }
            i = i + 1;
        }
        assert(before.subrange(0, i as int) =~= before);
        self.files = kept;
    }

    /// The names of the entries directly inside `dir`: files, and the
    /// directories that hold files. Each name stands once.
    pub fn read_dir(&self, dir: &[u8]) -> (r: Vec<Vec<u8>>)
        requires
            self.wf(),
        ensures
            forall|i: int, j: int| 0 <= i < j < r@.len() ==> (#[trigger] r@[i])@ != (#[trigger] r@[j])@,
            forall|i: int| 0 <= i < r@.len() ==> names_entry(self@, dir@, (#[trigger] r@[i])@),
            forall|p: Seq<u8>| #[trigger] self@.contains_key(p) && is_under(dir@, p) ==> exists|i: int| 0 <= i < r@.len()
                && r@[i]@ == entry_name(dir@, p),
    {
        let ghost fp = pairs(self.files@);
        let mut names: Vec<Vec<u8>> = Vec::new();
        let mut i: usize = 0;
        while i < self.files.len()
            invariant
                i <= self.files@.len(),
                fp == pairs(self.files@),
                self.wf(),
                forall|a: int, b: int| 0 <= a < b < names@.len() ==> (#[trigger] names@[a])@ != (#[trigger] names@[b])@,
                forall|x: int| 0 <= x < names@.len() ==> names_entry(self@, dir@, (#[trigger] names@[x])@),
                forall|j: int| 0 <= j < i && is_under(dir@, #[trigger] fp[j].0) ==> exists|x: int| 0 <= x < names@.len()
                    && names@[x]@ == entry_name(dir@, fp[j].0),
            decreases self.files@.len() - i,
        {
            let path = &self.files[i].0;
            if under(dir, path.as_slice()) {
                let name = entry_of(dir, path.as_slice());
                proof {
                    lemma_assoc_index(fp, i as int);
                }
                let mut found = false;
                let mut x: usize = 0;
                while x < names.len()
                    invariant
                        x <= names@.len(),
                        found ==> exists|y: int| 0 <= y < names@.len() && names@[y]@ == name@,
                        !found ==> forall|y: int| 0 <= y < x ==> names@[y]@ != name@,
                    decreases names@.len() - x,
                {
                    if crate::bytes::bytes_eq(names[x].as_slice(), name.as_slice()) {
                        found = true;
                    }
                    x = x + 1;
                }
                if !found {
                    let ghost n0 = names@;
                    names.push(name);
                    proof {
                        assert forall|a: int, b: int| 0 <= a < b < names@.len() implies (#[trigger] names@[a])@
                            != (#[trigger] names@[b])@ by {
                            if b < n0.len() {
                                assert(names@[a] == n0[a] && names@[b] == n0[b]);
                            } else {
                                assert(names@[a] == n0[a]);
                            }
                        }
                        assert forall|y: int| 0 <= y < names@.len() implies names_entry(self@, dir@, (#[trigger] names@[y])@) by {
                            if y < n0.len() {
                                assert(names@[y] == n0[y]);
                            } else {
                                assert(self@.contains_key(fp[i as int].0));
                                assert(is_under(dir@, fp[i as int].0));
                                assert(entry_name(dir@, fp[i as int].0) == names@[y]@);
                            }
                        }
                        assert forall|j: int| 0 <= j < i + 1 && is_under(dir@, #[trigger] fp[j].0) implies exists|y: int|
                            0 <= y < names@.len() && names@[y]@ == entry_name(dir@, fp[j].0) by {
                            if j < i {
                                let y = choose|y: int| 0 <= y < n0.len() && n0[y]@ == entry_name(dir@, fp[j].0);
                                assert(names@[y] == n0[y]);
                            } else {
                                assert(names@[n0.len() as int]@ == entry_name(dir@, fp[j].0));
                            }
                        }
                    }
                }
            }
            i = i + 1;
        }
        proof {
            assert forall|p: Seq<u8>| #[trigger] self@.contains_key(p) && is_under(dir@, p) implies exists|x: int|
                0 <= x < names@.len() && names@[x]@ == entry_name(dir@, p) by {
                lemma_assoc_domain(fp, p);
                let j = choose|j: int| 0 <= j < fp.len() && fp[j].0 == p;
            }
        }
        names
    }

    /// Moves the file at `from` to `to`, over what stood there; nothing
    /// happens where no file stands at `from`.
    pub fn move_file(&mut self, from: &[u8], to: &[u8])
        requires
            old(self).wf(),
        ensures
            final(self).wf(),
            old(self)@.contains_key(from@) ==> final(self)@ == old(self)@.remove(from@).insert(to@, old(self)@[from@]),
            !old(self)@.contains_key(from@) ==> final(self)@ == old(self)@,
    {
        match self.read_file(from) {
            Some(bytes) => {
                self.remove_file(from);
                self.write_file(to, bytes);
            },
            None => {},
        }
    }
}

} // verus!
