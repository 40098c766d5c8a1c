//! Reading a file piece by piece, and writing one, in memory.
use vstd::prelude::*;
use crate::codec::NEWLINE;
use crate::memory_fs::PackMemoryFs;

verus! {

/// A reader over the bytes of a file, with a cursor.
pub struct MemoryFileReader {
    pub contents: Vec<u8>,
    pub pos: usize,
}

impl MemoryFileReader {
    pub open spec fn wf(&self) -> bool {
        self.pos <= self.contents@.len()
    }

    /// What is left to read.
    pub open spec fn rest(&self) -> Seq<u8> {
        self.contents@.subrange(self.pos as int, self.contents@.len() as int)
    }

    /// A reader at the start of `contents`.
    pub fn new(contents: Vec<u8>) -> (r: MemoryFileReader)
        ensures
            r.wf(),
            r.rest() == contents@,
            r.contents == contents,
    {
        let r = MemoryFileReader { contents, pos: 0 };
        assert(r.rest() =~= r.contents@);
        r
    }

    /// Reads up to the next newline and steps over it; without a newline,
    /// reads to the end.
    pub fn line(&mut self) -> (r: Vec<u8>)
        requires
            old(self).wf(),
        ensures
            final(self).wf(),
            final(self).contents == old(self).contents,
            crate::codec::no_newline(r@),
            old(self).rest() == r@ + final(self).rest() || old(self).rest() == r@.push(NEWLINE) + final(self).rest(),
            final(self).rest().len() > 0 ==> old(self).rest() == r@.push(NEWLINE) + final(self).rest(),
    {
        let ghost before = self.rest();
        let start = self.pos;
        let mut j = self.pos;
        while j < self.contents.len() && self.contents[j] != NEWLINE
            invariant
                start <= j <= self.contents@.len(),
                start == self.pos,
                crate::codec::no_newline(self.contents@.subrange(start as int, j as int)),
            decreases self.contents@.len() - j,
        {
            assert(self.contents@.subrange(start as int, j + 1) =~= self.contents@.subrange(start as int, j as int).push(
                self.contents@[j as int],
            ));
            j = j + 1;
        }
        let r = vstd::slice::slice_to_vec(&self.contents.as_slice()[start..j]);
        if j < self.contents.len() {
            self.pos = j + 1;
            assert(before =~= r@.push(NEWLINE) + self.rest());
        } else {
            self.pos = j;
            assert(before =~= r@ + self.rest());
            assert(self.rest().len() == 0);
        }
        r
    }

    /// Reads exactly `len` bytes; `None`, with nothing read, where fewer
    /// are left.
    pub fn bytes(&mut self, len: usize) -> (r: Option<Vec<u8>>)
        requires
            old(self).wf(),
        ensures
            final(self).wf(),
            final(self).contents == old(self).contents,
            len <= old(self).rest().len() ==> (r matches Some(v) && v@ == old(self).rest().subrange(0, len as int)
                && final(self).rest() == old(self).rest().subrange(len as int, old(self).rest().len() as int)),
            len > old(self).rest().len() ==> r is None && *final(self) == *old(self),
    {
        if len > self.contents.len() - self.pos {
            return None;
        }
        let start = self.pos;
        let r = vstd::slice::slice_to_vec(&self.contents.as_slice()[start..start + len]);
        self.pos = start + len;
        assert(r@ =~= old(self).rest().subrange(0, len as int));
        assert(self.rest() =~= old(self).rest().subrange(len as int, old(self).rest().len() as int));
        Some(r)
    }

    /// Steps over `len` bytes without reading them; `false`, with nothing
    /// skipped, where fewer are left.
    pub fn skip(&mut self, len: usize) -> (r: bool)
        requires
            old(self).wf(),
        ensures
            final(self).wf(),
            final(self).contents == old(self).contents,
            r == (len <= old(self).rest().len()),
            r ==> final(self).rest() == old(self).rest().subrange(len as int, old(self).rest().len() as int),
            !r ==> *final(self) == *old(self),
    {
        if len > self.contents.len() - self.pos {
            return false;
        }
        self.pos = self.pos + len;
        assert(self.rest() =~= old(self).rest().subrange(len as int, old(self).rest().len() as int));
        true
    }

    /// Reads everything that is left.
    pub fn remain(&mut self) -> (r: Vec<u8>)
        requires
            old(self).wf(),
        ensures
            final(self).wf(),
            final(self).contents == old(self).contents,
            r@ == old(self).rest(),
            final(self).rest().len() == 0,
    {
        let start = self.pos;
        let r = vstd::slice::slice_to_vec(&self.contents.as_slice()[start..self.contents.len()]);
        self.pos = self.contents.len();
        assert(self.rest() =~= Seq::<u8>::empty());
        r
    }
}

/// A writer that collects bytes for the file at `path` until `flush`.
pub struct MemoryFileWriter {
    pub path: Vec<u8>,
    pub contents: Vec<u8>,
}

impl MemoryFileWriter {
    /// A writer for `path` with nothing written yet.
    pub fn new(path: Vec<u8>) -> (r: MemoryFileWriter)
        ensures
            r.path == path,
            r.contents@.len() == 0,
    {
        MemoryFileWriter { path, contents: Vec::new() }
    }

    /// Appends `line` and a newline.
    pub fn line(&mut self, line: &[u8])
        ensures
            final(self).path == old(self).path,
            final(self).contents@ == old(self).contents@ + line@.push(NEWLINE),
    {
        self.contents.extend_from_slice(line);
        self.contents.push(NEWLINE);
        assert(self.contents@ =~= old(self).contents@ + line@.push(NEWLINE));
    }

    /// Appends `bytes`.
    pub fn bytes(&mut self, bytes: &[u8])
        ensures
            final(self).path == old(self).path,
            final(self).contents@ == old(self).contents@ + bytes@,
    {
        self.contents.extend_from_slice(bytes);
        assert(self.contents@ =~= old(self).contents@ + bytes@);
    }

    /// Writes what was collected as the whole file.
    pub fn flush(&self, fs: &mut PackMemoryFs)
        requires
            old(fs).wf(),
        ensures
            final(fs).wf(),
            final(fs)@ == old(fs)@.insert(self.path@, self.contents@),
    {
        fs.write_file(self.path.as_slice(), vstd::slice::slice_to_vec(self.contents.as_slice()));
    }

    /// Writes `content` as the whole file at once.
    pub fn write(&self, fs: &mut PackMemoryFs, content: &[u8])
        requires
            old(fs).wf(),
        ensures
            final(fs).wf(),
            final(fs)@ == old(fs)@.insert(self.path@, content@),
    {
        fs.write_file(self.path.as_slice(), vstd::slice::slice_to_vec(content));
    }
}

} // verus!
