//! Bookkeeping of an append-only scratch file.
//!
//! Bytes that do not fit the memory budget are appended to a scratch file
//! and read back by position. This module decides the positions and says
//! what must come back; whoever owns the file performs the writes and reads.
use vstd::prelude::*;

verus! {

/// An append-only, random-access scratch file, seen by what was appended to it.
pub struct SpoolFile {
    /// Where the next append goes. It only ever grows.
    next_offset: u64,
    contents: Ghost<Seq<u8>>,
}

impl SpoolFile {
    /// Everything that was appended, in order.
    pub closed spec fn contents(self) -> Seq<u8> {
        self.contents@
    }

    /// The append position is the number of bytes appended.
    pub closed spec fn wf(self) -> bool {
        self.contents@.len() == self.next_offset
    }

    /// An empty spool.
    pub fn new() -> (spool: Self)
        ensures
            spool.wf(),
            spool.contents() == Seq::<u8>::empty(),
    {
        SpoolFile { next_offset: 0, contents: Ghost(Seq::empty()) }
    }

    /// Account for an append of `data` and return the offset at which it begins.
    /// The owner of the file has `data` written at that offset.
    pub fn append(&mut self, data: &[u8]) -> (offset: u64)
        requires
            old(self).wf(),
            old(self).contents().len() + data@.len() <= u64::MAX,
        ensures
            final(self).wf(),
            offset == old(self).contents().len(),
            final(self).contents() == old(self).contents() + data@,
    {
        let offset: u64 = self.next_offset;
        self.next_offset = offset + data.len() as u64;
        self.contents = Ghost(self.contents@ + data@);
        offset
    }

    /// Read `len` bytes at `offset` out of `image`, the bytes of the file, or
    /// nothing if they are not all there. No bytes are there anywhere.
    pub fn read_exact(image: &[u8], offset: u64, len: usize) -> (bytes: Option<Vec<u8>>)
        ensures
            bytes is Some <==> len == 0 || offset + len <= image@.len(),
            bytes matches Some(read) ==> read@ == if len == 0 {
                Seq::<u8>::empty()
            } else {
                image@.subrange(offset as int, offset + len)
            },
    {
        if len == 0 {
            return Some(Vec::new());
        }
        let size: usize = image.len();
        if offset > size as u64 || len > size - offset as usize {
            return None;
        }
        let start: usize = offset as usize;
        Some(vstd::slice::slice_to_vec(vstd::slice::slice_subrange(image, start, start + len)))
    }

    /// Total bytes appended so far.
    pub fn bytes_written(&self) -> (n: u64)
        requires
            self.wf(),
        ensures
            n == self.contents().len(),
    {
        self.next_offset
    }
}

/// What was appended is what a read of that place gives back, whatever was
/// appended before it (`before`) and since (`now`).
pub proof fn law_read_returns_what_was_appended(before: SpoolFile, data: Seq<u8>, now: SpoolFile)
    requires
        (before.contents() + data).is_prefix_of(now.contents()),
    ensures
        now.contents().subrange(
            before.contents().len() as int,
            (before.contents().len() + data.len()) as int,
        ) == data,
{
    let start = before.contents().len() as int;
    let end = (before.contents().len() + data.len()) as int;
    let prefix = before.contents() + data;
    assert(now.contents().subrange(0, prefix.len() as int) == prefix);
    assert forall|i: int| 0 <= i < data.len() implies #[trigger] now.contents().subrange(
        start,
        end,
    )[i] == data[i] by {
        assert(now.contents().subrange(0, prefix.len() as int)[start + i] == prefix[start + i]);
    }
    assert(now.contents().subrange(start, end) =~= data);
}

/// Owner of a spool that comes into being with the first spill.
pub struct SpoolHandle {
    file: Option<SpoolFile>,
}

impl SpoolHandle {
    /// The spool, if anything made it come into being.
    pub closed spec fn file(self) -> Option<SpoolFile> {
        self.file
    }

    pub open spec fn wf(self) -> bool {
        self.file() matches Some(f) ==> f.wf()
    }

    /// Everything appended through this handle.
    pub open spec fn contents(self) -> Seq<u8> {
        match self.file() {
            Some(f) => f.contents(),
            None => Seq::empty(),
        }
    }

    /// A handle without a spool.
    pub fn new() -> (handle: Self)
        ensures
            handle.file() is None,
    {
        SpoolHandle { file: None }
    }

    /// The spool, created empty by the first call; later calls hand out the same one.
    pub fn get_or_create(&mut self) -> (file: &mut SpoolFile)
        requires
            old(self).wf(),
        ensures
            file.wf(),
            match old(self).file() {
                Some(f) => *file == f,
                None => file.contents() == Seq::<u8>::empty(),
            },
            final(self).file() == Some(*final(file)),
    {
        let file = match self.file.take() {
            Some(file) => file,
            None => SpoolFile::new(),
        };
        self.file.insert(file)
    }

    /// Total bytes appended so far; none if the spool never came into being.
    pub fn bytes_written(&self) -> (n: u64)
        requires
            self.wf(),
        ensures
            n == self.contents().len(),
    {
        match &self.file {
            Some(file) => file.bytes_written(),
            None => 0,
        }
    }
}

} // verus!
