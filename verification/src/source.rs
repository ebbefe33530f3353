use vstd::prelude::*;
use crate::error::Error;

verus! {

broadcast use vstd::std_specs::vec::group_vec_axioms;

/// A seekable byte source of known length and stable contents.  The library
/// reads files and in-memory buffers through this boundary; callers supply
/// the backing store.
pub trait ByteSource: Sized {
    /// The bytes the source holds.  An implementation outside the verified
    /// world may leave the default, which promises nothing of its reads.
    open spec fn contents(&self) -> Seq<u8> {
        Seq::empty()
    }

    /// The total length of the source in bytes.
    fn byte_len(&mut self) -> (r: Result<u64, Error>)
        ensures
            final(self).contents() == old(self).contents(),
            r matches Ok(n) ==> n == old(self).contents().len(),
    ;

    /// Reads exactly the `n` bytes starting at `pos`.
    fn read_at(&mut self, pos: u64, n: usize) -> (r: Result<Vec<u8>, Error>)
        requires
            pos + n <= old(self).contents().len(),
        ensures
            final(self).contents() == old(self).contents(),
            r matches Ok(v) ==> v@ == old(self).contents().subrange(
                pos as int,
                pos + n,
            ),
    ;
}

/// A byte source backed by memory, the in-process counterpart of a log file.
pub struct MemSource {
    data: Vec<u8>,
}

impl MemSource {
    /// A source holding the given bytes.
    pub fn new(data: Vec<u8>) -> (r: MemSource)
        ensures
            r.contents() == data@,
    {
        MemSource { data }
    }
}

impl ByteSource for MemSource {
    closed spec fn contents(&self) -> Seq<u8> {
        self.data@
    }

    fn byte_len(&mut self) -> (r: Result<u64, Error>)
        ensures
            r is Ok,
    {
        Ok(self.data.len() as u64)
    }

    fn read_at(&mut self, pos: u64, n: usize) -> (r: Result<Vec<u8>, Error>)
        ensures
            r is Ok,
    {
        let total = self.data.len();
        proof {
            assert(pos + n <= total);
        }
        let start = pos as usize;
        let end: usize = start + n;
        let mut v: Vec<u8> = Vec::new();
        let mut idx: usize = start;
        while idx < end
            invariant
                start <= idx <= end,
                start == pos,
                end == pos + n,
                end <= self.data@.len(),
                v@ == self.data@.subrange(pos as int, idx as int),
                self == old(self),
            decreases end - idx,
        {
            v.push(self.data[idx]);
            assert(v@ =~= self.data@.subrange(pos as int, idx + 1));
            idx += 1;
        }
        Ok(v)
    }
}

} // verus!
