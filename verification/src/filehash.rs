//! Driving a hasher over a file's bytes.
//!
//! The bytes themselves arrive from outside (memory map or buffered
//! reads); this module owns the hasher, the reusable read buffer and
//! the streaming decisions: what to absorb and when to stop.

use vstd::prelude::*;
use crate::hasher::ByteHasher;

verus! {

/// A hasher with its reusable read buffer and I/O preference.
pub struct FileHasher<B: ByteHasher> {
    pub hasher: B,
    pub buf: Vec<u8>,
    pub force_read: bool,
}

impl<B: ByteHasher> FileHasher<B> {
    /// A hasher with a zeroed read buffer of the given size.
    pub fn new(hasher: B, bufsz: u64, force_read: bool) -> (r: Self)
        requires
            bufsz <= usize::MAX,
        ensures
            r.hasher == hasher,
            r.force_read == force_read,
            r.buf@.len() == bufsz,
    {
        let n = bufsz as usize;
        let mut buf: Vec<u8> = Vec::new();
        let mut i: usize = 0;
        while i < n
            invariant
                0 <= i <= n,
                buf@.len() == i,
            decreases n - i,
        {
            buf.push(0u8);
            i = i + 1;
        }
        FileHasher { hasher, buf, force_read }
    }

    /// Absorbs one chunk of the file.
    pub fn feed(&mut self, chunk: &[u8])
        ensures
            final(self).hasher.absorbed_bytes() == old(self).hasher.absorbed_bytes() + chunk@,
            final(self).hasher.pending_digest() == old(self).hasher.pending_digest(),
            forall|b: Seq<u8>|
                #[trigger] final(self).hasher.digest_chars(b) == old(self).hasher.digest_chars(b),
            final(self).buf == old(self).buf,
            final(self).force_read == old(self).force_read,
    {
        self.hasher.update(chunk);
    }

    /// Finishes the current file: the digest text of exactly the bytes
    /// absorbed since the last finish, with the hasher reset for the
    /// next file.
    pub fn finish_digest(&mut self) -> (r: String)
        ensures
            r@ == old(self).hasher.digest_chars(old(self).hasher.absorbed_bytes()),
            final(self).hasher.absorbed_bytes() == Seq::<u8>::empty(),
            forall|b: Seq<u8>|
                #[trigger] final(self).hasher.digest_chars(b) == old(self).hasher.digest_chars(b),
            final(self).buf == old(self).buf,
            final(self).force_read == old(self).force_read,
    {
        self.hasher.finish();
        self.hasher.digest()
    }
}

/// The buffered-read loop goes on while the last read returned bytes
/// and the running total has not reached the size observed at stat
/// time; a partial or empty read past that point means the file ended.
pub fn more_to_read(last_read: usize, total_read: u64, file_size: u64) -> (r: bool)
    ensures
        r == (last_read != 0 && total_read != file_size),
{
    last_read != 0 && total_read != file_size
}

} // verus!
