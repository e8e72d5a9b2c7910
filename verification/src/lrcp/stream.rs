//! The application's side of a session: inbound chunks become an ordered byte
//! stream that can be read a few bytes at a time, and writes become commands
//! for the session.

use crate::lrcp::session::SessionCommand;
use bytes::Bytes;
use vstd::prelude::*;
use vstd::slice::slice_to_vec;

verus! {

/// `bytes::Bytes`: a cheaply cloneable handle on a run of bytes. Nothing of
/// its inside is known here but what the items below say.
#[verifier::external_type_specification]
#[verifier::external_body]
pub struct ExBytes(bytes::Bytes);

/// The bytes that a `Bytes` handle shows, in order.
pub uninterp spec fn bytes_contents(b: Bytes) -> Seq<u8>;

/// `Bytes::new` makes an empty handle.
pub assume_specification[ Bytes::new ]() -> (b: Bytes)
    ensures
        bytes_contents(b) == Seq::<u8>::empty(),
;

/// `Bytes::len` is the number of bytes that the handle shows.
pub assume_specification[ Bytes::len ](b: &Bytes) -> (n: usize)
    ensures
        n == bytes_contents(*b).len(),
;

/// `Bytes::is_empty` says whether that number is zero.
pub assume_specification[ Bytes::is_empty ](b: &Bytes) -> (r: bool)
    ensures
        r == (bytes_contents(*b).len() == 0),
;

/// `Bytes::from(Vec<u8>)` takes the vector over: the handle shows exactly the
/// vector's bytes.
#[verifier::external_body]
pub(crate) fn bytes_from_vec(v: Vec<u8>) -> (b: Bytes)
    ensures
        bytes_contents(b) == v@,
{
    Bytes::from(v)
}

/// `Bytes::slice` returns a handle on the bytes `begin..end` of the same
/// memory. It panics unless `begin <= end <= len`.
#[verifier::external_body]
pub(crate) fn bytes_slice(b: &Bytes, begin: usize, end: usize) -> (r: Bytes)
    requires
        begin <= end <= bytes_contents(*b).len(),
    ensures
        bytes_contents(r) == bytes_contents(*b).subrange(begin as int, end as int),
{
    b.slice(begin..end)
}

/// `Vec::<u8>::from(Bytes)` copies or moves the shown bytes into a vector.
#[verifier::external_body]
pub(crate) fn bytes_into_vec(b: Bytes) -> (v: Vec<u8>)
    ensures
        v@ == bytes_contents(b),
{
    Vec::from(b)
}

/// The read and write ends that the application holds for one session.
///
/// Chunks arrive whole from the session; a reader may ask for fewer bytes than
/// a chunk holds, so what is left of the last chunk waits here.
pub struct LrcpStream {
    read_buf: Bytes,
}

impl View for LrcpStream {
    type V = Seq<u8>;

    /// The bytes left over from the last chunk, next in stream order.
    closed spec fn view(&self) -> Seq<u8> {
        bytes_contents(self.read_buf)
    }
}

/// How many bytes a read of `capacity` takes from `available`.
pub open spec fn read_len(available: Seq<u8>, capacity: usize) -> int {
    if capacity as int <= available.len() {
        capacity as int
    } else {
        available.len() as int
    }
}

impl LrcpStream {
    /// A stream with nothing buffered.
    pub fn new() -> (s: Self)
        ensures
            s@ == Seq::<u8>::empty(),
    {
        LrcpStream { read_buf: Bytes::new() }
    }

    /// The number of buffered bytes.
    pub fn buffered(&self) -> (n: usize)
        ensures
            n == self@.len(),
    {
        self.read_buf.len()
    }

    /// Serves a read of up to `capacity` bytes from the buffer.
    ///
    /// `None` means that nothing is buffered and the caller has to wait for
    /// the next chunk. Otherwise the result is the front of the buffer, and
    /// what was not taken stays, in order.
    pub fn read_buffered(&mut self, capacity: usize) -> (r: Option<Vec<u8>>)
        ensures
            old(self)@.len() == 0 ==> r is None && final(self)@ == old(self)@,
            old(self)@.len() > 0 ==> r is Some && r.unwrap()@ == old(self)@.take(
                read_len(old(self)@, capacity),
            ) && final(self)@ == old(self)@.skip(read_len(old(self)@, capacity)),
    {
        if self.read_buf.is_empty() {
            return None;
        }
        let total = self.read_buf.len();
        let len = if capacity < total { capacity } else { total };
        let head = bytes_into_vec(bytes_slice(&self.read_buf, 0, len));
        let rest = bytes_slice(&self.read_buf, len, total);
        self.read_buf = rest;
        Some(head)
    }

    /// Serves a read of up to `capacity` bytes from a chunk that has just
    /// arrived, and keeps what does not fit for the next read.
    ///
    /// To be called only when nothing is buffered, which `read_buffered`
    /// reports: otherwise bytes would overtake each other.
    pub fn read_chunk(&mut self, chunk: Bytes, capacity: usize) -> (r: Vec<u8>)
        requires
            old(self)@.len() == 0,
        ensures
            r@ == bytes_contents(chunk).take(read_len(bytes_contents(chunk), capacity)),
            final(self)@ == bytes_contents(chunk).skip(read_len(bytes_contents(chunk), capacity)),
    {
        let total = chunk.len();
        let len = if capacity < total { capacity } else { total };
        let head = bytes_into_vec(bytes_slice(&chunk, 0, len));
        if len < total {
            self.read_buf = bytes_slice(&chunk, len, total);
        } else {
            proof {
                assert(bytes_contents(chunk).skip(len as int) =~= Seq::<u8>::empty());
            }
        }
        head
    }

    /// The command that hands `buf` to the session for sending. The write is
    /// done once the session has taken the command; no acknowledgement from
    /// the peer is waited for.
    pub fn write(&self, buf: &[u8]) -> (cmd: SessionCommand)
        ensures
            cmd == (SessionCommand::Write { data: cmd->data }),
            cmd->data@ == buf@,
    {
        SessionCommand::Write { data: slice_to_vec(buf) }
    }

    /// The command that tells the session that the application is done.
    pub fn shutdown(&self) -> (cmd: SessionCommand)
        ensures
            cmd == SessionCommand::Shutdown,
    {
        SessionCommand::Shutdown
    }
}

/// Reading loses nothing and reorders nothing: what a read returns, followed
/// by what stays buffered, is what was there before.
pub proof fn lemma_read_preserves_stream(available: Seq<u8>, capacity: usize)
    ensures
        available.take(read_len(available, capacity)) + available.skip(
            read_len(available, capacity),
        ) == available,
        available.take(read_len(available, capacity)).len() <= capacity,
{
    let n = read_len(available, capacity);
    assert(available.take(n) + available.skip(n) =~= available);
}

} // verus!
