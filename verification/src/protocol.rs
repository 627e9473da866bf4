//! One page transaction: framing a request, collecting the response from
//! however many transport chunks arrive, and validating its echo header.

use vstd::prelude::*;
use crate::errors::Error;

verus! {

/// Vendor identifier of the supported hardware family.
pub const VENDOR_ID: u16 = 0x04D8;

/// Product identifier of the supported hardware family.
pub const PRODUCT_ID: u16 = 0xEF7E;

/// Size of one addressable page of device memory, in bytes.
pub const PAGE_SIZE: usize = 64;

/// Size of one request frame: two reserved bytes, a two-byte page
/// address, and one page of zero padding.
pub const FRAME_SIZE: usize = 68;

/// Length of the echo header that prefixes every response.
pub const ECHO_LEN: usize = 4;

/// Timeout for one bounded read attempt on the response channel, in
/// milliseconds. A read that yields nothing within it means no more data
/// is pending for the current transaction.
pub const READ_TIMEOUT_MS: u64 = 10;

/// The four bytes that identify a transaction for `addr`: two reserved
/// zero bytes followed by the address, big endian. They open the request
/// frame, and a response must open with exactly the same four bytes.
pub open spec fn echo_bytes(addr: u16) -> Seq<u8> {
    seq![0u8, 0u8, (addr >> 8) as u8, (addr & 0xFF) as u8]
}

/// The full 68-byte request frame for `addr`: the echo bytes followed by
/// one page of zero padding, so the frame always has the fixed report
/// size the transport requires.
pub open spec fn frame_bytes(addr: u16) -> Seq<u8> {
    echo_bytes(addr) + Seq::new(PAGE_SIZE as nat, |i: int| 0u8)
}

/// Builds the fixed-size request frame for one page address.
pub fn page_request(addr: u16) -> (frame: Vec<u8>)
    ensures
        frame@ == frame_bytes(addr),
        frame@.len() == FRAME_SIZE,
{
    let mut frame: Vec<u8> = Vec::new();
    frame.push(0);
    frame.push(0);
    frame.push((addr >> 8) as u8);
    frame.push((addr & 0xFF) as u8);
    let mut i: usize = 0;
    while i < PAGE_SIZE
        invariant
            i <= PAGE_SIZE,
            frame@ == echo_bytes(addr) + Seq::new(i as nat, |j: int| 0u8),
        decreases PAGE_SIZE - i,
    {
        frame.push(0);
        i += 1;
        proof {
            assert(frame@ =~= echo_bytes(addr) + Seq::new(i as nat, |j: int| 0u8));
        }
    }
    proof {
        assert(frame@ =~= frame_bytes(addr));
    }
    frame
}

/// Checks the byte count a fixed-size report write reported. Writing
/// fewer bytes than the frame size is a transport fault and fails the
/// transaction with a write mismatch.
pub fn confirm_write(written: usize) -> (r: Result<(), Error>)
    ensures
        r is Ok <==> written == FRAME_SIZE,
        r is Err ==> r == Err::<(), Error>(Error::WriteMismatch { expected: FRAME_SIZE, written }),
{
    if written == FRAME_SIZE {
        Ok(())
    } else {
        Err(Error::WriteMismatch { expected: FRAME_SIZE, written })
    }
}

/// One transaction's response, accumulated from the chunks the transport
/// delivers. The reply to one request may arrive split across several
/// reads of smaller chunk size than the logical page; the buffer is just
/// their concatenation, so the split points cannot change its contents.
pub struct ResponseBuffer {
    pub data: Vec<u8>,
}

impl ResponseBuffer {
    /// An empty response, ready to collect chunks.
    pub fn new() -> (r: ResponseBuffer)
        ensures
            r.data@ == Seq::<u8>::empty(),
    {
        ResponseBuffer { data: Vec::new() }
    }

    /// Appends one chunk read from the response channel.
    pub fn add_chunk(&mut self, chunk: &[u8])
        ensures
            final(self).data@ == old(self).data@ + chunk@,
    {
        let mut i: usize = 0;
        while i < chunk.len()
            invariant
                i <= chunk@.len(),
                self.data@ == old(self).data@ + chunk@.subrange(0, i as int),
            decreases chunk@.len() - i,
        {
            self.data.push(chunk[i]);
            i += 1;
            proof {
                assert(self.data@ =~= old(self).data@ + chunk@.subrange(0, i as int));
            }
        }
        proof {
            assert(chunk@.subrange(0, chunk@.len() as int) =~= chunk@);
        }
    }

    /// Validates the collected response against the requested address and
    /// strips the echo header. The response is accepted exactly when it is
    /// longer than the echo header and opens with the echo bytes for
    /// `addr`; anything else is a confirmation mismatch, never silently
    /// accepted. On success the returned bytes are the page payload alone.
    pub fn into_payload(self, addr: u16) -> (r: Result<Vec<u8>, Error>)
        ensures
            r is Ok <==> (self.data@.len() > ECHO_LEN && self.data@.subrange(0, ECHO_LEN as int)
                == echo_bytes(addr)),
            r matches Ok(payload) ==> payload@ == self.data@.skip(ECHO_LEN as int),
            r is Err ==> r == Err::<Vec<u8>, Error>(Error::ConfirmationMismatch),
    {
        if self.data.len() <= ECHO_LEN {
            proof {
                assert(!(self.data@.len() > ECHO_LEN));
            }
            return Err(Error::ConfirmationMismatch);
        }
        let hi = (addr >> 8) as u8;
        let lo = (addr & 0xFF) as u8;
        if self.data[0] != 0 || self.data[1] != 0 || self.data[2] != hi || self.data[3] != lo {
            proof {
                assert(self.data@.subrange(0, ECHO_LEN as int) != echo_bytes(addr)) by {
                    if self.data@.subrange(0, ECHO_LEN as int) == echo_bytes(addr) {
                        assert(self.data@.subrange(0, ECHO_LEN as int)[0] == echo_bytes(addr)[0]);
                        assert(self.data@.subrange(0, ECHO_LEN as int)[1] == echo_bytes(addr)[1]);
                        assert(self.data@.subrange(0, ECHO_LEN as int)[2] == echo_bytes(addr)[2]);
                        assert(self.data@.subrange(0, ECHO_LEN as int)[3] == echo_bytes(addr)[3]);
                    }
                }
            }
            return Err(Error::ConfirmationMismatch);
        }
        let mut payload: Vec<u8> = Vec::new();
        let mut i: usize = ECHO_LEN;
        while i < self.data.len()
            invariant
                ECHO_LEN <= i <= self.data@.len(),
                payload@ == self.data@.subrange(ECHO_LEN as int, i as int),
            decreases self.data@.len() - i,
        {
            payload.push(self.data[i]);
            i += 1;
            proof {
                assert(payload@ =~= self.data@.subrange(ECHO_LEN as int, i as int));
            }
        }
        proof {
            assert(self.data@.subrange(0, ECHO_LEN as int) =~= echo_bytes(addr));
            assert(payload@ =~= self.data@.skip(ECHO_LEN as int));
        }
        Ok(payload)
    }
}

} // verus!
