//! Reassembling the length-prefixed document stream from successive page
//! payloads, whose total length is only known once page 0 has arrived.

use vstd::prelude::*;
use vstd::arithmetic::div_mod::{lemma_fundamental_div_mod, lemma_mod_add_multiples_vanish, lemma_small_mod};
use crate::errors::Error;
use crate::protocol::PAGE_SIZE;

verus! {

/// Value of four bytes read as a big-endian 32-bit unsigned integer.
pub open spec fn be32(b: Seq<u8>) -> int
    recommends
        b.len() == 4,
{
    (b[0] as int) * 0x1000000 + (b[1] as int) * 0x10000 + (b[2] as int) * 0x100 + (b[3] as int)
}

/// The address computed for the page that follows `len` accumulated
/// bytes. The quotient wraps at the 16-bit address space, as the wire
/// format only carries 16-bit addresses; whether a document can ever be
/// large enough to reach that wrap is left open, since the real device's
/// address range is not documented.
pub open spec fn next_page_addr(len: int) -> int {
    (len / 64 + 1) % 0x10000
}

/// Reassembles the configuration document from page payloads. Page 0's
/// payload opens with a four-byte big-endian declared length `N`; pages
/// are then requested and appended until at least `N` bytes have
/// accumulated, and the result is truncated to exactly `N` bytes, since
/// whatever trails the declared length in the last page is uninitialized
/// padding, not data.
///
/// A device misreporting an enormous `N` makes the caller's fetch loop
/// long in proportion; each read attempt is still bounded by its
/// timeout, but no upper bound on the number of pages is imposed here.
/// With trusted hardware that is an accepted risk, not mitigated by a
/// watchdog.
pub struct StreamAssembler {
    /// Total document length declared by the header of page 0.
    pub declared: u32,
    /// Document bytes accumulated so far, possibly still followed by
    /// padding from the most recent page.
    pub data: Vec<u8>,
}

impl StreamAssembler {
    /// Starts assembly from the payload of page 0: its first four bytes
    /// declare the total document length, and the rest is the first slice
    /// of document data. A payload too short to hold the length header
    /// means the exchange is desynchronized and fails like a bad echo.
    pub fn start(page0: Vec<u8>) -> (r: Result<StreamAssembler, Error>)
        ensures
            match r {
                Ok(a) => page0@.len() >= 4 && a.declared == be32(page0@.subrange(0, 4))
                    && a.data@ == page0@.skip(4),
                Err(e) => page0@.len() < 4 && e == Error::ConfirmationMismatch,
            },
    {
        if page0.len() < 4 {
            return Err(Error::ConfirmationMismatch);
        }
        let declared: u32 = (page0[0] as u32) * 0x1000000 + (page0[1] as u32) * 0x10000 + (
        page0[2] as u32) * 0x100 + (page0[3] as u32);
        let mut data: Vec<u8> = Vec::new();
        let mut i: usize = 4;
        while i < page0.len()
            invariant
                4 <= i <= page0@.len(),
                data@ == page0@.subrange(4, i as int),
            decreases page0@.len() - i,
        {
            data.push(page0[i]);
            i += 1;
            proof {
                assert(data@ =~= page0@.subrange(4, i as int));
            }
        }
        proof {
            assert(data@ =~= page0@.skip(4));
        }
        Ok(StreamAssembler { declared, data })
    }

    /// True while the accumulated data is still shorter than the declared
    /// length, so another page must be fetched.
    pub fn needs_more(&self) -> (r: bool)
        ensures
            r == (self.data@.len() < self.declared),
    {
        self.data.len() < self.declared as usize
    }

    /// The address of the page to request next.
    pub fn next_addr(&self) -> (a: u16)
        ensures
            a == next_page_addr(self.data@.len() as int),
    {
        ((self.data.len() / PAGE_SIZE + 1) % 0x10000) as u16
    }

    /// Appends one more page's payload to the accumulated data.
    pub fn feed(&mut self, payload: &[u8])
        ensures
            final(self).declared == old(self).declared,
            final(self).data@ == old(self).data@ + payload@,
    {
        let mut i: usize = 0;
        while i < payload.len()
            invariant
                i <= payload@.len(),
                self.declared == old(self).declared,
                self.data@ == old(self).data@ + payload@.subrange(0, i as int),
            decreases payload@.len() - i,
        {
            self.data.push(payload[i]);
            i += 1;
            proof {
                assert(self.data@ =~= old(self).data@ + payload@.subrange(0, i as int));
            }
        }
        proof {
            assert(payload@.subrange(0, payload@.len() as int) =~= payload@);
        }
    }

    /// Truncates the accumulated data to the declared length and hands the
    /// document bytes over. Only meaningful once enough bytes have
    /// accumulated, which the assembly loop guarantees by feeding pages
    /// while `needs_more` holds.
    pub fn finish(self) -> (r: Vec<u8>)
        requires
            self.data@.len() >= self.declared,
        ensures
            r@ == self.data@.subrange(0, self.declared as int),
    {
        let mut data = self.data;
        let n = self.declared as usize;
        data.truncate(n);
        data
    }
}

/// The 64-byte page at `addr` of a device memory image `mem`.
pub open spec fn page_of(mem: Seq<u8>, addr: int) -> Seq<u8> {
    mem.subrange(64 * addr, 64 * addr + 64)
}

/// Ties a running assembler to the device memory image it is reading:
/// the declared length is the one in the image's header, the accumulated
/// data is exactly the image's bytes after the header so far, and its
/// length stays congruent to 60 modulo the page size, which is what makes
/// the next page address line up with the next byte needed.
pub open spec fn tracks(a: StreamAssembler, mem: Seq<u8>) -> bool {
    &&& mem.len() >= 64
    &&& 4 + a.data@.len() <= mem.len()
    &&& a.declared == be32(mem.subrange(0, 4))
    &&& a.data@ == mem.subrange(4, 4 + a.data@.len() as int)
    &&& a.data@.len() % 64 == 60
}

/// Starting from page 0 of a memory image puts the assembler on track:
/// whatever the image holds, the accumulated data is its first slice.
pub proof fn lemma_start_tracks(a: StreamAssembler, mem: Seq<u8>)
    requires
        mem.len() >= 64,
        a.declared == be32(page_of(mem, 0).subrange(0, 4)),
        a.data@ == page_of(mem, 0).skip(4),
    ensures
        tracks(a, mem),
{
    assert(page_of(mem, 0).subrange(0, 4) =~= mem.subrange(0, 4));
    assert(page_of(mem, 0).skip(4) =~= mem.subrange(4, 64));
    assert(a.data@.len() == 60);
}

/// Feeding the page selected by `next_addr` keeps the assembler on
/// track, regardless of where the previous pages were split: the new
/// page's bytes continue the image exactly where the accumulated data
/// ends. The address quotient must still be inside the 16-bit address
/// space, and the image must still hold the requested page.
pub proof fn lemma_feed_tracks(pre: StreamAssembler, post: StreamAssembler, mem: Seq<u8>)
    requires
        tracks(pre, mem),
        pre.data@.len() / 64 + 1 < 0x10000,
        64 * next_page_addr(pre.data@.len() as int) + 64 <= mem.len(),
        post.declared == pre.declared,
        post.data@ == pre.data@ + page_of(mem, next_page_addr(pre.data@.len() as int)),
    ensures
        tracks(post, mem),
{
    let l = pre.data@.len() as int;
    let a = next_page_addr(l);
    assert(a == l / 64 + 1) by {
        lemma_small_mod((l / 64 + 1) as nat, 0x10000);
    }
    assert(64 * (l / 64) == l - 60) by {
        lemma_fundamental_div_mod(l, 64);
    }
    assert(64 * a == l + 4);
    assert(post.data@ =~= mem.subrange(4, 4 + (l + 64)));
    assert((l + 64) % 64 == 60) by {
        lemma_mod_add_multiples_vanish(l, 64);
    }
}

/// The device memory images the assembly law ranges over: whole pages,
/// all of them inside the 16-bit address space, holding at least the
/// length header and the declared number of document bytes.
pub open spec fn whole_image(mem: Seq<u8>, declared: int) -> bool {
    &&& mem.len() % 64 == 0
    &&& 64 <= mem.len() <= 64 * 0x10000
    &&& 0 <= declared
    &&& declared + 4 <= mem.len()
}

/// The assembly loop at the specification level: feed the page that
/// `next_page_addr` selects until the declared length is reached, then
/// truncate to it.
pub open spec fn run_assembly(mem: Seq<u8>, declared: int, data: Seq<u8>) -> Seq<u8>
    decreases declared + 64 - data.len(),
    when whole_image(mem, declared) && data.len() % 64 == 60
    via run_assembly_decreases
{
    if data.len() >= declared {
        data.take(declared)
    } else {
        run_assembly(mem, declared, data + page_of(mem, next_page_addr(data.len() as int)))
    }
}

#[via_fn]
proof fn run_assembly_decreases(mem: Seq<u8>, declared: int, data: Seq<u8>) {
    if data.len() < declared {
        lemma_page_in_bounds(mem, declared, data.len() as int);
    }
}

/// While the accumulated length is aligned behind the header and short
/// of the declared length, the page the next address selects lies fully
/// inside a whole image, right where the accumulated data ends.
proof fn lemma_page_in_bounds(mem: Seq<u8>, declared: int, l: int)
    requires
        whole_image(mem, declared),
        0 <= l,
        l % 64 == 60,
        l < declared,
    ensures
        64 * next_page_addr(l) == l + 4,
        l + 68 <= mem.len(),
        (l + 64) % 64 == 60,
{
    assert(64 * (l / 64) == l - 60) by {
        lemma_fundamental_div_mod(l, 64);
    }
    assert(l / 64 + 1 < 0x10000 && l + 68 <= mem.len()) by {
        // l + 4 and mem.len() are both multiples of 64, and l + 4 < mem.len() + 64
        lemma_fundamental_div_mod(mem.len() as int, 64);
        assert(l + 4 == 64 * (l / 64 + 1));
        assert(l + 4 < declared + 4 + 64);
        lemma_multiples_ordered(l / 64 + 1, mem.len() as int / 64);
    }
    assert(next_page_addr(l) == l / 64 + 1) by {
        lemma_small_mod((l / 64 + 1) as nat, 0x10000);
    }
    assert((l + 64) % 64 == 60) by {
        lemma_mod_add_multiples_vanish(l, 64);
    }
}

/// Two multiples of 64 in order: if the first is below the second plus
/// one page, it is at most the second.
proof fn lemma_multiples_ordered(a: int, b: int)
    requires
        64 * a < 64 * b + 64,
    ensures
        64 * a <= 64 * b,
{
}

/// Assembling against a correct image always ends with exactly the
/// image's bytes behind the header, up to the declared length: from any
/// aligned on-track state, the loop reaches the declared length and the
/// final truncation recovers the document, by induction over the pages
/// still to fetch.
pub proof fn lemma_run_assembly_yields(mem: Seq<u8>, declared: int, data: Seq<u8>)
    requires
        whole_image(mem, declared),
        data.len() % 64 == 60,
        4 + data.len() <= mem.len(),
        data == mem.subrange(4, 4 + data.len() as int),
    ensures
        run_assembly(mem, declared, data) == mem.subrange(4, 4 + declared),
    decreases declared + 64 - data.len(),
{
    if data.len() >= declared {
        assert(data.take(declared) =~= mem.subrange(4, 4 + declared)) by {
            assert(forall|i: int|
                0 <= i < data.len() ==> data[i] == #[trigger] mem.subrange(
                    4,
                    4 + data.len() as int,
                )[i]);
        }
    } else {
        let l = data.len() as int;
        lemma_page_in_bounds(mem, declared, l);
        let next = data + page_of(mem, next_page_addr(l));
        assert(next =~= mem.subrange(4, 4 + (l + 64)));
        lemma_run_assembly_yields(mem, declared, next);
    }
}

/// The round trip the transfer exists for: for every document and every
/// whole image that declares its length and carries its bytes behind the
/// header, assembling from page 0 reconstructs the document exactly,
/// whatever the padding holds.
pub proof fn lemma_assembly_round_trip(mem: Seq<u8>, doc: Seq<u8>)
    requires
        whole_image(mem, doc.len() as int),
        be32(mem.subrange(0, 4)) == doc.len(),
        doc == mem.subrange(4, 4 + doc.len() as int),
    ensures
        run_assembly(mem, doc.len() as int, page_of(mem, 0).skip(4)) == doc,
{
    let data = page_of(mem, 0).skip(4);
    assert(data =~= mem.subrange(4, 64));
    assert(data.len() == 60);
    lemma_run_assembly_yields(mem, doc.len() as int, data);
}

/// Once enough bytes have accumulated, truncating to the declared length
/// recovers exactly the document the image carries: the bytes after the
/// header, up to the declared length, byte for byte.
pub proof fn lemma_finish_yields_document(a: StreamAssembler, mem: Seq<u8>, doc: Seq<u8>)
    requires
        tracks(a, mem),
        a.declared == doc.len(),
        doc == mem.subrange(4, 4 + doc.len() as int),
        a.data@.len() >= a.declared,
    ensures
        a.data@.subrange(0, a.declared as int) == doc,
{
    assert(a.data@.subrange(0, a.declared as int) =~= doc);
}

} // verus!
