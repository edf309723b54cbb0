//! Request-boundary detection for the relay: an inbound request is complete
//! once the accumulated bytes contain the literal sequence `\r\n\r\n`, or
//! once the client closes its side (a zero-length read).

use vstd::prelude::*;

verus! {

/// The four-byte request-boundary marker `\r\n\r\n`.
pub open spec fn boundary_marker() -> Seq<u8> {
    seq![13u8, 10u8, 13u8, 10u8]
}

/// Whether the bytes contain the boundary marker anywhere.
pub open spec fn has_boundary(s: Seq<u8>) -> bool {
    exists|i: int| 0 <= i && i + 4 <= s.len() && #[trigger] s.subrange(i, i + 4) == boundary_marker()
}

/// Whether the accumulated bytes contain the request-boundary marker.
pub fn request_complete(data: &[u8]) -> (found: bool)
    ensures
        found == has_boundary(data@),
{
    if data.len() < 4 {
        return false;
    }
    let mut k: usize = 0;
    while k <= data.len() - 4
        invariant
            data@.len() >= 4,
            k <= data@.len() - 3,
            forall|i: int| 0 <= i < k ==> #[trigger] data@.subrange(i, i + 4) != boundary_marker(),
        decreases data@.len() - k,
    {
        if data[k] == 13u8 && data[k + 1] == 10u8 && data[k + 2] == 13u8 && data[k + 3] == 10u8 {
            proof {
                assert(data@.subrange(k as int, k + 4) =~= boundary_marker());
            }
            return true;
        }
        proof {
            let i = k as int;
            assert(data@.subrange(i, i + 4)[0] == data@[i]);
            assert(data@.subrange(i, i + 4)[1] == data@[i + 1]);
            assert(data@.subrange(i, i + 4)[2] == data@[i + 2]);
            assert(data@.subrange(i, i + 4)[3] == data@[i + 3]);
        }
        k = k + 1;
    }
    false
}

/// One step of the inbound read loop: append the chunk just read to the
/// accumulated buffer, and report whether reading is finished — either the
/// chunk was empty (the client closed the connection) or the buffer now
/// holds the boundary marker.
pub fn ingest_chunk(buf: &mut Vec<u8>, chunk: &[u8]) -> (done: bool)
    ensures
        final(buf)@ == old(buf)@ + chunk@,
        done == (chunk@.len() == 0 || has_boundary(final(buf)@)),
{
    let mut k: usize = 0;
    while k < chunk.len()
        invariant
            k <= chunk@.len(),
            buf@ == old(buf)@ + chunk@.subrange(0, k as int),
        decreases chunk@.len() - k,
    {
        buf.push(chunk[k]);
        proof {
            assert(old(buf)@ + chunk@.subrange(0, k as int) + seq![chunk@[k as int]]
                =~= old(buf)@ + chunk@.subrange(0, k + 1 as int));
        }
        k = k + 1;
    }
    proof {
        assert(old(buf)@ + chunk@.subrange(0, chunk@.len() as int) =~= old(buf)@ + chunk@);
    }
    if chunk.len() == 0 {
        true
    } else {
        request_complete(buf.as_slice())
    }
}

} // verus!
