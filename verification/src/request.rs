use vstd::prelude::*;

verus! {

/// Size of the buffer into which a settings request is read.
pub const MAX_LEN: u8 = 200;

/// The length of a request body read into a zeroed buffer: the buffer
/// without the NUL bytes that pad its end.
pub fn payload_len(buf: &Vec<u8>) -> (len: usize)
    ensures
        len <= buf@.len(),
        forall|i: int| len <= i < buf@.len() ==> #[trigger] buf@[i] == 0,
        len == 0 || buf@[len - 1] != 0,
{
    let mut len = buf.len();
    while len > 0 && buf[len - 1] == 0
        invariant
            len <= buf@.len(),
            forall|i: int| len <= i < buf@.len() ==> #[trigger] buf@[i] == 0,
        decreases len,
    {
        len = len - 1;
    }
    len
}

} // verus!
