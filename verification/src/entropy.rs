//! A stand-in entropy source.

use vstd::prelude::*;

verus! {

/// An entropy source for targets that have none: fills the buffer with
/// zeros and reports success. What it yields is fixed, so nothing drawn from
/// it hides anything; it stands in where a real source is wired up later.
pub fn getrandom(buf: &mut [u8]) -> (res: Result<(), ()>)
    ensures
        res is Ok,
        final(buf)@.len() == old(buf)@.len(),
        forall|i: int| 0 <= i < final(buf)@.len() ==> final(buf)@[i] == 0u8,
{
    let n: usize = buf.len();
    let mut i: usize = 0;
    while i < n
        invariant
            buf@.len() == n,
            i <= n,
            forall|j: int| 0 <= j < i ==> buf@[j] == 0u8,
        decreases n - i,
    {
        buf[i] = 0u8;
        i += 1;
    }
    Ok(())
}

} // verus!
