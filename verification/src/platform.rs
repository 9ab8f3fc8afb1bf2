//! What the platform lacks and the network stack asks for.

use vstd::prelude::*;

verus! {

/// The name of the host, which is empty: a terminator in the first place, where
/// there is one. The rest of the buffer stays as it is.
pub fn gethostname(name: &mut [u8]) -> (status: i32)
    ensures
        status == 0,
        final(name)@ == if old(name)@.len() > 0 {
            old(name)@.update(0, 0u8)
        } else {
            old(name)@
        },
{
    if name.len() > 0 {
        name[0] = 0;
    }
    0
}

} // verus!
