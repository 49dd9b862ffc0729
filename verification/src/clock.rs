//! The one clock read the library needs.  A clock reading depends on the
//! machine, so nothing relates two readings; callers take the timestamp as
//! an argument and are verified for every value of it.

use vstd::prelude::*;

verus! {

/// Relies on `std::time::SystemTime::now` and
/// `SystemTime::duration_since(UNIX_EPOCH)`: whole seconds since the Unix
/// epoch, `None` if the system clock reads before the epoch or past the
/// range of the timestamp type.
#[verifier::external_body]
pub fn current_unix_timestamp() -> (r: Option<i64>)
    ensures
        r is Some ==> r->0 >= 0,
{
    let d = std::time::SystemTime::now().duration_since(std::time::UNIX_EPOCH).ok()?;
    i64::try_from(d.as_secs()).ok()
}

} // verus!
