//! The two things the queue takes from its surroundings: the present instant
//! and a fresh identifier.

use vstd::prelude::*;

verus! {

/// The bits that mark a random (version 4) UUID in the layout of RFC 9562:
/// the version digit is 4 and the variant bits are `10`.
pub open spec fn is_random_uuid(id: u128) -> bool {
    id & 0xf000_c000_0000_0000_0000u128 == 0x4000_8000_0000_0000_0000u128
}

/// Reads the system clock (`std::time::SystemTime::now`), turns the reading
/// into a `chrono::DateTime<Utc>` with chrono's `From<SystemTime>` and gives
/// it as microseconds since the Unix epoch (`DateTime::timestamp_micros`).
/// Nothing is claimed of the value: it is whatever the machine's clock says,
/// a clock set before the epoch gives a negative number, and two readings
/// need not grow.
#[verifier::external_body]
pub(crate) fn now_micros() -> (t: i64) {
    chrono::DateTime::<chrono::Utc>::from(std::time::SystemTime::now()).timestamp_micros()
}

/// Draws an identifier with `uuid::Uuid::new_v4` and gives its 128 bits
/// (`Uuid::as_u128`). The bits come from the operating system's random
/// source, so all that is claimed is what `new_v4` fixes in every identifier
/// it makes: the version and variant marks. `new_v4` gives up when the
/// operating system hands out no random bytes; no argument of this function
/// could keep that case out.
#[verifier::external_body]
pub(crate) fn random_job_id() -> (id: u128)
    ensures
        is_random_uuid(id),
{
    uuid::Uuid::new_v4().as_u128()
}

} // verus!
