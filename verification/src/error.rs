//! Error kinds produced by the association-table core. Filesystem and
//! subprocess failures are reported by the surrounding application, not here.
use vstd::prelude::*;

verus! {

#[derive(Debug)]
pub enum Error {
    /// A MIME identifier string is not in `type/subtype` form.
    InvalidMime(Vec<u8>),
    /// No handler is associated with the requested MIME type.
    NotFound(Vec<u8>),
    /// The interactive selector returned an empty choice.
    Cancelled,
}

} // verus!
