use vstd::prelude::*;

pub mod header;
pub mod header_laws;

use crate::container::header::Header;

verus! {

/// A container read from `data`, with its header once it is known.
#[allow(dead_code)]
pub struct Container<R> {
    header: Option<Header>,
    data: R,
}

} // verus!
