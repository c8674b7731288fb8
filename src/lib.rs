//! The content-delivery core of a web server: `Range` headers parsed and
//! resolved against a resource's size, `Accept`-style preferences weighed,
//! and response bodies produced chunk by chunk, multipart ones included.
use vstd::prelude::*;

pub mod body;
pub mod error;
pub mod multipart;
pub mod qvalues;
pub mod ranges;
pub mod response_ranges;
pub mod text;

verus! {

} // verus!
