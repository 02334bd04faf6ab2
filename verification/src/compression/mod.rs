pub mod round_trip;
pub mod timestamp_compression;
pub mod value_compression;

use vstd::prelude::*;

verus! {

/// A streaming encoder: it takes one datum at a time and is finished once.
pub trait Compressor {
    type Output;

    type Error;

    fn compress(&mut self, data: Self::Output) -> Result<(), Self::Error>;

    fn finalize(&mut self) -> Result<(), Self::Error>;
}

} // verus!
