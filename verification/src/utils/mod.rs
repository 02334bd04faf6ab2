pub mod bit_writer;
pub mod bits;

pub use bit_writer::BitWriter;
