//! Conversion of ZX Spectrum TAP tape images into TZX tape images.
//!
//! A TAP image is a bare sequence of length-prefixed raw data blocks; a TZX
//! image is a versioned container of typed, tagged blocks with timing
//! metadata. The transcoder in [`transcode`] writes the fixed TZX header and
//! re-encodes every source block as a standard-speed data block, returning
//! the number of source blocks scanned or a typed error for a malformed
//! input. [`paths`] derives the default output path from the input path.

pub mod paths;
pub mod transcode;

pub use paths::target;
pub use transcode::read_le_u16;
pub use transcode::tap2tzx;
pub use transcode::write_tzx_block;
pub use transcode::write_tzx_header;
pub use transcode::ConversionError;
