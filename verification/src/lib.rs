//! Fifteen-bit CAN bus checksum: the bit-serial definition, a table-driven
//! equivalent proved equal to it, the text decoders that produce its
//! input, and a batch driver that repeats the computation.

pub mod batch;
pub mod codec;
pub mod crc;
pub mod render;
pub mod table;
pub mod text;

pub use crate::batch::{compute_batch_crcs_optimized, validate_iterations};
pub use crate::codec::{bytes_to_bits, parse_binary_input, parse_hex_input, DecodeError};
pub use crate::crc::calculate_can_crc;
pub use crate::render::{format_number, CrcResult};
pub use crate::table::{calculate_can_crc_optimized, generate_crc_table, CrcTable};
