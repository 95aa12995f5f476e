pub mod price;
pub mod range_common;
pub mod range_encoder;
pub mod range_decoder;
pub mod drain_laws;
pub mod round_trip;
