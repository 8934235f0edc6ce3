//! Decision logic of a small display-brightness utility: finding the
//! connected outputs in the display tool's listing, validating the device
//! index and the brightness multiplier that the user supplies, and framing
//! the call that applies them. All input and output stays with the caller.

pub mod arguments;
pub mod brightness;
pub mod command;
pub mod decimal;
pub mod decode;
pub mod devices;
pub mod digits;
pub mod literal;
pub mod reader;
pub mod resolve;
pub mod selection;
pub mod text;

