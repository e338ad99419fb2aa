//! Incremental frame codec for a Telnet-class wire protocol: typed frames,
//! an escaping rule for the reserved sentinel byte, and variable-length
//! subnegotiation blocks, with verified decode and encode.

pub mod codec;
pub mod frame;
pub mod props;
