//! Live display mirror for an embedded device under remote debug control.
//!
//! The library holds the verified core: the remote-debug packet codec
//! (framing, checksum), the memory-read request builder and response
//! parser, the framebuffer decoder that turns page-packed column-major
//! bytes into a row-major bitmap, the fixed-frequency scheduler's tick
//! logic, and the scan that reads a symbol's address out of a symbol
//! table listing. I/O (the TCP byte stream, the display window,
//! running the symbol lister) lives outside the library and hands it
//! plain values.

pub mod codec;
pub mod decoder;
pub mod hexdata;
pub mod reader;
pub mod scheduler;
pub mod symbols;
