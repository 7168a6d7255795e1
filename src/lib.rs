//! A telnet gateway ("door" server) library: a telnet stream decoder, a line
//! reader, the destination menu, the relay failure classification and the
//! per-connection session state machine. Sockets are driven by the caller.

pub mod addressbook;
pub mod byte_ops;
pub mod decoder;
pub mod line_reader;
pub mod menu;
pub mod relay;
pub mod session;
