//! Monitoring core of a device watcher: a client of the bridge server's
//! line-oriented host protocol that keeps a snapshot of the attached devices
//! and reports each attach and detach exactly once.
//!
//! The library decides and computes; it reads no socket and starts no
//! process. [`monitor::DeviceMonitor`] is the state machine of the client:
//! it takes in what happened on the connection and says what to do next and
//! which devices to announce. It reads the received bytes through a
//! [`byte_buffer::ByteBuffer`], frames them as [`wire`] describes, reads each
//! payload into a [`device::DeviceTable`] as [`payload`] describes, and
//! compares the table with the previous one as [`diff`] describes.
//! [`command`] fills the identifier of a device into the command to run for
//! it.

pub mod byte_buffer;
pub mod command;
pub mod device;
pub mod diff;
pub mod lexical;
pub mod monitor;
pub mod payload;
mod text;
pub mod wire;
