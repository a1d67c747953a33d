//! An in-memory work-queue engine that speaks the Beanstalk text protocol.
//!
//! Clients put jobs into named tubes; other clients reserve them, by priority and
//! within a priority in the order in which they became ready, and then delete, release
//! or bury them. The engine is the part of a server that decides: it reads no socket
//! and no clock. Bytes, the time and the events of the outside are handed to it, and
//! it hands back what is to be sent.
//!
//! - [`codec`] frames bytes into tokens and writes tokens as bytes; [`roundtrip`]
//!   shows that what is written for a request reads back.
//! - [`parser`] and [`cmd`] read a frame as a command.
//! - [`store`] is the job store as plain values, with what must hold of it; [`queue`]
//!   is the store itself, with the timers and the connections that wait for a job.
//! - [`connection`] is the state of one client; [`handlers`] say what each command
//!   does and answers; [`driver`] carries out frames and timer events.
//! - [`laws`] and [`order`] state what holds whatever the clients do.
//! - [`buffer`] and [`text`] hold what is taken from the crate `bytes` and from the
//!   standard library on trust, and the helpers on bytes and names.

pub mod buffer;
pub mod cmd;
pub mod codec;
pub mod connection;
pub mod driver;
pub mod error;
pub mod handlers;
pub mod laws;
pub mod order;
pub mod parser;
pub mod queue;
pub mod roundtrip;
pub mod store;
pub mod text;
