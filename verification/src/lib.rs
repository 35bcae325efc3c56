//! A daemon that keeps one language server per project running and shares it between editors.
//!
//! The library holds everything the daemon decides: how a message is framed on the wire, which
//! server a connection belongs to, how request ids are renumbered on the way through, who answers
//! a server's requests, and what happens to the documents of a client that goes away. It performs
//! no I/O. Handlers take a plain event and append the actions that the event calls for to a list;
//! the program around the library carries them out.

pub mod documents;
pub mod error;
pub mod events;
pub mod frame;
pub mod ids;
pub mod intake;
pub mod ipc;
pub mod json;
pub mod launch;
pub mod laws;
pub mod message;
pub mod model;
pub mod params;
pub mod path;
pub mod peers;
pub mod root;
pub mod server;
pub mod session;
pub mod table;
pub mod text;
pub mod types;
pub mod wakatime;
