//! A broadcast relay: every payload a client sends is written to every
//! other registered client. The registry of connected clients, the id
//! allocation, the per-connection read decisions and the fan-out are
//! verified here; sockets and threads live with the caller.
pub mod acceptor;
pub mod ingress;
pub mod registry;
pub mod relay;
