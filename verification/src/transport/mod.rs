//! Control-plane transport: sealed mail between devices, node addresses,
//! the routes that a device publishes, and the signer session.

pub mod addr;
pub mod addr_laws;
pub mod mail_laws;
pub mod mailbox;
pub mod route_laws;
pub mod routes;
pub mod signer;
