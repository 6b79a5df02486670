//! An authoritative resolver for a private service-discovery namespace.
//!
//! Names of the form `app.deployment.stack.<root domain>` resolve to the
//! addresses that were stored for them. The library holds the record store
//! ([`store`]), the administrative operations on it ([`admin_handlers`]) and
//! the resolver that turns a request into an answer or an error and then
//! into a response ([`dns_handler`]). Sockets, the wire form of messages and
//! the shared counter are left to the program around it.
//!
//! What holds of these parts together is proved in [`laws`].

pub mod address;
pub mod admin_handlers;
pub mod decimal;
pub mod dns_handler;
pub mod laws;
pub mod message;
pub mod models;
pub mod name;
pub mod options;
pub mod store;
