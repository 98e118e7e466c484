//! What the private key generator decides when it handles a request.

pub mod start;
