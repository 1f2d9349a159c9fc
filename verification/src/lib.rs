//! Derives a reverse-proxy routing document from a nested configuration of
//! backend servers and the services they expose, and checks that no two
//! services of one server listen on the same port.

pub mod config;
pub mod named;
pub mod ports;
pub mod routing;
pub mod text;
pub mod value;
