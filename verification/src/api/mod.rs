//! What stands between a front-end and the registry.

pub mod ingress;
