//! Service configuration: the replay server's settings, the recording
//! service's settings, and the watched subscription list.
pub mod application;
pub mod dynamic;
pub mod service;
