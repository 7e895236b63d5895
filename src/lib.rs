//! A fixed-size worker pool's job-queue discipline, and the request routing
//! and response framing of the small web server that runs on it.
//!
//! Threads, sockets and files live with the caller: the library decides what
//! a worker receives, when it stops, which page answers a request and how
//! the answer is framed.
pub mod pool;
pub mod http;
