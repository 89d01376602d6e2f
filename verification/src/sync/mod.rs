pub mod protocol;
pub mod relay;
pub mod server;
pub mod state;
pub mod watch;
