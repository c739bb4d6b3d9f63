pub mod clock;
pub mod codec;
pub mod command;
pub mod sync;
