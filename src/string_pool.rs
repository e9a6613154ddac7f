pub mod chars;
pub mod pool;

pub use self::pool::{GlobalPool, OwnedPool, Pool};
pub mod string;

pub use self::string::String;
