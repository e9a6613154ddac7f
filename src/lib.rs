pub mod encoding_utils;
pub mod hex;
pub mod base32;
pub mod string_pool;
pub mod clock_timer;
pub mod debounce;
pub mod lazy_wrap;
