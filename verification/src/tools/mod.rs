//! Small tools the rest of the library is built on.

pub mod clock;
pub mod crypt_string;
pub mod dict_map;
pub mod postcard_calls;
pub mod text;
pub mod u8_buffer;
pub mod weighted_list;
pub mod wire;
