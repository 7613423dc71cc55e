pub mod server;
pub mod errors;
pub mod codec;
pub mod crypto;
pub mod intercore;
pub mod kv;
pub mod task;
pub mod operator;
pub mod subscribe;
pub mod token;
