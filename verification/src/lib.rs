pub mod adapter;
pub mod arith;
pub mod boundary;
pub mod composite;
pub mod decode;
pub mod interop;
pub mod media;
pub mod order;
pub mod text;
pub mod time;
pub mod timeline;
