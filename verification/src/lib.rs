pub mod codec;
pub mod dispatch;
pub mod store;
pub mod text;
