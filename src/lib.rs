//! A typed HTTP dispatch core: per-method route tables over path templates,
//! parameter extraction, body handling and response encoding.

pub mod template;
pub mod router;
pub mod extract;
pub mod dispatch;
