pub mod demo;
pub mod descriptors;
pub mod encode;
pub mod ids;
pub mod metrics;
pub mod namemap;
pub mod rows;
pub mod text;
pub mod tree;
pub mod usb;
pub mod ui;
pub mod session;
