pub mod error;
pub mod wire;
pub mod index;
pub mod codec;
pub mod header;
pub mod filelist;
pub mod naming;
pub mod inflate;
pub mod lines;
