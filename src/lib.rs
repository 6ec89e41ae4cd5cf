pub mod bpe_stream;
pub mod codec;
pub mod format;
pub mod gfarch;
pub mod le;
pub mod laws;
