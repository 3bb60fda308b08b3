pub mod codec;
pub mod tree;

pub use tree::Node;
pub use tree::NodeInfo;
pub use tree::Position;
pub use tree::Tree;
pub use tree::TreeErr;

pub use codec::ByteCodec;
pub use codec::DecodeErr;
pub use codec::IoDecodeErr;
pub use codec::TreeIter;
