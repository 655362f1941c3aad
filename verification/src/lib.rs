//! The linking stage of a bytecode toolchain: concatenating independently
//! compiled bytecode images into one, and self-linking the combined image
//! by rewriting symbolic (name-based) references into direct positional
//! references, in place and at fixed width.

pub mod codec;
pub mod concat;
pub mod linker;
mod pending;
mod visited;

pub use codec::parse_header;
pub use codec::ByteCodeError;
pub use codec::Header;
pub use codec::Op;
pub use concat::concat_images;
pub use linker::build_symtab;
pub use linker::AllowNames;
pub use linker::DenyUndeclared;
pub use linker::self_link;
pub use linker::LinkError;
pub use linker::Target;
