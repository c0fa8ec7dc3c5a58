//! Building blocks of a peer-to-peer image sharing service: a FIFO queue,
//! the framing of files into numbered datagrams and their reassembly, the
//! nibble steganography that hides one image in another, and the messages
//! of the directory of service that tracks which peers are online.
pub mod queue;
pub mod transfer;
pub mod stego;
pub mod text;
pub mod directory;
