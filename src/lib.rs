//! A frame-delta movie codec.
//!
//! The encoder side: the integer code (`intcode`) and the bit writer
//! (`bitvec`), Huffman codes with a pointer-free tree form (`huffman`),
//! frames and scan orders (`frame`), the run encoder and the competition
//! between scan orders (`runs`), frame differencing with greedy rectangle
//! splitting (`differ`) and the two-pass movie encoder (`movie`).
//!
//! The decoder side: the bit reader (`bitstream`), the packed framebuffer
//! (`screen`) and the tick-driven player (`player`); `replay` states what
//! replaying runs does to a picture and proves that a frame's encoding
//! replayed onto the frame before gives it back. `palette` matches colours
//! to the palette and `audio` is the music sequencer that plays along.
pub mod intcode;
pub mod bitstream;
pub mod bitvec;
pub mod huffman;
pub mod frame;
pub mod runs;
pub mod differ;
pub mod movie;
pub mod screen;
pub mod player;
pub mod replay;
pub mod palette;
pub mod audio;
