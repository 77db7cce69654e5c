//! A self-contained LZMA-family compression engine: a dictionary-based
//! LZ77 tokenizer combined with an adaptive binary range coder, the 5-byte
//! property serialization that parameterizes both sides, and the session
//! state machines that drive encoding and decoding.

pub mod allocator;
pub mod context;
pub mod decoder;
pub mod encoder;
pub mod matchfind;
pub mod props;
pub mod rangecoder;
pub mod status;
pub mod tokens;

pub use allocator::Allocator;
pub use props::{pack_props, unpack_props, Props, MIN_DICT_SIZE, PROPS_SIZE};
pub use decoder::{lzma_decode, DecState, Decoder};
pub use encoder::{lzma_encode, EncState, Encoder, MAX_SESSION_INPUT};
pub use matchfind::MatchFinder;
pub use rangecoder::{RangeDecoder, RangeEncoder, PROB_INIT, PROB_TOTAL};
pub use status::{FinishMode, Status};
pub use tokens::{Token, MAX_MATCH_LEN, MIN_MATCH_LEN};
