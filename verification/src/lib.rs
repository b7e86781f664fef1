//! A bidirectional Morse codec.
//!
//! Text is translated grapheme by grapheme into space-separated Morse
//! tokens, and Morse token streams are translated back into text.  A
//! character outside the symbol table is carried through an escape block:
//! a BEGIN prosign, one eight-symbol token per byte of the character's
//! UTF-8 encoding, and an END prosign.

pub mod code;
pub mod codec;
pub mod segment;
pub mod table;
pub mod text;

pub use codec::MorseError;
pub use codec::decode_phrase;
pub use codec::decode_tokens_x;
pub use codec::encode_graphemes;
pub use codec::encode_phrase;
pub use codec::grapheme_to_morse;
pub use codec::morse_to_grapheme;
pub use codec::morse_to_word;
pub use codec::token_lookup;
pub use codec::word_to_morse;
