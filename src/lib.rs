//! Identifier codecs: a 128-bit catalog identifier with fixed-width hex,
//! base-62 and big-endian byte forms, and a 20-byte content hash with a hex
//! rendering and a lexicographic order.

mod file_id;
mod numeral;
mod spotify_id;

pub use numeral::{
    all_digits, ascii_bytes, is_digit_of, numeral_text, numeral_value, symbol, symbol_value,
    u128_limit,
};
pub use spotify_id::{
    be_value, decoded, lemma_base16_round_trip, lemma_base62_round_trip, lemma_raw_round_trip,
    raw_decoded, IdError, SpotifyId,
};
pub use file_id::{hex_pairs, lemma_first_difference_orders, lex_order, FileId};
