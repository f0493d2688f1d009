//! A codec for the tag-length-value encodings of ASN.1 (BER and DER).
//!
//! `tlv_parser` holds the data model, the forest builder and the streaming
//! decoder; `der` holds the canonical encoder; `round_trip` states what the
//! decoder makes of what the encoder wrote. `octets` reads octet strings as
//! numbers, and `hex` reads octets written as text.

pub mod der;
pub mod hex;
pub mod octets;
pub mod round_trip;
pub mod tlv_parser;
