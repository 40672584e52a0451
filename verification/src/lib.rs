//! Black-box block-cipher cryptanalysis: block-size and mode detection,
//! prefix location, byte-at-a-time ECB suffix recovery, and a CBC
//! padding-oracle attack, together with the byte and cipher utilities
//! they are built on.

pub mod aes;
pub mod bitflip;
pub mod bytes;
pub mod cookie;
pub mod detect;
pub mod ecb_attack;
pub mod freq;
pub mod hexstring;
pub mod mt19937;
pub mod oracle;
pub mod padding_attack;
pub mod prefix;
