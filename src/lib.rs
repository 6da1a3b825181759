//! An OpenHPSDR Protocol 1 radio emulator: radio identity and state, the IQ
//! codecs, the echo recorder and the UDP packet engine, all verified.

pub mod assoc;
pub mod codec;
pub mod echo;
pub mod protocol1;
pub mod radio;
