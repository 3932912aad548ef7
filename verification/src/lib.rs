//! Verified core of a small LAN voice-chat widget: the discovery protocol,
//! the table of known peers, and the audio packet and mixing rules.

pub mod audio;
pub mod clock;
pub mod discovery;
pub mod inbox;
pub mod net;
pub mod peers;
pub mod text;
