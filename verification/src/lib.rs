//! Retrospective capture: what was played is already in the ring when somebody decides to keep it.
pub mod ask;
pub mod bytes;
pub mod clock;
pub mod envelope;
pub mod fft;
pub mod grid;
pub mod laws;
pub mod midi;
pub mod modular;
pub mod quantise;
pub mod reading;
pub mod render;
pub mod ring;
pub mod session;
pub mod smf;
pub mod take;
pub mod tempo;
pub mod view;
pub mod wav;
