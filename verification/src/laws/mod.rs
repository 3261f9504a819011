//! What the library as a whole promises, stated on what goes in and what comes out.
pub mod audio;
pub mod bytes;
pub mod clip;
pub mod device;
pub mod lane;
pub mod samples;
pub mod selection;
pub mod sweep;
pub mod tempo;
pub mod transport;
pub mod wav;
