//! The decisions behind the Freally MIDI Master plugin's editor, library and
//! stores, stated as contracts and proved.

pub mod beats;
pub mod eula;
pub mod explorer;
pub mod export;
pub mod favourites;
pub mod gate;
pub mod jobs;
pub mod kits;
pub mod models;
pub mod names;
pub mod order;
pub mod paths;
pub mod text;
pub mod transport;
pub mod window;
