//! basinski rescues media files from their own disintegration.
//!
//! Named for William Basinski's *Disintegration Loops*: music made from tape
//! loops that crumbled as they played. This library is for when your files do
//! the same thing, except you'd rather have them back.
pub mod aac;
pub mod accounts;
pub mod bits;
pub mod bytes;
pub mod census;
pub mod choices;
pub mod clusters;
pub mod cuts;
pub mod divine;
pub mod donors;
pub mod ebml;
pub mod ffx;
pub mod forensics;
pub mod fourcc;
pub mod gestalt;
pub mod grids;
pub mod h264;
pub mod heads;
pub mod marks;
pub mod matroska;
pub mod mkv_codecs;
pub mod mp4;
pub mod params;
pub mod pictures;
pub mod rebuilt;
pub mod refusals;
pub mod regrown;
pub mod rescue;
pub mod streams;
pub mod tapes;
pub mod text;
pub mod timing;
pub mod transplant;
pub mod walks;
pub mod wording;
