//! A music notation model: note values, heads, notes and voices, the
//! quick-code text format that describes them, beam grouping, head
//! placement, complexes and the columns of a bar, runs of sounding notes
//! with their ties and lines, and playback data.

pub mod arrange;
pub mod bar;
pub mod barcode;
pub mod beamgroup;
pub mod beams;
pub mod calc;
pub mod chunks;
pub mod columns;
pub mod complex;
pub mod core_defs;
pub mod decimal;
pub mod dynamic;
pub mod error;
pub mod experiment;
pub mod head;
pub mod heads;
pub mod marks;
pub mod matrix;
pub mod note;
pub mod numbering;
pub mod notes_walk;
pub mod pair_iterator;
pub mod part;
pub mod playback;
pub mod qcode;
pub mod resolve;
pub mod runs;
pub mod score;
pub mod setup;
pub mod some_cloneables;
pub mod text;
pub mod utils;
pub mod voice;
pub mod voices;
