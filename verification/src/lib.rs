//! The text, alignment, playback and session logic of an offline read-aloud
//! application, with every function proved against its contract.

pub mod align;
pub mod archive;
pub mod audio;
pub mod bytes;
pub mod cache;
pub mod calendar;
pub mod cli;
pub mod conduct;
pub mod distance;
pub mod document;
pub mod editor;
pub mod export;
pub mod font;
pub mod g2p;
pub mod layout;
pub mod lexicon;
pub mod npy;
pub mod numbers;
pub mod paths;
pub mod phonemes;
pub mod player;
pub mod progress;
pub mod punctuation;
pub mod runs;
pub mod scene;
pub mod search;
pub mod segment;
pub mod seqs;
pub mod speech;
pub mod state;
pub mod text;
pub mod tidy;
pub mod timers;
pub mod voices;
pub mod wav;
pub mod words;

