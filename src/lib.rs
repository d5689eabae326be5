//! Counting histograms of keys, and of n-grams of several lengths over one stream of words.
pub mod histogram;
pub mod ngrams;
pub mod tokens;
pub mod window_buffer;

pub use histogram::{DefaultHashBuilder, FxBuildHasher, Histogram};
pub use ngrams::Ngrams;
pub use window_buffer::{WindowBuffer, WindowCollector, WindowSink};
