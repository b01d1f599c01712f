//! Per-user reproducible sampling of a line-oriented text corpus.
//!
//! Every result is a function of a secret, a user name and the corpus: the
//! secret and the user name are hashed into a seed, and that seed drives a
//! pseudo-random generator that picks either a subset of the corpus lines or
//! one word of its vocabulary.

mod cors;
mod digest;
mod error;
mod generator;
mod laws;
mod named_binary;
mod paths;
mod sampler;
mod words;

pub use digest::{seed, seed_bytes, sha256_of};
pub use generator::{index_sample_of, range_draw_of};
pub use sampler::{ascending, corpus_sample, drawn_indices, emitted, gen_corpus_data, index_set, sample, sample_amount, text_lines};
pub use error::Error;
pub use words::{
    alpha_runs, alphabetic, alphabetic_runs, candidates, distinct_words, draw_target, frequent_in,
    frequent_words, line_candidates, long_lowered, lower_of, nth_draw, occurrences, pick_random_word, picked_word,
    scan_runs, vocabulary,
};
pub use laws::{
    emitted_follows_file_order, joined, pick_is_reproducible, sample_is_reproducible, vocabulary_empty_iff_nothing_frequent,
};
pub use cors::Cors;
pub use named_binary::NamedBinary;
pub use paths::fname_from_id;
