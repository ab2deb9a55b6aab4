//! Verified core of the speak-back decoder and of the multi-scale conv net's
//! host-side bookkeeping: deterministic hashing, word-to-channel mapping, the
//! cell-grid geometry, top-k ranking, the net's shape arithmetic and its
//! weight-checkpoint byte format.

pub mod determinism;
pub mod cell_decode;
pub mod rank;
pub mod unet_config;
pub mod weights;
pub mod codec;
pub mod gpu_layout;
pub mod lexicon;
