//! Retargeting of RNA-seq alignments from genome coordinates to
//! transcriptome coordinates: an exon interval index keyed by chromosome,
//! a splice-aware coordinate projector, persistence of the index as four
//! text artifacts, and the binary event-log output format.

pub mod annotation;
pub mod bytes;
pub mod catalog;
pub mod exon;
pub mod index;
pub mod persist;
pub mod pipeline;
pub mod project;
pub mod rad;

