//! Quasi-alignment of a query sequence against an indexed reference: k-mer
//! hits are chained into collinear segments, and nearby segments of one
//! strand are bridged into contigs.

pub mod alignment;
pub mod chain;
pub mod chain_laws;
pub mod contig;
pub mod contig_laws;
pub mod dna;
pub mod kmer_map;
pub mod kmer_set;

pub use alignment::{Alignment, QuasiAlign, QuasiAlignment, Span};
pub use chain::{fits, merge, merge_segments, mergable};
pub use contig::merge_contigs;
pub use dna::{Base, DnaSeq};
pub use kmer_map::{IndexError, KmerMap};
pub use kmer_set::KmerSet;
