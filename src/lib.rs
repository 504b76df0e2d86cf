//! Handwritten-digit style image corpus reader, resampler and K-nearest-neighbour
//! classifier with integer distance metrics and a confusion table.

pub mod counting;
pub mod error;
pub mod picture;
pub mod resample;
pub mod dataset_parser;
pub mod knn_classifier_metrics;
pub mod knn_classifier;
pub mod dataset_transformer_fn;
pub mod dataset_transformers;
