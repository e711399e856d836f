//! The logic of an office-file toolkit: spreadsheets, word-processor documents,
//! presentations, metadata, raster images, charts and barcodes, as verified functions
//! on plain values.

pub mod barcode;
pub mod base64;
pub mod blocks;
pub mod chart;
pub mod color;
pub mod columns;
pub mod compose;
pub mod container;
pub mod deck;
pub mod deep;
pub mod docfmt;
pub mod documents;
pub mod docx;
pub mod drawing;
pub mod edits;
pub mod figures;
pub mod flows;
pub mod formats;
pub mod frames;
pub mod grid;
pub mod groups;
pub mod imaging;
pub mod links;
pub mod markdown;
pub mod measure;
pub mod media;
pub mod meta;
pub mod morph;
pub mod mutex;
pub mod notes;
pub mod ods;
pub mod ordering;
pub mod paths;
pub mod placing;
pub mod pptx;
pub mod raster;
pub mod reals;
pub mod records;
pub mod registry;
pub mod render;
pub mod reshape;
pub mod sampling;
pub mod shapes;
pub mod sheets;
pub mod slides;
pub mod sorting;
pub mod stats;
pub mod tables;
pub mod text;
pub mod tidy;
pub mod transform;
pub mod value;
pub mod vector;
pub mod workbook;
pub mod xlsx;
pub mod xml;
