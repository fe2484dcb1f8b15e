//! Exact k = 5 nearest-neighbour fraud scoring over an IVF index of
//! quantized transaction vectors, with the byte-level request handling
//! around it.
pub mod top5;
pub mod scan;
pub mod index;
pub mod text;
pub mod json;
pub mod date;
pub mod vectorize;
pub mod num;
pub mod http;
pub mod responses;
pub mod mcc;
pub mod config;
pub mod conn;
pub mod ivf_file;
