pub mod compression_metric;
pub mod dto;
pub mod part;
pub mod response;
pub mod threader;
