//! A vector search engine: collections of points, searched by vector, by text and by filter.

pub mod ieee;
pub mod visited;
pub mod order;
pub mod text;
pub mod entries;
pub mod json;
pub mod point;
pub mod config;
pub mod kernels;
pub mod similarity;
pub mod walk;
pub mod hnsw;
pub mod graph;
pub mod filter;
pub mod matching;
pub mod store;
pub mod scoring;
pub mod collection;
pub mod lists;
pub mod api;
pub mod input;
pub mod rest_write;
pub mod rest_read;
pub mod rest_search;
pub mod fusion;
pub mod rest_explore;
pub mod recommend;
pub mod grpc_values;
pub mod grpc;
pub mod admin;
pub mod collection_laws;
pub mod search_laws;
pub mod kernel_laws;
pub mod filter_laws;
pub mod request_laws;
pub mod explore_laws;
pub mod read_laws;
pub mod write_laws;
pub mod value_laws;
pub mod input_laws;
pub mod grpc_laws;
pub mod admin_laws;
pub mod index_laws;
pub mod operation_laws;
pub mod endpoint_laws;
pub mod part_laws;
