//! Serving the files of a ZIP archive over HTTP.
pub mod answer_laws;
pub mod archive;
pub mod archive_laws;
pub mod bytes;
pub mod bytes_laws;
pub mod client;
pub mod client_laws;
pub mod connection;
pub mod connection_laws;
pub mod encoding;
pub mod encoding_laws;
pub mod entry;
pub mod entry_laws;
pub mod fstree;
pub mod guard_laws;
pub mod http;
pub mod insert_laws;
pub mod listing;
pub mod listing_laws;
pub mod literals;
pub mod order;
pub mod order_laws;
pub mod origin_laws;
pub mod outside;
pub mod page_laws;
pub mod path;
pub mod reading;
pub mod reading_laws;
pub mod request;
pub mod request_laws;
pub mod response;
pub mod response_laws;
pub mod settings;
pub mod settings_laws;
pub mod status;
pub mod stream;
pub mod transfer;
pub mod transfer_laws;
pub mod tree;
pub mod tree_laws;
pub mod zip;
