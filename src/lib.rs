//! Manifest ingestion for Kubernetes configuration packages: the vocabulary of
//! template properties, and the engine that turns a rendered JSON document into
//! a filtered, install-ordered list of manifests.
pub mod ingestor;
pub mod json;
pub mod order;
pub mod path;
pub mod property;
pub mod theorems;
