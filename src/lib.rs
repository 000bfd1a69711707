//! A memory scanner for live processes: a candidate-address engine driven by
//! typed value predicates over another process's memory, the parsing of the
//! Linux process tables it reads, and a session controller that keeps the
//! scan state between requests.
pub mod value;
pub mod memory;
pub mod scanner;
pub mod laws;
pub mod maps;
pub mod text;
pub mod procfs;
pub mod context;
pub mod win32;
