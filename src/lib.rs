//! Compression of n-gram frequency series: the decisions that are proved.
//!
//! Child enumeration, the shape of the per-n-gram linear program, the paging
//! of a pass, the accept/reject bookkeeping, the decoding of raw input and
//! the lookup of the table file that may hold an n-gram all live here;
//! floating-point work, storage and the solver live in the program around
//! the library.
pub mod accept;
pub mod children;
pub mod files;
pub mod input;
pub mod program;
pub mod schedule;
pub mod table;
