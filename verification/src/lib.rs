//! Verified core of a mail-address search tool.
//!
//! The library scans mail files for `From:` / `To:` / `CC:` / `BCC:` header
//! fields and collects the addresses whose address or display name a matcher
//! accepts.  The hard parts are verified here: a fixed-capacity task slab, a
//! cooperative executor driven by I/O completion events, and a streaming,
//! chunk-boundary-agnostic header parser.  The kernel I/O itself (opening,
//! reading and closing files) is performed by the surrounding application,
//! which exchanges plain submission and completion values with the executor.

pub mod collect;
pub mod executor;
pub mod io_op;
pub mod mails;
pub mod matcher;
pub mod parser;
pub mod slab;
pub mod task;
