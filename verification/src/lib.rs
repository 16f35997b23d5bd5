//! Extraction of structured crash information from the textual output that a
//! memory-safety sanitizer prints when a monitored process faults.
//!
//! The input is the raw captured stdout/stderr of the crashed process, as
//! bytes. The extractor locates the sanitizer's crash headline inside the
//! surrounding noise, determines the exact span of the report's body, and
//! derives a stop reason, an optional memory-access operation, and the address
//! of the innermost stack frame.

pub mod chars;
pub mod scan;
pub mod headline;
pub mod report;
pub mod util;
pub mod meminfo;
