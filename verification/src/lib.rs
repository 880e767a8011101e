//! Library for driving an interactive subprocess from short network control
//! messages: decoded packets are validated, rendered into text lines, and
//! coalesced per address before being handed to the subprocess input.

pub mod types;
pub mod render;
pub mod address;
pub mod translate;
pub mod debounce;
pub mod ingress;
pub mod supervisor;
pub mod sender;
