//! A path-indexed hierarchical index for hardware bus topologies.
//!
//! A [`DevicePath`] addresses a location in a bus topology by a bus number
//! and a chain of port numbers, with a canonical `bus:port.port` string
//! form.  A [`PortTree`] stores payloads at port chains; a [`UsbTree`]
//! composes one `PortTree` per bus with a flat map from canonical path
//! string to payload.  A [`TreeFormatter`] renders the index as an
//! indented tree with configurable connector glyphs and depth-cycled
//! coloring.

pub mod device;
pub mod digits;
pub mod error;
pub mod formatter;
pub mod index;
pub mod path;
pub mod tree;

pub use device::matches_vid_pid;
pub use device::DeviceSpeed;
pub use device::UsbDevice;
pub use error::DevicePathError;
pub use error::UsbTreeError;
pub use formatter::TreeFormatter;
pub use formatter::TreeStyle;
pub use index::UsbTree;
pub use path::DevicePath;
pub use tree::PortTree;
