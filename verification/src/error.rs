//! Error types for path parsing and index lookups.

use vstd::prelude::*;
use vstd::string::StringExecFns;

verus! {

/// Mathematical form of a path-parsing error, with text payloads as
/// character sequences.
pub enum PathErrView {
    MissingBus,
    InvalidBus(Seq<char>),
    InvalidPort(Seq<char>),
    InvalidFormat,
}

/// Error raised while parsing a `bus:port.port` path string.
#[derive(Debug, Clone, PartialEq, Eq)]
pub enum DevicePathError {
    /// The substring before the colon is empty.
    MissingBus,
    /// The substring before the colon is not an unsigned 8-bit decimal.
    InvalidBus(String),
    /// A dot-separated port token is not an unsigned 8-bit decimal.
    InvalidPort(String),
    /// No colon separator is present.
    InvalidFormat,
}

impl View for DevicePathError {
    type V = PathErrView;

    open spec fn view(&self) -> PathErrView {
        match self {
            DevicePathError::MissingBus => PathErrView::MissingBus,
            DevicePathError::InvalidBus(s) => PathErrView::InvalidBus(s@),
            DevicePathError::InvalidPort(s) => PathErrView::InvalidPort(s@),
            DevicePathError::InvalidFormat => PathErrView::InvalidFormat,
        }
    }
}

/// The human-readable text of a path-parsing error.
pub open spec fn spec_path_err_message(e: PathErrView) -> Seq<char> {
    match e {
        PathErrView::MissingBus => "missing bus number"@,
        PathErrView::InvalidBus(s) => "invalid bus number: '"@ + s + "'"@,
        PathErrView::InvalidPort(s) => "invalid port number: '"@ + s + "'"@,
        PathErrView::InvalidFormat => "invalid format, expected 'bus:port.path'"@,
    }
}

impl DevicePathError {
    /// Render this error as its human-readable message.
    pub fn message(&self) -> (r: String)
        ensures
            r@ == spec_path_err_message(self@),
    {
        match self {
            DevicePathError::MissingBus => String::from_str("missing bus number"),
            DevicePathError::InvalidBus(s) => {
                let r = String::from_str("invalid bus number: '").concat(s.as_str()).concat("'");
                proof {
                    assert(r@ =~= spec_path_err_message(self@));
                }
                r
            },
            DevicePathError::InvalidPort(s) => {
                let r = String::from_str("invalid port number: '").concat(s.as_str()).concat("'");
                proof {
                    assert(r@ =~= spec_path_err_message(self@));
                }
                r
            },
            DevicePathError::InvalidFormat => String::from_str(
                "invalid format, expected 'bus:port.path'",
            ),
        }
    }
}

/// Mathematical form of an index error.
pub enum TreeErrView {
    ListDevices(Seq<char>),
    DeviceNotFound(Seq<char>),
    InvalidPath(PathErrView),
}

/// Error raised by index construction and must-succeed lookups.
#[derive(Debug, Clone, PartialEq, Eq)]
pub enum UsbTreeError {
    /// The upstream device-enumeration collaborator failed.
    ListDevices(String),
    /// A lookup by a caller-supplied path found nothing; carries the
    /// original lookup string.
    DeviceNotFound(String),
    /// A path string failed to parse while resolving a lookup key.
    InvalidPath(DevicePathError),
}

impl View for UsbTreeError {
    type V = TreeErrView;

    open spec fn view(&self) -> TreeErrView {
        match self {
            UsbTreeError::ListDevices(s) => TreeErrView::ListDevices(s@),
            UsbTreeError::DeviceNotFound(s) => TreeErrView::DeviceNotFound(s@),
            UsbTreeError::InvalidPath(e) => TreeErrView::InvalidPath(e@),
        }
    }
}

/// The human-readable text of an index error.
pub open spec fn spec_tree_err_message(e: TreeErrView) -> Seq<char> {
    match e {
        TreeErrView::ListDevices(s) => "failed to list USB devices: "@ + s,
        TreeErrView::DeviceNotFound(s) => "device not found at path: '"@ + s + "'"@,
        TreeErrView::InvalidPath(p) => "invalid device path: "@ + spec_path_err_message(p),
    }
}

impl UsbTreeError {
    /// Render this error as its human-readable message.
    pub fn message(&self) -> (r: String)
        ensures
            r@ == spec_tree_err_message(self@),
    {
        match self {
            UsbTreeError::ListDevices(s) => {
                String::from_str("failed to list USB devices: ").concat(s.as_str())
            },
            UsbTreeError::DeviceNotFound(s) => {
                let r = String::from_str("device not found at path: '").concat(s.as_str()).concat(
                    "'",
                );
                proof {
                    assert(r@ =~= spec_tree_err_message(self@));
                }
                r
            },
            UsbTreeError::InvalidPath(e) => {
                let inner = e.message();
                String::from_str("invalid device path: ").concat(inner.as_str())
            },
        }
    }
}

} // verus!
