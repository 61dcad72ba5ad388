use vstd::prelude::*;
use vstd::string::*;

verus! {

/// Indicates the status of a port. Can be either open or closed.
#[derive(Clone, Copy, Debug, PartialEq, Eq, Structural)]
pub enum PortStatus {
    Open,
    Closed,
}

/// The mathematical value of a [`ScanResult`]: the host as a sequence of
/// characters, the port and its status.
pub struct ResultView {
    pub host: Seq<char>,
    pub port: u16,
    pub status: PortStatus,
}

/// Represents the result of a port scan.
#[derive(Debug)]
pub struct ScanResult {
    pub host: String,
    pub port: u16,
    pub port_status: PortStatus,
}

impl View for ScanResult {
    type V = ResultView;

    open spec fn view(&self) -> ResultView {
        ResultView { host: self.host@, port: self.port, status: self.port_status }
    }
}

/// The values of a sequence of results, one for one.
pub open spec fn views(results: Seq<ScanResult>) -> Seq<ResultView> {
    results.map_values(|r: ScanResult| r@)
}

impl PortStatus {
    /// Classifies one connection attempt: only a connection that was
    /// established makes a port open; a refusal, a timeout, an unreachable
    /// host or a name that does not resolve all make it closed.
    pub fn classify(established: bool) -> (status: PortStatus)
        ensures
            status == if established {
                PortStatus::Open
            } else {
                PortStatus::Closed
            },
    {
        if established {
            PortStatus::Open
        } else {
            PortStatus::Closed
        }
    }

    /// Whether the port accepted a connection.
    pub fn is_open(&self) -> (open: bool)
        ensures
            open == (*self == PortStatus::Open),
    {
        match self {
            PortStatus::Open => true,
            PortStatus::Closed => false,
        }
    }

    /// The text that stands for the status in a report: `OPEN` or `CLOSED`.
    pub fn as_str(&self) -> (text: &'static str)
        ensures
            text@ == if *self == PortStatus::Open {
                "OPEN"@
            } else {
                "CLOSED"@
            },
    {
        match self {
            PortStatus::Open => "OPEN",
            PortStatus::Closed => "CLOSED",
        }
    }
}

impl ScanResult {
    /// Initialize a new `ScanResult` for `host`, `port` and `port_status`.
    pub fn new(host: &str, port: u16, port_status: PortStatus) -> (result: ScanResult)
        ensures
            result@ == (ResultView { host: host@, port: port, status: port_status }),
    {
        ScanResult { host: String::from_str(host), port, port_status }
    }
}

} // verus!
