//! The request and response logic of a minimal static-file HTTP/1.1 server:
//! from the first line of a request to the path it asks for, from there to
//! the file that answers it, and from the answer to the bytes on the wire.
//! Reading and writing the connection and the file system is left to the
//! caller.

use vstd::prelude::*;
use vstd::std_specs::convert::FromSpecImpl;

pub mod cfg;
pub mod percent;
pub mod request;
pub mod resolve;
pub mod response;
pub mod text;

pub use cfg::{get_cfg, ArgFail, Config, Mappings};
pub use percent::{percent_decode, DecodeFail};
pub use request::{skip_header, Headers, ReqFail, Request};
pub use response::{Opened, Response, Step};

verus! {

/// Why a connection got no response.
#[derive(Debug)]
pub enum HttpservFail {
    Io(std::io::Error),
    Request(ReqFail),
}

impl From<std::io::Error> for HttpservFail {
    fn from(ioe: std::io::Error) -> (r: Self) {
        HttpservFail::Io(ioe)
    }
}

impl FromSpecImpl<std::io::Error> for HttpservFail {
    open spec fn obeys_from_spec() -> bool {
        true
    }

    open spec fn from_spec(ioe: std::io::Error) -> Self {
        HttpservFail::Io(ioe)
    }
}

impl From<ReqFail> for HttpservFail {
    fn from(rf: ReqFail) -> (r: Self) {
        HttpservFail::Request(rf)
    }
}

impl FromSpecImpl<ReqFail> for HttpservFail {
    open spec fn obeys_from_spec() -> bool {
        true
    }

    open spec fn from_spec(rf: ReqFail) -> Self {
        HttpservFail::Request(rf)
    }
}

} // verus!
