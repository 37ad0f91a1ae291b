//! The two dialects of the protocol.

use vstd::prelude::*;
use vstd::std_specs::convert::FromSpecImpl;

verus! {

/// A version of the RESP protocol.
#[derive(Clone, Copy, Debug, Hash, PartialEq, Eq, Structural)]
pub enum RespVersion {
    /// The legacy dialect.
    V2,
    /// The current dialect, which adds several frame types.
    V3,
}

impl RespVersion {
    /// The version's number.
    pub open spec fn number(self) -> u8 {
        match self {
            RespVersion::V2 => 2,
            RespVersion::V3 => 3,
        }
    }

    /// The version's number as text: `"2"` or `"3"`.
    pub fn to_string(&self) -> (text: String)
        ensures
            text@ == seq![(('0' as u8) + self.number()) as char],
    {
        proof {
            reveal_strlit("2");
            reveal_strlit("3");
        }
        let text = match self {
            RespVersion::V2 => "2".to_owned(),
            RespVersion::V3 => "3".to_owned(),
        };
        assert(text@ =~= seq![(('0' as u8) + self.number()) as char]);
        text
    }
}

impl From<RespVersion> for u8 {
    fn from(version: RespVersion) -> (number: u8) {
        match version {
            RespVersion::V2 => 2,
            RespVersion::V3 => 3,
        }
    }
}

impl FromSpecImpl<RespVersion> for u8 {
    open spec fn obeys_from_spec() -> bool {
        true
    }

    open spec fn from_spec(version: RespVersion) -> u8 {
        version.number()
    }
}

} // verus!
