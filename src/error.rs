use vstd::prelude::*;

verus! {

/// Error returned when parsing a MAC address from text.
#[derive(Copy, Clone, Debug, PartialEq, Eq, Structural)]
pub enum ParseMacAddrError {
    /// Input contained more components than the address has octets.
    TooManyComponents,
    /// Input contained fewer components than the address has octets.
    TooFewComponents,
    /// A component was empty or not a hexadecimal byte.
    InvalidComponent,
}

impl ParseMacAddrError {
    /// The human-readable description of the error.
    pub fn message(&self) -> (r: &'static str)
        ensures
            *self == ParseMacAddrError::TooManyComponents ==> r@
                == "Too many components in a MAC address string"@,
            *self == ParseMacAddrError::TooFewComponents ==> r@
                == "Too few components in a MAC address string"@,
            *self == ParseMacAddrError::InvalidComponent ==> r@
                == "Invalid component in a MAC address string"@,
    {
        match self {
            ParseMacAddrError::TooManyComponents => "Too many components in a MAC address string",
            ParseMacAddrError::TooFewComponents => "Too few components in a MAC address string",
            ParseMacAddrError::InvalidComponent => "Invalid component in a MAC address string",
        }
    }
}

} // verus!
