//! Plain value types: the domain codes as the pipeline reads them, the
//! configuration contents, and the progress notice for a user interface.

use vstd::prelude::*;

verus! {

/// An item code that the external domain parser accepted; holds its
/// canonical rendering.
#[derive(Debug, PartialEq, Eq)]
pub struct ItemCode {
    pub text: String,
}

/// A size code that the external domain parser accepted; holds its canonical
/// rendering and its ordinal (roman-numeral) label.
#[derive(Debug, PartialEq, Eq)]
pub struct SizeCode {
    pub text: String,
    pub ordinal: String,
}

/// The contents of the configuration file.
#[derive(Debug, PartialEq, Eq)]
pub struct Config {
    pub deepl_api_key: String,
}

/// A progress notice handed to a user interface.
#[derive(Debug, PartialEq, Eq)]
pub struct ProcessingStatePayload {
    pub state: String,
}

impl Clone for ItemCode {
    /// The clone equals the original.
    fn clone(&self) -> (r: ItemCode)
        ensures
            r == self,
    {
        ItemCode { text: self.text.clone() }
    }
}

impl Clone for SizeCode {
    /// The clone equals the original.
    fn clone(&self) -> (r: SizeCode)
        ensures
            r == self,
    {
        SizeCode { text: self.text.clone(), ordinal: self.ordinal.clone() }
    }
}

} // verus!
