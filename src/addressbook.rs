use std::collections::HashMap;
use vstd::prelude::*;

verus! {

/// One selectable destination of the menu.
#[derive(Debug, PartialEq)]
pub struct AddressBookEntry {
    pub label: String,
    /// Destination endpoint, written `host:port`.
    pub address: String,
    pub meta: Option<HashMap<String, String>>,
}

/// The ordered list of destinations; the order is the menu order.
#[derive(Debug)]
pub struct AddressBook {
    pub addresses: Vec<AddressBookEntry>,
}

} // verus!
