//! The state that one decode threads through every directory it descends
//! into: the index of the next entry, and the decoded string pool.

use vstd::prelude::*;
use vstd::utf8::encode_utf8;

verus! {

pub struct ReadInfo {
    current_node: u32,
    string_table: Option<String>,
}

/// The mathematical counterpart of [`ReadInfo`].
pub struct ReadState {
    pub current_node: u32,
    pub string_table: Option<Seq<char>>,
}

impl ReadState {
    /// The bytes of the decoded pool, none where no pool was set.
    pub open spec fn pool_bytes(self) -> Seq<u8> {
        match self.string_table {
            Some(pool) => encode_utf8(pool),
            None => Seq::empty(),
        }
    }
}

impl View for ReadInfo {
    type V = ReadState;

    closed spec fn view(&self) -> ReadState {
        ReadState {
            current_node: self.current_node,
            string_table: match self.string_table {
                Some(s) => Some(s@),
                None => None,
            },
        }
    }
}

impl ReadInfo {
    /// The state before anything is read: entry 0 is the root's own record,
    /// so the next entry is 1; no pool yet.
    pub fn new() -> (r: ReadInfo)
        ensures
            r@ == (ReadState { current_node: 1, string_table: None }),
    {
        ReadInfo { current_node: 1, string_table: None }
    }

    pub fn current_node(&self) -> (r: u32)
        ensures
            r == self@.current_node,
    {
        self.current_node
    }

    pub fn increment_node(&mut self)
        requires
            old(self)@.current_node < u32::MAX,
        ensures
            final(self)@ == (ReadState {
                current_node: (old(self)@.current_node + 1) as u32,
                ..old(self)@
            }),
    {
        self.current_node += 1
    }

    pub fn string_table(&self) -> (r: &Option<String>)
        ensures
            r is Some <==> self@.string_table is Some,
            r matches Some(s) ==> self@.string_table == Some(s@),
    {
        &self.string_table
    }

    pub fn init_string_table(&mut self, string_table: String)
        ensures
            final(self)@ == (ReadState { string_table: Some(string_table@), ..old(self)@ }),
    {
        self.string_table = Some(string_table)
    }
}

} // verus!
