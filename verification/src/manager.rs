//! Name -> declaration lookup tables for inbounds and outbounds.  The
//! tables keep the declarations in insertion order; a name declared twice
//! resolves to the later declaration, and lookup is by exact name.

use vstd::prelude::*;
use crate::config::{has_outbound, Inbound, Outbound};
use crate::text::str_eq;

verus! {

/// The declaration a lookup for `name` resolves to: the last entry that
/// bears the name.
pub open spec fn spec_get_inbound(s: Seq<Inbound>, name: Seq<char>) -> Option<Inbound>
    decreases s.len(),
{
    if s.len() == 0 {
        None
    } else if s.last().spec_name() == name {
        Some(s.last())
    } else {
        spec_get_inbound(s.drop_last(), name)
    }
}

/// The declaration a lookup for `name` resolves to: the last entry that
/// bears the name.
pub open spec fn spec_get_outbound(s: Seq<Outbound>, name: Seq<char>) -> Option<Outbound>
    decreases s.len(),
{
    if s.len() == 0 {
        None
    } else if s.last().spec_name() == name {
        Some(s.last())
    } else {
        spec_get_outbound(s.drop_last(), name)
    }
}

/// A lookup succeeds exactly when some outbound bears the name.
pub proof fn lemma_get_outbound_some(s: Seq<Outbound>, name: Seq<char>)
    ensures
        spec_get_outbound(s, name) is Some <==> has_outbound(s, name),
    decreases s.len(),
{
    if s.len() > 0 {
        let rest = s.drop_last();
        lemma_get_outbound_some(rest, name);
        if s.last().spec_name() == name {
            assert(s[s.len() - 1].spec_name() == name);
        } else {
            assert(forall|i: int| 0 <= i < rest.len() ==> rest[i] == s[i]);
            if has_outbound(s, name) {
                let i = choose|i: int|
                    0 <= i < s.len() && (#[trigger] s[i]).spec_name() == name;
                assert(rest[i].spec_name() == name);
            }
        }
    }
}

/// The table of inbound listener declarations.
pub struct InboundManager {
    pub entries: Vec<Inbound>,
}

impl InboundManager {
    /// An empty table.
    pub fn new() -> (r: Self)
        ensures
            r.entries@.len() == 0,
    {
        Self { entries: Vec::new() }
    }

    /// Builds the table from the declared inbounds, keeping their order.
    pub fn init(inbound_vec: Vec<Inbound>) -> (r: Self)
        ensures
            r.entries@ == inbound_vec@,
    {
        Self { entries: inbound_vec }
    }

    /// Looks a declaration up by name.
    pub fn get(&self, name: &str) -> (r: Option<Inbound>)
        ensures
            r == spec_get_inbound(self.entries@, name@),
    {
        let mut i = self.entries.len();
        assert(self.entries@.take(i as int) =~= self.entries@);
        while i > 0
            invariant
                i <= self.entries@.len(),
                spec_get_inbound(self.entries@.take(i as int), name@) == spec_get_inbound(
                    self.entries@,
                    name@,
                ),
            decreases i,
        {
            i = i - 1;
            let ghost pre = self.entries@.take(i + 1);
            assert(pre.last() == self.entries@[i as int]);
            assert(pre.drop_last() =~= self.entries@.take(i as int));
            if str_eq(self.entries[i].name(), name) {
                return Some(self.entries[i].clone());
            }
        }
        assert(self.entries@.take(0) =~= Seq::<Inbound>::empty());
        None
    }
}

/// The table of outbound dial-target declarations.
pub struct OutboundManager {
    pub entries: Vec<Outbound>,
}

impl OutboundManager {
    /// An empty table.
    pub fn new() -> (r: Self)
        ensures
            r.entries@.len() == 0,
    {
        Self { entries: Vec::new() }
    }

    /// Builds the table from the declared outbounds, keeping their order.
    pub fn init(outbound_vec: Vec<Outbound>) -> (r: Self)
        ensures
            r.entries@ == outbound_vec@,
    {
        Self { entries: outbound_vec }
    }

    /// Looks a declaration up by name.
    pub fn get(&self, name: &str) -> (r: Option<Outbound>)
        ensures
            r == spec_get_outbound(self.entries@, name@),
    {
        let mut i = self.entries.len();
        assert(self.entries@.take(i as int) =~= self.entries@);
        while i > 0
            invariant
                i <= self.entries@.len(),
                spec_get_outbound(self.entries@.take(i as int), name@) == spec_get_outbound(
                    self.entries@,
                    name@,
                ),
            decreases i,
        {
            i = i - 1;
            let ghost pre = self.entries@.take(i + 1);
            assert(pre.last() == self.entries@[i as int]);
            assert(pre.drop_last() =~= self.entries@.take(i as int));
            if str_eq(self.entries[i].name(), name) {
                return Some(self.entries[i].clone());
            }
        }
        assert(self.entries@.take(0) =~= Seq::<Outbound>::empty());
        None
    }
}

} // verus!
