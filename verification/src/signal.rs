//! The signal matcher: finds the subscriptions whose filter matches an
//! inbound signal frame.
//!
//! A filter names an interface and a member, and optionally a path and a
//! sender.  Each matching subscriber decodes the body on its own; one
//! subscriber's decode failure cannot reach another, since every decode
//! works on its own borrowed view of the frame.

use vstd::prelude::*;
use crate::message::{Message, MessageKind};

verus! {

/// A subscription filter.
pub struct SignalFilter {
    pub interface: String,
    pub member: String,
    pub path: Option<String>,
    pub sender: Option<String>,
}

impl SignalFilter {
    /// Whether this filter selects the frame: the frame is a signal, its
    /// interface and member agree, and the optional path and sender
    /// constraints hold.
    pub open spec fn spec_matches(&self, m: Message) -> bool {
        &&& m.kind == MessageKind::Signal
        &&& m.interface matches Some(i) && i@ == self.interface@
        &&& m.member matches Some(mm) && mm@ == self.member@
        &&& (self.path matches Some(p) ==> m.path matches Some(mp) && mp@ == p@)
        &&& (self.sender matches Some(s) ==> m.sender matches Some(ms) && ms@ == s@)
    }

    /// Exec mirror of [`SignalFilter::spec_matches`].
    pub fn matches(&self, m: &Message) -> (r: bool)
        ensures
            r == self.spec_matches(*m),
    {
        if !(matches!(m.kind, MessageKind::Signal)) {
            return false;
        }
        match &m.interface {
            Some(i) => if !(*i == self.interface) {
                return false;
            },
            None => {
                return false;
            },
        }
        match &m.member {
            Some(mm) => if !(*mm == self.member) {
                return false;
            },
            None => {
                return false;
            },
        }
        match &self.path {
            Some(p) => match &m.path {
                Some(mp) => if !(*mp == *p) {
                    return false;
                },
                None => {
                    return false;
                },
            },
            None => {},
        }
        match &self.sender {
            Some(s) => match &m.sender {
                Some(ms) => if !(*ms == *s) {
                    return false;
                },
                None => {
                    return false;
                },
            },
            None => {},
        }
        true
    }
}

/// The indices of the filters that select the frame, in order.
pub fn matching_indices(subs: &Vec<SignalFilter>, m: &Message) -> (r: Vec<usize>)
    ensures
        forall|j: int|
            0 <= j < r@.len() ==> (#[trigger] r@[j]) < subs@.len() && subs@[r@[j] as int].spec_matches(
                *m,
            ),
        forall|i: int|
            0 <= i < subs@.len() && #[trigger] subs@[i].spec_matches(*m) ==> r@.contains(i as usize),
{
    let mut r: Vec<usize> = Vec::new();
    let mut i: usize = 0;
    while i < subs.len()
        invariant
            i <= subs@.len(),
            forall|j: int|
                0 <= j < r@.len() ==> (#[trigger] r@[j]) < i && subs@[r@[j] as int].spec_matches(
                    *m,
                ),
            forall|k: int|
                0 <= k < i && #[trigger] subs@[k].spec_matches(*m) ==> r@.contains(k as usize),
        decreases subs@.len() - i,
    {
        if subs[i].matches(m) {
            let ghost rpre = r@;
            r.push(i);
            proof {
                assert(r@.last() == i);
                assert forall|k: int|
                    0 <= k < i + 1 && #[trigger] subs@[k].spec_matches(*m) implies r@.contains(
                    k as usize,
                ) by {
                    if k < i {
                        assert(rpre.contains(k as usize));
                        let w = choose|w: int| 0 <= w < rpre.len() && rpre[w] == k as usize;
                        assert(r@[w] == k as usize);
                    } else {
                        assert(r@[r@.len() - 1] == i as usize);
                    }
                }
            }
        }
        i = i + 1;
    }
    r
}

} // verus!
