//! A sample reducer: folds item events into the inventory they leave behind.
//!
//! The state is the serialized inventory: one byte per item held, in the
//! order the items were first added, never holding an item twice. Three
//! event kinds are understood: `create` resets the inventory, `add` puts
//! one item in (a no-op when it is already held), `remove` takes every copy
//! of one item out. `add` and `remove` carry the item as a one-byte payload;
//! any other payload, or any other event kind, is rejected, which surfaces
//! as a replay error.

use vstd::prelude::*;

use crate::event::{copy_bytes, Event, EventV};
use crate::replay::Reducer;

verus! {

/// The inventory-tracking reducer. Stateless: all state lives in the blob.
pub struct InventoryReducer {}

impl Reducer for InventoryReducer {
    open spec fn init_spec(&self) -> Seq<u8> {
        Seq::<u8>::empty()
    }

    open spec fn apply_spec(&self, state: Seq<u8>, event: EventV) -> Option<Seq<u8>> {
        if event.event_type == "create"@ {
            Some(Seq::<u8>::empty())
        } else if event.event_type == "add"@ {
            if event.payload.len() == 1 {
                if state.contains(event.payload[0]) {
                    Some(state)
                } else {
                    Some(state.push(event.payload[0]))
                }
            } else {
                None::<Seq<u8>>
            }
        } else if event.event_type == "remove"@ {
            if event.payload.len() == 1 {
                Some(state.filter(|x: u8| x != event.payload[0]))
            } else {
                None::<Seq<u8>>
            }
        } else {
            None::<Seq<u8>>
        }
    }

    fn init(&self) -> (r: Vec<u8>) {
        Vec::new()
    }

    fn apply(&self, state: &Vec<u8>, event: &Event) -> (r: Option<Vec<u8>>) {
        let create: String = "create".to_owned();
        if event.event_type == create {
            return Some(Vec::new());
        }
        let add: String = "add".to_owned();
        if event.event_type == add {
            if event.payload.len() != 1 {
                return None;
            }
            let b = event.payload[0];
            if contains_byte(state, b) {
                return Some(copy_bytes(state));
            }
            let mut out = copy_bytes(state);
            out.push(b);
            return Some(out);
        }
        let remove: String = "remove".to_owned();
        if event.event_type == remove {
            if event.payload.len() != 1 {
                return None;
            }
            let b = event.payload[0];
            let out = drop_byte(state, b);
            proof {
                assert(b == event@.payload[0]);
                assert((|x: u8| x != b) =~= (|x: u8| x != event@.payload[0]));
            }
            return Some(out);
        }
        None
    }
}

/// Whether the byte occurs in the vector.
fn contains_byte(v: &Vec<u8>, b: u8) -> (r: bool)
    ensures
        r == v@.contains(b),
{
    let mut i: usize = 0;
    while i < v.len()
        invariant
            i <= v@.len(),
            forall|j: int| 0 <= j < i ==> v@[j] != b,
        decreases v@.len() - i,
    {
        if v[i] == b {
            return true;
        }
        i = i + 1;
    }
    proof {
        if v@.contains(b) {
            let w = choose|w: int| 0 <= w < v@.len() && v@[w] == b;
            assert(v@[w] != b);
        }
    }
    false
}

/// The vector with every occurrence of the byte taken out.
fn drop_byte(v: &Vec<u8>, b: u8) -> (r: Vec<u8>)
    ensures
        r@ == v@.filter(|x: u8| x != b),
{
    let mut out: Vec<u8> = Vec::new();
    let mut i: usize = 0;
    proof {
        assert(v@.subrange(0, 0) =~= Seq::<u8>::empty());
        reveal(Seq::filter);
    }
    while i < v.len()
        invariant
            i <= v@.len(),
            out@ == v@.subrange(0, i as int).filter(|x: u8| x != b),
        decreases v@.len() - i,
    {
        proof {
            assert(v@.subrange(0, i as int + 1).drop_last() =~= v@.subrange(0, i as int));
            assert(v@.subrange(0, i as int + 1).last() == v@[i as int]);
            reveal(Seq::filter);
        }
        if v[i] != b {
            out.push(v[i]);
        }
        i = i + 1;
    }
    proof {
        assert(v@.subrange(0, i as int) =~= v@);
    }
    out
}

} // verus!
