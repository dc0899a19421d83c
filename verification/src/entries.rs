//! Sources of entries.

use crate::types::{RdbEntry, RdbEntryV, RdbError, RdbErrorV};
use std::collections::VecDeque;
use vstd::prelude::*;

verus! {

/// What a source yields: an entry or an error.
pub type EntryItem = Result<RdbEntryV, RdbErrorV>;

/// An item, by what it holds.
pub open spec fn item_of(r: Result<RdbEntry, RdbError>) -> EntryItem {
    match r {
        Ok(e) => Ok(e@),
        Err(e) => Err(e@),
    }
}

/// Something that yields entries one by one.
pub trait EntrySource: Sized {
    /// Whether the source is in a state from which it can go on.
    spec fn valid(&self) -> bool;

    /// All that the source is going to yield, in order.
    spec fn upcoming(&self) -> Seq<EntryItem>;

    /// The next item, or `None` if there is none.
    fn next_entry(&mut self) -> (r: Option<Result<RdbEntry, RdbError>>)
        requires
            old(self).valid(),
        ensures
            final(self).valid(),
            match r {
                None => old(self).upcoming().len() == 0 && final(self).upcoming().len() == 0,
                Some(x) => old(self).upcoming().len() > 0 && item_of(x) == old(self).upcoming()[0]
                    && final(self).upcoming() == old(self).upcoming().drop_first(),
            },
    ;
}

/// The items of a vector as a queue, in their order.
pub(crate) fn into_queue<T>(items: Vec<T>) -> (r: VecDeque<T>)
    ensures
        r@ == items@,
{
    let mut queue: VecDeque<T> = VecDeque::new();
    let ghost all = items@;
    let mut rest = items;
    // The items come off the end, so each goes to the front.
    while rest.len() > 0
        invariant
            rest@ + queue@ == all,
        decreases rest@.len(),
    {
        let ghost before = rest@;
        let ghost q = queue@;
        match rest.pop() {
            Some(x) => {
                queue.push_front(x);
                assert(queue@ == seq![x] + q);
                assert(rest@ + queue@ == before + q);
            },
            None => {},
        }
    }
    assert(rest@ + queue@ == queue@);
    queue
}

/// Entries that are at hand.
#[derive(Debug)]
pub struct EntryQueue {
    items: VecDeque<Result<RdbEntry, RdbError>>,
}

impl EntryQueue {
    /// A source of the given items.
    pub fn new(items: Vec<Result<RdbEntry, RdbError>>) -> (r: Self)
        ensures
            r.valid(),
            r.upcoming() == items@.map_values(|x: Result<RdbEntry, RdbError>| item_of(x)),
    {
        EntryQueue { items: into_queue(items) }
    }
}

impl EntrySource for EntryQueue {
    open spec fn valid(&self) -> bool {
        true
    }

    closed spec fn upcoming(&self) -> Seq<EntryItem> {
        self.items@.map_values(|x: Result<RdbEntry, RdbError>| item_of(x))
    }

    fn next_entry(&mut self) -> (r: Option<Result<RdbEntry, RdbError>>) {
        let ghost before = self.items@;
        let r = self.items.pop_front();
        assert(before.len() > 0 ==> self.items@ == before.drop_first());
        assert(before.len() > 0 ==> self.upcoming() == old(self).upcoming().drop_first());
        r
    }
}

} // verus!
