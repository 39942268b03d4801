//! The two counters of the server: requests seen, and requests routed to a
//! resource. They are shared by all connections and only ever go up.

use crossbeam::atomic::AtomicCell;
use vstd::prelude::*;

verus! {

/// `crossbeam::atomic::AtomicCell`, a cell that many threads may read and
/// write. Nothing is known of what a cell holds.
#[verifier::external_type_specification]
#[verifier::external_body]
#[verifier::reject_recursive_types(T)]
pub struct ExAtomicCell<T>(AtomicCell<T>);

/// The requests seen and the requests served.
pub struct Counters {
    total: AtomicCell<i32>,
    valid: AtomicCell<i32>,
}

/// The count after `count`; there is none after the largest.
pub open spec fn successor(count: i32) -> Option<i32> {
    if count < i32::MAX {
        Some((count + 1) as i32)
    } else {
        None
    }
}

/// What a step of a counter tells: the number it gave to this request, or
/// nothing where the counter was full and stayed as it was.
pub open spec fn number_of(step: Result<i32, i32>) -> Option<i32> {
    match step {
        Ok(before) => successor(before),
        Err(_) => None,
    }
}

/// The count after `count`, where there is one.
pub fn next_count(count: i32) -> (r: Option<i32>)
    ensures
        r == successor(count),
{
    if count < i32::MAX {
        Some(count + 1)
    } else {
        None
    }
}

/// The number that a step of a counter gave out.
pub fn numbered(step: Result<i32, i32>) -> (r: Option<i32>)
    ensures
        r == number_of(step),
{
    match step {
        Ok(before) => next_count(before),
        Err(_) => None,
    }
}

/// `AtomicCell::new`: a cell that holds `start`. The contract says nothing of
/// the cell.
#[verifier::external_body]
fn new_cell(start: i32) -> (r: AtomicCell<i32>) {
    AtomicCell::new(start)
}

/// `AtomicCell::load`: what the cell holds at some moment of the call. Other
/// threads may write at any time, so the contract says nothing of the value.
#[verifier::external_body]
fn load_cell(cell: &AtomicCell<i32>) -> (r: i32) {
    cell.load()
}

/// `AtomicCell::fetch_update` with `next_count`: replaces the stored count by
/// its successor. It returns `Ok` with the count it replaced, which therefore
/// had a successor, or `Err` with the stored count where that had none and
/// stays.
#[verifier::external_body]
fn step_cell(cell: &AtomicCell<i32>) -> (r: Result<i32, i32>)
    ensures
        match r {
            Ok(before) => successor(before) is Some,
            Err(before) => successor(before) is None,
        },
{
    cell.fetch_update(|count| next_count(count))
}

impl Counters {
    /// Two counters at zero.
    pub fn new() -> (r: Counters) {
        Counters { total: new_cell(0), valid: new_cell(0) }
    }

    /// Counts one accepted connection. The result is the number of this
    /// request, counted from one, or `None` where the counter is full.
    pub fn count_request(&self) -> (r: Option<i32>)
        ensures
            r matches Some(n) ==> n > i32::MIN && successor((n - 1) as i32) == Some(n),
    {
        numbered(step_cell(&self.total))
    }

    /// Counts one request that was routed to a resource. The result is its
    /// number among these, counted from one, or `None` where the counter is
    /// full.
    pub fn count_valid(&self) -> (r: Option<i32>)
        ensures
            r matches Some(n) ==> n > i32::MIN && successor((n - 1) as i32) == Some(n),
    {
        numbered(step_cell(&self.valid))
    }

    /// The requests seen so far.
    pub fn total_requests(&self) -> (r: i32) {
        load_cell(&self.total)
    }

    /// The requests routed to a resource so far.
    pub fn valid_requests(&self) -> (r: i32) {
        load_cell(&self.valid)
    }
}

} // verus!
