//! Allocation over orders: the policies of `allocation`, handed a level as the
//! orders that it holds.

pub use crate::allocation::Fill;
pub use crate::allocation::FifoMatcher;
use crate::allocation;
use crate::allocation::Maker;
pub use crate::allocation::ProRataMatcher;
use crate::instrument::Qty;
use crate::types;
use crate::types::Order;
use vstd::prelude::*;

verus! {

/// How an incoming quantity is shared out over the orders of one level.
pub trait MatchingAlgorithm {
    /// Whether the policy may be asked.
    spec fn answers(&self, available: Qty, orders: Seq<Order>) -> bool;

    /// The fills that the policy hands out.
    spec fn fills(&self, available: Qty, orders: Seq<Order>) -> Seq<Fill>;

    /// The lot that the policy keeps to, where it has one.
    spec fn lot(&self) -> Option<u64>;

    /// Shares `available` out over the orders, oldest first.
    fn allocate(&self, available: Qty, orders: &[Order]) -> (r: Vec<Fill>)
        requires
            self.answers(available, orders@),
        ensures
            r@ == self.fills(available, orders@),
            allocation::conforms(self.lot(), available, types::as_makers(orders@), r@),
    ;
}

/// What a policy sees of the orders of a level.
fn makers_of(orders: &[Order]) -> (r: Vec<Maker>)
    ensures
        r@ == types::as_makers(orders@),
{
    let mut makers: Vec<Maker> = Vec::new();
    let mut i: usize = 0;
    while i < orders.len()
        invariant
            i <= orders@.len(),
            makers@ == types::as_makers(orders@).take(i as int),
        decreases orders@.len() - i,
    {
        makers.push(
            Maker {
                remaining_quantity: orders[i].remaining_quantity,
                arrival: orders[i].arrival as u128,
            },
        );
        proof {
            assert(makers@ =~= types::as_makers(orders@).take(i + 1));
        }
        i = i + 1;
    }
    proof {
        assert(types::as_makers(orders@).take(i as int) =~= types::as_makers(orders@));
    }
    makers
}

impl MatchingAlgorithm for FifoMatcher {
    open spec fn answers(&self, available: Qty, orders: Seq<Order>) -> bool {
        true
    }

    open spec fn fills(&self, available: Qty, orders: Seq<Order>) -> Seq<Fill> {
        allocation::MatchingAlgorithm::allocation(self, available, types::as_makers(orders), 0)
    }

    open spec fn lot(&self) -> Option<u64> {
        None
    }

    fn allocate(&self, available: Qty, orders: &[Order]) -> (r: Vec<Fill>) {
        let makers: Vec<Maker> = makers_of(orders);
        allocation::MatchingAlgorithm::allocate(self, available, makers.as_slice(), 0)
    }
}

impl MatchingAlgorithm for ProRataMatcher {
    open spec fn answers(&self, available: Qty, orders: Seq<Order>) -> bool {
        &&& allocation::MatchingAlgorithm::wf(self)
        &&& allocation::on_grid(
            allocation::MatchingAlgorithm::spec_lot_size(self),
            available,
            types::as_makers(orders),
        )
    }

    open spec fn fills(&self, available: Qty, orders: Seq<Order>) -> Seq<Fill> {
        allocation::MatchingAlgorithm::allocation(self, available, types::as_makers(orders), 0)
    }

    open spec fn lot(&self) -> Option<u64> {
        allocation::MatchingAlgorithm::spec_lot_size(self)
    }

    fn allocate(&self, available: Qty, orders: &[Order]) -> (r: Vec<Fill>) {
        let makers: Vec<Maker> = makers_of(orders);
        allocation::MatchingAlgorithm::allocate(self, available, makers.as_slice(), 0)
    }
}

} // verus!
