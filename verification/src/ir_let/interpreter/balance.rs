//! Reference counts that are exact.
//!
//! A machine is balanced when the count of every live cell is the number of
//! references to it: those held by the locals of the stack, those held by
//! the values of the heap, and those that an operation in progress holds for
//! a moment; and when nothing refers to a cell that is not live. Giving up a
//! reference that is held keeps a balanced machine balanced, and is never a
//! fault.

use vstd::prelude::*;
use crate::heap::{Cells, lemma_release_shrinks, release, release_all};
use crate::heap_value::{CellView, HeapAddress};
use crate::ir_let::interpreter::machine::Machine;
use crate::stack::{BlockFrameView, Frames};

verus! {

/// How often `address` occurs in `addresses`.
pub open spec fn count_in(addresses: Seq<HeapAddress>, address: HeapAddress) -> nat
    decreases addresses.len(),
{
    if addresses.len() == 0 {
        0
    } else {
        count_in(addresses.drop_last(), address) + (if addresses.last() == address {
            1nat
        } else {
            0nat
        })
    }
}

/// One more at the end is one more occurrence of it.
pub proof fn lemma_count_push(addresses: Seq<HeapAddress>, added: HeapAddress, address: HeapAddress)
    ensures
        count_in(addresses.push(added), address) == count_in(addresses, address) + (if added == address {
            1nat
        } else {
            0nat
        }),
{
    assert(addresses.push(added).drop_last() =~= addresses);
}

/// The occurrences are that of the first and those among the rest.
pub proof fn lemma_count_drop_first(addresses: Seq<HeapAddress>, address: HeapAddress)
    requires
        addresses.len() > 0,
    ensures
        count_in(addresses, address) == count_in(addresses.drop_first(), address) + (if addresses[0]
            == address {
            1nat
        } else {
            0nat
        }),
    decreases addresses.len(),
{
    if addresses.len() == 1 {
        assert(addresses.drop_last() =~= Seq::<HeapAddress>::empty());
        assert(addresses.drop_first() =~= Seq::<HeapAddress>::empty());
    } else {
        lemma_count_drop_first(addresses.drop_last(), address);
        assert(addresses.drop_last().drop_first() =~= addresses.drop_first().drop_last());
        assert(addresses.drop_first().last() == addresses.last());
    }
}

/// Replacing an address takes one occurrence of the old and adds one of the
/// new.
pub proof fn lemma_count_update(addresses: Seq<HeapAddress>, at: int, new: HeapAddress, address: HeapAddress)
    requires
        0 <= at < addresses.len(),
    ensures
        count_in(addresses.update(at, new), address) + (if addresses[at] == address {
            1nat
        } else {
            0nat
        }) == count_in(addresses, address) + (if new == address {
            1nat
        } else {
            0nat
        }),
    decreases addresses.len(),
{
    let updated = addresses.update(at, new);
    if at == addresses.len() - 1 {
        assert(updated.drop_last() =~= addresses.drop_last());
    } else {
        lemma_count_update(addresses.drop_last(), at, new, address);
        assert(updated.drop_last() =~= addresses.drop_last().update(at, new));
    }
}

/// An address that is there occurs.
pub proof fn lemma_count_of_member(addresses: Seq<HeapAddress>, at: int)
    requires
        0 <= at < addresses.len(),
    ensures
        count_in(addresses, addresses[at]) >= 1,
    decreases addresses.len(),
{
    if at < addresses.len() - 1 {
        lemma_count_of_member(addresses.drop_last(), at);
    }
}

/// An address that occurs is there.
pub proof fn lemma_member_of_count(addresses: Seq<HeapAddress>, address: HeapAddress)
    requires
        count_in(addresses, address) >= 1,
    ensures
        addresses.contains(address),
    decreases addresses.len(),
{
    if addresses.last() == address {
        assert(addresses[addresses.len() - 1] == address);
    } else {
        lemma_member_of_count(addresses.drop_last(), address);
        let i = choose|i: int| 0 <= i < addresses.drop_last().len() && addresses.drop_last()[i] == address;
        assert(addresses[i] == address);
    }
}

/// How often the locals of the blocks of one call hold `address`.
pub open spec fn call_count(frames: Seq<BlockFrameView>, address: HeapAddress) -> nat
    decreases frames.len(),
{
    if frames.len() == 0 {
        0
    } else {
        call_count(frames.drop_last(), address) + count_in(frames.last().values, address)
    }
}

/// How often the locals of the stack hold `address`.
pub open spec fn stack_count(frames: Frames, address: HeapAddress) -> nat
    decreases frames.len(),
{
    if frames.len() == 0 {
        0
    } else {
        stack_count(frames.drop_last(), address) + call_count(frames.last(), address)
    }
}

/// The references that the cell at the address numbered `k` holds; none
/// where there is no such cell.
pub open spec fn references_at(cells: Cells, k: int) -> Seq<HeapAddress> {
    if 0 <= k <= u32::MAX && cells.contains_key(HeapAddress(k as u32)) {
        cells[HeapAddress(k as u32)].value.references()
    } else {
        Seq::empty()
    }
}

/// How often the values of the cells at the addresses below `limit` hold
/// `address`.
pub open spec fn incoming_below(cells: Cells, address: HeapAddress, limit: int) -> nat
    decreases limit,
{
    if limit <= 0 {
        0
    } else {
        incoming_below(cells, address, limit - 1) + count_in(references_at(cells, limit - 1), address)
    }
}

/// The references that operations in progress hold: how many to each
/// address.
pub type Credits = Map<HeapAddress, nat>;

/// No reference held by an operation in progress.
pub open spec fn no_credits() -> Credits {
    Map::total(|address: HeapAddress| 0nat)
}

impl Machine {
    /// The number of references to `address`: from the stack, from the
    /// heap, and from operations in progress.
    pub open spec fn references_to(self, credits: Credits, address: HeapAddress) -> nat {
        stack_count(self.frames, address) + incoming_below(
            self.cells,
            address,
            self.next_address.0 as int,
        ) + credits[address]
    }

    /// Whether the count of every live cell is the number of references to
    /// it, and every address that is referred to is live.
    pub open spec fn balanced(self, credits: Credits) -> bool {
        &&& self.cells.dom().finite()
        &&& forall|address: HeapAddress|
            self.cells.contains_key(address) ==> address.0 < self.next_address.0
        &&& forall|address: HeapAddress|
            #![trigger self.references_to(credits, address)]
            {
                &&& self.cells.contains_key(address) ==> self.cells[address].refcount
                    == self.references_to(credits, address)
                &&& self.references_to(credits, address) > 0 ==> self.cells.contains_key(address)
            }
    }
}

/// As much is held where the cells below the limit hold the same.
pub proof fn lemma_incoming_same(before: Cells, after: Cells, address: HeapAddress, limit: int)
    requires
        forall|k: int| 0 <= k < limit ==> #[trigger] references_at(after, k) == references_at(before, k),
    ensures
        incoming_below(after, address, limit) == incoming_below(before, address, limit),
    decreases limit,
{
    if limit > 0 {
        lemma_incoming_same(before, after, address, limit - 1);
    }
}

/// Where one cell below the limit holds something else, as much is held as
/// before, less what that cell held, and what it holds now.
pub proof fn lemma_incoming_changed(before: Cells, after: Cells, changed: int, address: HeapAddress, limit: int)
    requires
        0 <= changed < limit,
        forall|k: int|
            0 <= k < limit && k != changed ==> #[trigger] references_at(after, k) == references_at(before, k),
    ensures
        incoming_below(after, address, limit) + count_in(references_at(before, changed), address)
            == incoming_below(before, address, limit) + count_in(references_at(after, changed), address),
    decreases limit,
{
    if changed == limit - 1 {
        lemma_incoming_same(before, after, address, limit - 1);
    } else {
        lemma_incoming_changed(before, after, changed, address, limit - 1);
    }
}

/// What a live cell holds is held by the heap.
pub proof fn lemma_incoming_of_reference(cells: Cells, holder: int, address: HeapAddress, limit: int)
    requires
        0 <= holder < limit,
    ensures
        incoming_below(cells, address, limit) >= count_in(references_at(cells, holder), address),
    decreases limit,
{
    if holder < limit - 1 {
        lemma_incoming_of_reference(cells, holder, address, limit - 1);
    }
}

/// Giving up a reference that is held is no fault, and leaves the machine
/// balanced with one reference less held.
pub proof fn lemma_release_balanced(machine: Machine, credits: Credits, address: HeapAddress, left: Credits)
    requires
        machine.balanced(credits),
        credits[address] >= 1,
        forall|other: HeapAddress|
            #[trigger] left[other] + (if other == address {
                1nat
            } else {
                0nat
            }) == credits[other],
    ensures
        release(machine.cells, address) matches Ok(cells) && machine.with_cells(cells).balanced(left),
    decreases machine.cells.dom().len(), 0nat, 0nat,
{
    let cells = machine.cells;
    let limit = machine.next_address.0 as int;
    assert(machine.references_to(credits, address) >= 1);
    assert(cells.contains_key(address));
    let cell = cells[address];
    if cell.refcount > 1 {
        let lowered = cells.insert(
            address,
            CellView { refcount: (cell.refcount - 1) as u32, value: cell.value },
        );
        let after = machine.with_cells(lowered);
        assert forall|other: HeapAddress| #![trigger after.references_to(left, other)] {
            &&& after.cells.contains_key(other) ==> after.cells[other].refcount == after.references_to(
                left,
                other,
            )
            &&& after.references_to(left, other) > 0 ==> after.cells.contains_key(other)
        } by {
            assert forall|k: int| 0 <= k < limit implies #[trigger] references_at(lowered, k)
                == references_at(cells, k) by {}
            lemma_incoming_same(cells, lowered, other, limit);
            assert(left[other] + (if other == address {
                1nat
            } else {
                0nat
            }) == credits[other]);
            assert(machine.references_to(credits, other) == after.references_to(left, other) + (if other
                == address {
                1nat
            } else {
                0nat
            }));
        }
    } else {
        let removed = cells.remove(address);
        let held = cell.value.references();
        let between = machine.with_cells(removed);
        let lent = Map::total(|other: HeapAddress| left[other] + count_in(held, other));
        assert(references_at(cells, address.0 as int) == held);
        assert(references_at(removed, address.0 as int) == Seq::<HeapAddress>::empty());
        assert forall|other: HeapAddress| #![trigger between.references_to(lent, other)] {
            &&& between.cells.contains_key(other) ==> between.cells[other].refcount
                == between.references_to(lent, other)
            &&& between.references_to(lent, other) > 0 ==> between.cells.contains_key(other)
        } by {
            assert forall|k: int| 0 <= k < limit && k != address.0 implies #[trigger] references_at(
                removed,
                k,
            ) == references_at(cells, k) by {}
            lemma_incoming_changed(cells, removed, address.0 as int, other, limit);
            assert(left[other] + (if other == address {
                1nat
            } else {
                0nat
            }) == credits[other]);
            assert(machine.references_to(credits, other) == between.references_to(lent, other) + (if other
                == address {
                1nat
            } else {
                0nat
            }));
            if other == address {
                assert(machine.references_to(credits, address) == 1);
            }
        }
        lemma_release_all_balanced(between, lent, held, left);
    }
}

/// Giving up references that are held is no fault, and leaves the machine
/// balanced with those references less held.
pub proof fn lemma_release_all_balanced(
    machine: Machine,
    credits: Credits,
    addresses: Seq<HeapAddress>,
    left: Credits,
)
    requires
        machine.balanced(credits),
        forall|other: HeapAddress| #[trigger] left[other] + count_in(addresses, other) == credits[other],
    ensures
        release_all(machine.cells, addresses) matches Ok(cells) && machine.with_cells(cells).balanced(left),
    decreases machine.cells.dom().len(), 1nat, addresses.len(),
{
    if addresses.len() == 0 {
        assert forall|other: HeapAddress| #![trigger machine.references_to(left, other)] {
            &&& machine.cells.contains_key(other) ==> machine.cells[other].refcount
                == machine.references_to(left, other)
            &&& machine.references_to(left, other) > 0 ==> machine.cells.contains_key(other)
        } by {
            assert(left[other] + count_in(addresses, other) == credits[other]);
            assert(machine.references_to(credits, other) == machine.references_to(left, other));
        }
    } else {
        let first = addresses[0];
        let rest = addresses.drop_first();
        let middle = Map::total(|other: HeapAddress| left[other] + count_in(rest, other));
        assert forall|other: HeapAddress| #[trigger] middle[other] + (if other == first {
            1nat
        } else {
            0nat
        }) == credits[other] by {
            lemma_count_drop_first(addresses, other);
            assert(left[other] + count_in(addresses, other) == credits[other]);
        }
        assert(middle[first] + 1 == credits[first]);
        lemma_release_balanced(machine, credits, first, middle);
        lemma_release_shrinks(machine.cells, first);
        let cells = release(machine.cells, first)->Ok_0;
        lemma_release_all_balanced(machine.with_cells(cells), middle, rest, left);
    }
}

} // verus!
