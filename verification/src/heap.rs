//! The reference-counted heap.

use vstd::prelude::*;
use std::collections::HashMap;
use std::collections::hash_map::Entry;
use crate::fault::RuntimeFault;
use crate::heap_value::{CellView, HeapAddress, HeapValue, RefCountedHeapValue};

verus! {

broadcast use vstd::std_specs::hash::group_hash_axioms;

/// The cells of a heap, by address.
pub type Cells = Map<HeapAddress, CellView>;

/// The cells left when one reference to `address` is given up. A count above
/// one is lowered. At one the cell is destroyed, and the references that its
/// value held are given up in turn, in order.
pub open spec fn release(cells: Cells, address: HeapAddress) -> Result<Cells, RuntimeFault>
    decreases cells.dom().len(), 0nat, 0nat,
{
    if !cells.dom().finite() || !cells.contains_key(address) {
        Err(RuntimeFault::InvalidAddress)
    } else if cells[address].refcount == 0 {
        Err(RuntimeFault::RefcountUnderflow)
    } else if cells[address].refcount > 1 {
        Ok(
            cells.insert(
                address,
                CellView { refcount: (cells[address].refcount - 1) as u32, value: cells[address].value },
            ),
        )
    } else {
        release_all(cells.remove(address), cells[address].value.references())
    }
}

/// The cells left when one reference to each of `addresses` is given up, from
/// the first to the last. The first fault ends it.
pub open spec fn release_all(cells: Cells, addresses: Seq<HeapAddress>) -> Result<Cells, RuntimeFault>
    decreases cells.dom().len(), 1nat, addresses.len(),
{
    if addresses.len() == 0 {
        Ok(cells)
    } else {
        match release(cells, addresses[0]) {
            Err(fault) => Err(fault),
            Ok(rest) => if rest.dom().finite() && rest.dom().len() <= cells.dom().len() {
                release_all(rest, addresses.drop_first())
            } else {
                Err(RuntimeFault::InvalidAddress)
            },
        }
    }
}

/// Giving up a reference never adds a cell.
pub proof fn lemma_release_shrinks(cells: Cells, address: HeapAddress)
    requires
        cells.dom().finite(),
    ensures
        release(cells, address) matches Ok(rest) ==> rest.dom().subset_of(cells.dom())
            && rest.dom().finite() && rest.dom().len() <= cells.dom().len(),
    decreases cells.dom().len(), 0nat, 0nat,
{
    if cells.contains_key(address) && cells[address].refcount == 1 {
        lemma_release_all_shrinks(cells.remove(address), cells[address].value.references());
    }
    if let Ok(rest) = release(cells, address) {
        vstd::set_lib::lemma_len_subset(rest.dom(), cells.dom());
    }
}

/// Giving up references never adds a cell.
pub proof fn lemma_release_all_shrinks(cells: Cells, addresses: Seq<HeapAddress>)
    requires
        cells.dom().finite(),
    ensures
        release_all(cells, addresses) matches Ok(rest) ==> rest.dom().subset_of(cells.dom())
            && rest.dom().finite() && rest.dom().len() <= cells.dom().len(),
    decreases cells.dom().len(), 1nat, addresses.len(),
{
    if addresses.len() > 0 {
        lemma_release_shrinks(cells, addresses[0]);
        if let Ok(rest) = release(cells, addresses[0]) {
            lemma_release_all_shrinks(rest, addresses.drop_first());
        }
    }
    if let Ok(rest) = release_all(cells, addresses) {
        vstd::set_lib::lemma_len_subset(rest.dom(), cells.dom());
    }
}

/// A count never goes below zero: giving up a reference to a cell that has
/// none is a fault, and leaves no cells to speak of.
pub proof fn lemma_release_of_unreferenced_faults(cells: Cells, address: HeapAddress)
    requires
        cells.dom().finite(),
        cells.contains_key(address),
        cells[address].refcount == 0,
    ensures
        release(cells, address) == Err::<Cells, RuntimeFault>(RuntimeFault::RefcountUnderflow),
{
}

/// Giving up a reference changes no value and raises no count: a cell that
/// is left holds the value that it held, with a count no higher than before.
pub proof fn lemma_release_lowers_counts(cells: Cells, address: HeapAddress, other: HeapAddress)
    requires
        cells.dom().finite(),
    ensures
        release(cells, address) matches Ok(rest) ==> (rest.contains_key(other) ==> cells.contains_key(other)
            && rest[other].value == cells[other].value && rest[other].refcount <= cells[other].refcount),
    decreases cells.dom().len(), 0nat, 0nat,
{
    if cells.contains_key(address) && cells[address].refcount == 1 {
        lemma_release_all_lowers_counts(cells.remove(address), cells[address].value.references(), other);
    }
}

/// Giving up references changes no value and raises no count.
pub proof fn lemma_release_all_lowers_counts(cells: Cells, addresses: Seq<HeapAddress>, other: HeapAddress)
    requires
        cells.dom().finite(),
    ensures
        release_all(cells, addresses) matches Ok(rest) ==> (rest.contains_key(other) ==> cells.contains_key(
            other,
        ) && rest[other].value == cells[other].value && rest[other].refcount <= cells[other].refcount),
    decreases cells.dom().len(), 1nat, addresses.len(),
{
    if addresses.len() > 0 {
        lemma_release_shrinks(cells, addresses[0]);
        lemma_release_lowers_counts(cells, addresses[0], other);
        if let Ok(rest) = release(cells, addresses[0]) {
            lemma_release_all_lowers_counts(rest, addresses.drop_first(), other);
        }
    }
}

#[derive(Debug)]
pub struct Heap {
    memory: HashMap<u32, RefCountedHeapValue>,
    heap_next_address: HeapAddress,
}

impl Heap {
    /// The live cells.
    pub closed spec fn view(&self) -> Cells {
        Map::new(
            |address: HeapAddress| self.memory@.contains_key(address.0),
            |address: HeapAddress| self.memory@[address.0]@,
        )
    }

    /// The address that the next allocation returns.
    pub closed spec fn next_address(&self) -> HeapAddress {
        self.heap_next_address
    }

    /// Every live address was handed out before, and there are finitely many.
    pub open spec fn wf(&self) -> bool {
        &&& self@.dom().finite()
        &&& forall|address: HeapAddress| self@.contains_key(address) ==> address.0 < self.next_address().0
    }

    pub fn new() -> (heap: Heap)
        ensures
            heap@ == Cells::empty(),
            heap.next_address() == HeapAddress(0),
            heap.wf(),
    {
        let heap = Heap { memory: HashMap::new(), heap_next_address: HeapAddress(0) };
        assert(heap@ =~= Cells::empty());
        heap
    }

    /// Whether another cell can be allocated.
    pub fn has_room(&self) -> (room: bool)
        ensures
            room == (self.next_address().0 < u32::MAX),
    {
        self.heap_next_address.0 < u32::MAX
    }

    /// The number of live cells.
    pub fn len(&self) -> (count: usize)
        ensures
            self@.dom().finite(),
            count == self@.dom().len(),
    {
        proof {
            self.lemma_view_len();
        }
        self.memory.len()
    }

    proof fn lemma_view_len(&self)
        ensures
            self@.dom().finite(),
            self@.dom().len() == self.memory@.dom().len(),
    {
        lemma_keyed_len(self.memory@.dom(), self@.dom());
    }

    pub fn allocate(&mut self, heap_value: HeapValue) -> (address: HeapAddress)
        requires
            old(self).wf(),
            old(self).next_address().0 < u32::MAX,
        ensures
            address == old(self).next_address(),
            !old(self)@.contains_key(address),
            final(self)@ == old(self)@.insert(address, CellView { refcount: 0, value: heap_value@ }),
            final(self).next_address() == HeapAddress((address.0 + 1) as u32),
            final(self).wf(),
    {
        let address = self.heap_next_address;
        self.heap_next_address = HeapAddress(self.heap_next_address.0 + 1);
        let refcounted = RefCountedHeapValue { refcount: 0, heap_value };
        self.memory.insert(address.0, refcounted);
        assert(self@ =~= old(self)@.insert(address, CellView { refcount: 0, value: heap_value@ }));
        address
    }

    /// Whether `heap_address` is live.
    pub fn contains(&self, heap_address: HeapAddress) -> (live: bool)
        ensures
            live == self@.contains_key(heap_address),
    {
        self.memory.contains_key(&heap_address.0)
    }

    /// The reference count of a live cell.
    pub fn refcount(&self, heap_address: HeapAddress) -> (count: u32)
        requires
            self@.contains_key(heap_address),
        ensures
            count == self@[heap_address].refcount,
    {
        let cell = self.memory.get(&heap_address.0);
        cell.unwrap().refcount
    }

    pub fn deref(&self, heap_address: HeapAddress) -> (value: &HeapValue)
        requires
            self@.contains_key(heap_address),
        ensures
            value@ == self@[heap_address].value,
    {
        let cell = self.memory.get(&heap_address.0);
        &cell.unwrap().heap_value
    }

    pub fn deref_mut(&mut self, heap_address: HeapAddress) -> (value: &mut HeapValue)
        requires
            old(self)@.contains_key(heap_address),
        ensures
            value@ == old(self)@[heap_address].value,
            final(self)@ == old(self)@.insert(
                heap_address,
                CellView { refcount: old(self)@[heap_address].refcount, value: final(value)@ },
            ),
            final(self).next_address() == old(self).next_address(),
    {
        match self.memory.entry(heap_address.0) {
            Entry::Occupied(entry) => {
                let cell = entry.into_mut();
                &mut cell.heap_value
            },
            Entry::Vacant(_) => unreached(),
        }
    }

    pub fn inc_refcount(&mut self, heap_address: HeapAddress)
        requires
            old(self)@.contains_key(heap_address),
            old(self)@[heap_address].refcount < u32::MAX,
        ensures
            final(self)@ == old(self)@.insert(
                heap_address,
                CellView {
                    refcount: (old(self)@[heap_address].refcount + 1) as u32,
                    value: old(self)@[heap_address].value,
                },
            ),
            final(self).next_address() == old(self).next_address(),
    {
        let removed = self.memory.remove(&heap_address.0);
        let cell = removed.unwrap();
        self.memory.insert(
            heap_address.0,
            RefCountedHeapValue { refcount: cell.refcount + 1, heap_value: cell.heap_value },
        );
        assert(self@ =~= old(self)@.insert(
            heap_address,
            CellView {
                refcount: (old(self)@[heap_address].refcount + 1) as u32,
                value: old(self)@[heap_address].value,
            },
        ));
    }

    pub fn dec_refcount(&mut self, heap_address: HeapAddress) -> (outcome: Result<(), RuntimeFault>)
        requires
            old(self).wf(),
        ensures
            final(self).wf(),
            final(self).next_address() == old(self).next_address(),
            final(self)@.dom().subset_of(old(self)@.dom()),
            match release(old(self)@, heap_address) {
                Ok(cells) => outcome is Ok && final(self)@ == cells,
                Err(fault) => outcome == Err::<(), RuntimeFault>(fault),
            },
        decreases old(self)@.dom().len(), 1nat,
    {
        if !self.contains(heap_address) {
            return Err(RuntimeFault::InvalidAddress);
        }
        let count = self.refcount(heap_address);
        if count == 0 {
            return Err(RuntimeFault::RefcountUnderflow);
        }
        if count > 1 {
            let removed = self.memory.remove(&heap_address.0);
            let cell = removed.unwrap();
            self.memory.insert(
                heap_address.0,
                RefCountedHeapValue { refcount: count - 1, heap_value: cell.heap_value },
            );
            assert(self@ =~= old(self)@.insert(
                heap_address,
                CellView { refcount: (count - 1) as u32, value: old(self)@[heap_address].value },
            ));
            Ok(())
        } else {
            self.free(heap_address)
        }
    }

    /// Destroys a live cell and gives up the references that its value held.
    fn free(&mut self, heap_address: HeapAddress) -> (outcome: Result<(), RuntimeFault>)
        requires
            old(self).wf(),
            old(self)@.contains_key(heap_address),
        ensures
            final(self).wf(),
            final(self).next_address() == old(self).next_address(),
            final(self)@.dom().subset_of(old(self)@.dom()),
            match release_all(
                old(self)@.remove(heap_address),
                old(self)@[heap_address].value.references(),
            ) {
                Ok(cells) => outcome is Ok && final(self)@ == cells,
                Err(fault) => outcome == Err::<(), RuntimeFault>(fault),
            },
        decreases old(self)@.dom().len(), 0nat,
    {
        let removed = self.memory.remove(&heap_address.0);
        let destroying_value = removed.unwrap().heap_value;
        let held = destroying_value.held_addresses();
        let ghost start = self@;
        assert(start =~= old(self)@.remove(heap_address));
        assert(start == old(self)@.remove(heap_address));
        assert(held@ == old(self)@[heap_address].value.references());
        assert(held@.subrange(0, held.len() as int) =~= held@);
        let mut i: usize = 0;
        while i < held.len()
            invariant
                i <= held.len(),
                self.wf(),
                self.next_address() == old(self).next_address(),
                self@.dom().subset_of(start.dom()),
                start.dom().finite(),
                start.dom().len() < old(self)@.dom().len(),
                start == old(self)@.remove(heap_address),
                held@ == old(self)@[heap_address].value.references(),
                release_all(self@, held@.subrange(i as int, held.len() as int)) == release_all(
                    start,
                    held@,
                ),
            decreases held.len() - i,
        {
            let ghost before = self@;
            let ghost rest = held@.subrange(i as int, held.len() as int);
            proof {
                vstd::set_lib::lemma_len_subset(before.dom(), start.dom());
                assert(rest[0] == held@[i as int]);
                assert(rest.drop_first() =~= held@.subrange(i + 1, held.len() as int));
            }
            match self.dec_refcount(held[i]) {
                Err(fault) => {
                    assert(release_all(before, rest) == Err::<Cells, RuntimeFault>(fault));
                    return Err(fault);
                },
                Ok(()) => {
                    proof {
                        vstd::set_lib::lemma_len_subset(self@.dom(), before.dom());
                        assert(release_all(before, rest) == release_all(self@, rest.drop_first()));
                    }
                },
            }
            i += 1;
        }
        assert(held@.subrange(i as int, held.len() as int) =~= Seq::<HeapAddress>::empty());
        Ok(())
    }
}

/// Two sets that correspond one to one through the address constructor have
/// the same size.
proof fn lemma_keyed_len(keys: Set<u32>, addresses: Set<HeapAddress>)
    requires
        keys.finite(),
        forall|address: HeapAddress| addresses.contains(address) <==> keys.contains(address.0),
    ensures
        addresses.finite(),
        addresses.len() == keys.len(),
    decreases keys.len(),
{
    if keys.len() == 0 {
        assert(keys =~= Set::<u32>::empty());
        assert(addresses =~= Set::<HeapAddress>::empty());
    } else {
        let k = keys.choose();
        lemma_keyed_len(keys.remove(k), addresses.remove(HeapAddress(k)));
        assert(addresses =~= addresses.remove(HeapAddress(k)).insert(HeapAddress(k)));
    }
}

} // verus!
