//! Interning of addresses: each address gets a small number that stands for it.

use crate::address::Address;
use vstd::prelude::*;

verus! {

/// The number that stands for an address. Numbers are given out from 1 upwards.
pub type AddressId = u64;

/// The number that stands for no address.
pub const NULL_ID: AddressId = 0;

/// The table of an interning in the model.
pub struct IdTable {
    /// The number of each address that has one.
    pub ids: Map<Seq<u8>, nat>,
    /// The last number that was given out; it is never given out again.
    pub last_id: nat,
}

impl IdTable {
    /// The table in which no address has a number.
    pub open spec fn empty() -> IdTable {
        IdTable { ids: Map::empty(), last_id: 0 }
    }

    /// The number of the address, 0 where it has none.
    pub open spec fn get_id(self, address: Seq<u8>) -> nat {
        if self.ids.contains_key(address) {
            self.ids[address]
        } else {
            0
        }
    }

    /// The table after the address was given the next number.
    pub open spec fn insert_address(self, address: Seq<u8>) -> IdTable {
        IdTable { ids: self.ids.insert(address, self.last_id + 1), last_id: self.last_id + 1 }
    }

    /// The table after the address was given a number, unless it had one.
    pub open spec fn get_id_or_insert(self, address: Seq<u8>) -> IdTable {
        if self.get_id(address) != 0 {
            self
        } else {
            self.insert_address(address)
        }
    }

    /// The table after the address lost its number.
    pub open spec fn remove_by_address(self, address: Seq<u8>) -> IdTable {
        IdTable { ids: self.ids.remove(address), last_id: self.last_id }
    }

    /// Every number in the table is between 1 and the last one given out, and no two
    /// addresses share a number.
    pub open spec fn well_formed(self) -> bool {
        &&& forall|a: Seq<u8>| #[trigger]
            self.ids.contains_key(a) ==> 1 <= self.ids[a] <= self.last_id
        &&& forall|a: Seq<u8>, b: Seq<u8>|
            self.ids.contains_key(a) && self.ids.contains_key(b) && a != b ==> #[trigger] self.ids[a]
                != #[trigger] self.ids[b]
    }
}

/// Giving an address a number keeps the table well formed.
pub proof fn lemma_insert_address_well_formed(table: IdTable, address: Seq<u8>)
    requires
        table.well_formed(),
        table.get_id(address) == 0,
    ensures
        table.insert_address(address).well_formed(),
        table.insert_address(address).get_id(address) == table.last_id + 1,
{
    let after = table.insert_address(address);
    assert forall|a: Seq<u8>| #[trigger] after.ids.contains_key(a) implies 1 <= after.ids[a]
        <= after.last_id by {
        if a != address {
            assert(table.ids.contains_key(a));
        }
    }
    assert forall|a: Seq<u8>, b: Seq<u8>|
        after.ids.contains_key(a) && after.ids.contains_key(b) && a != b implies #[trigger] after.ids[a]
        != #[trigger] after.ids[b] by {
        if a != address {
            assert(table.ids.contains_key(a));
        }
        if b != address {
            assert(table.ids.contains_key(b));
        }
    }
}

/// Taking a number away keeps the table well formed.
pub proof fn lemma_remove_by_address_well_formed(table: IdTable, address: Seq<u8>)
    requires
        table.well_formed(),
    ensures
        table.remove_by_address(address).well_formed(),
        table.remove_by_address(address).get_id(address) == 0,
{
    let after = table.remove_by_address(address);
    assert forall|a: Seq<u8>| #[trigger] after.ids.contains_key(a) implies 1 <= after.ids[a]
        <= after.last_id by {
        assert(table.ids.contains_key(a));
    }
    assert forall|a: Seq<u8>, b: Seq<u8>|
        after.ids.contains_key(a) && after.ids.contains_key(b) && a != b implies #[trigger] after.ids[a]
        != #[trigger] after.ids[b] by {
        assert(table.ids.contains_key(a));
        assert(table.ids.contains_key(b));
    }
}

/// Whether slot `i` holds the address.
spec fn slot_holds(slots: Seq<Option<Address>>, i: int, address: Seq<u8>) -> bool {
    0 <= i < slots.len() && slots[i] is Some && slots[i]->Some_0@ == address
}

/// Whether no address is held by two slots.
spec fn distinct_slots(slots: Seq<Option<Address>>) -> bool {
    forall|i: int, j: int, a: Seq<u8>|
        #[trigger] slot_holds(slots, i, a) && #[trigger] slot_holds(slots, j, a) ==> i == j
}

/// The table that the slots spell: the address in slot `i` has the number `i + 1`.
spec fn table_of(slots: Seq<Option<Address>>) -> IdTable {
    IdTable {
        ids: Map::new(
            |a: Seq<u8>| exists|i: int| slot_holds(slots, i, a),
            |a: Seq<u8>| ((choose|i: int| slot_holds(slots, i, a)) + 1) as nat,
        ),
        last_id: slots.len(),
    }
}

proof fn lemma_table_of_slot(slots: Seq<Option<Address>>, i: int, address: Seq<u8>)
    requires
        distinct_slots(slots),
        slot_holds(slots, i, address),
    ensures
        table_of(slots).ids.contains_key(address),
        table_of(slots).ids[address] == i + 1,
        table_of(slots).get_id(address) == i + 1,
{
    let c = choose|c: int| slot_holds(slots, c, address);
    assert(slot_holds(slots, c, address));
}

proof fn lemma_table_of_well_formed(slots: Seq<Option<Address>>)
    requires
        distinct_slots(slots),
    ensures
        table_of(slots).well_formed(),
{
    let table = table_of(slots);
    assert forall|a: Seq<u8>| #[trigger] table.ids.contains_key(a) implies 1 <= table.ids[a]
        <= table.last_id by {
        let c = choose|c: int| slot_holds(slots, c, a);
        assert(slot_holds(slots, c, a));
    }
    assert forall|a: Seq<u8>, b: Seq<u8>|
        table.ids.contains_key(a) && table.ids.contains_key(b) && a != b implies #[trigger] table.ids[a]
        != #[trigger] table.ids[b] by {
        let ca = choose|c: int| slot_holds(slots, c, a);
        let cb = choose|c: int| slot_holds(slots, c, b);
        assert(slot_holds(slots, ca, a));
        assert(slot_holds(slots, cb, b));
    }
}

proof fn lemma_table_of_push(slots: Seq<Option<Address>>, address: Address)
    requires
        distinct_slots(slots),
        table_of(slots).get_id(address@) == 0,
    ensures
        distinct_slots(slots.push(Some(address))),
        table_of(slots.push(Some(address))) == table_of(slots).insert_address(address@),
{
    let after = slots.push(Some(address));
    lemma_table_of_well_formed(slots);
    assert(!table_of(slots).ids.contains_key(address@));
    assert forall|i: int, j: int, a: Seq<u8>|
        #[trigger] slot_holds(after, i, a) && #[trigger] slot_holds(after, j, a) implies i == j by {
        if i < slots.len() {
            assert(slot_holds(slots, i, a));
        }
        if j < slots.len() {
            assert(slot_holds(slots, j, a));
        }
    }
    assert(slot_holds(after, slots.len() as int, address@));
    lemma_table_of_slot(after, slots.len() as int, address@);
    let expected = table_of(slots).insert_address(address@);
    assert forall|a: Seq<u8>| table_of(after).ids.contains_key(a) == expected.ids.contains_key(
        a,
    ) by {
        if table_of(after).ids.contains_key(a) {
            let c = choose|c: int| slot_holds(after, c, a);
            if c < slots.len() {
                assert(slot_holds(slots, c, a));
            }
        }
        if table_of(slots).ids.contains_key(a) {
            let c = choose|c: int| slot_holds(slots, c, a);
            assert(slot_holds(after, c, a));
        }
    }
    assert forall|a: Seq<u8>| #[trigger]
        expected.ids.contains_key(a) implies table_of(after).ids[a] == expected.ids[a] by {
        if a != address@ {
            let c = choose|c: int| slot_holds(slots, c, a);
            assert(slot_holds(slots, c, a));
            assert(slot_holds(after, c, a));
            lemma_table_of_slot(after, c, a);
        }
    }
    assert(table_of(after).ids =~= expected.ids);
}

proof fn lemma_table_of_clear(slots: Seq<Option<Address>>, i: int, address: Seq<u8>)
    requires
        distinct_slots(slots),
        slot_holds(slots, i, address),
    ensures
        distinct_slots(slots.update(i, None)),
        table_of(slots.update(i, None)) == table_of(slots).remove_by_address(address),
{
    let after = slots.update(i, None::<Address>);
    assert forall|x: int, y: int, a: Seq<u8>|
        #[trigger] slot_holds(after, x, a) && #[trigger] slot_holds(after, y, a) implies x == y by {
        assert(slot_holds(slots, x, a));
        assert(slot_holds(slots, y, a));
    }
    let expected = table_of(slots).remove_by_address(address);
    assert forall|a: Seq<u8>| table_of(after).ids.contains_key(a) == expected.ids.contains_key(
        a,
    ) by {
        if table_of(after).ids.contains_key(a) {
            let c = choose|c: int| slot_holds(after, c, a);
            assert(slot_holds(slots, c, a));
            if a == address {
                assert(c == i);
            }
        }
        if expected.ids.contains_key(a) {
            let c = choose|c: int| slot_holds(slots, c, a);
            assert(slot_holds(slots, c, a));
            assert(c != i);
            assert(slot_holds(after, c, a));
        }
    }
    assert forall|a: Seq<u8>| #[trigger]
        expected.ids.contains_key(a) implies table_of(after).ids[a] == expected.ids[a] by {
        let c = choose|c: int| slot_holds(slots, c, a);
        assert(slot_holds(slots, c, a));
        assert(c != i);
        assert(slot_holds(after, c, a));
        lemma_table_of_slot(after, c, a);
        lemma_table_of_slot(slots, c, a);
    }
    assert(table_of(after).ids =~= expected.ids);
}

/// A two-way table between addresses and the numbers that stand for them. A number that was
/// given out is never given out again, also after its address was removed.
pub struct AddressToIdMapper {
    /// The address with the number `i + 1` is in slot `i`; a slot is empty once its address
    /// was removed.
    slots: Vec<Option<Address>>,
}

impl View for AddressToIdMapper {
    type V = IdTable;

    closed spec fn view(&self) -> IdTable {
        table_of(self.slots@)
    }
}

impl AddressToIdMapper {
    #[verifier::type_invariant]
    spec fn well_formed(self) -> bool {
        distinct_slots(self.slots@)
    }

    /// The table in which no address has a number.
    pub fn new() -> (r: AddressToIdMapper)
        ensures
            r@ == IdTable::empty(),
            r@.well_formed(),
    {
        let slots: Vec<Option<Address>> = Vec::new();
        assert(table_of(slots@).ids =~= Map::<Seq<u8>, nat>::empty());
        AddressToIdMapper { slots }
    }

    /// The slot that holds the address, if one does.
    fn find(&self, address: &Address) -> (r: Option<usize>)
        ensures
            self@.well_formed(),
            match r {
                Some(i) => slot_holds(self.slots@, i as int, address@) && self@.get_id(address@) == i
                    + 1,
                None => self@.get_id(address@) == 0,
            },
    {
        proof {
            use_type_invariant(self);
            lemma_table_of_well_formed(self.slots@);
        }
        let mut i: usize = 0;
        while i < self.slots.len()
            invariant
                i <= self.slots@.len(),
                distinct_slots(self.slots@),
                forall|j: int| 0 <= j < i ==> !slot_holds(self.slots@, j, address@),
            decreases self.slots@.len() - i,
        {
            match &self.slots[i] {
                Some(held) => {
                    if held.eq(address) {
                        proof {
                            lemma_table_of_slot(self.slots@, i as int, address@);
                        }
                        return Some(i);
                    }
                },
                None => {},
            }
            i = i + 1;
        }
        proof {
            if table_of(self.slots@).ids.contains_key(address@) {
                let c = choose|c: int| slot_holds(self.slots@, c, address@);
                assert(slot_holds(self.slots@, c, address@));
            }
        }
        None
    }

    /// Gives the address the next number.
    fn insert_address(&mut self, address: &Address) -> (r: AddressId)
        requires
            old(self)@.get_id(address@) == 0,
        ensures
            final(self)@ == old(self)@.insert_address(address@),
            final(self)@.well_formed(),
            r == old(self)@.last_id + 1,
    {
        proof {
            use_type_invariant(&*self);
            lemma_table_of_push(self.slots@, *address);
            lemma_table_of_well_formed(self.slots@.push(Some(*address)));
        }
        let mut slots: Vec<Option<Address>> = Vec::new();
        assert(distinct_slots(slots@));
        core::mem::swap(&mut self.slots, &mut slots);
        slots.push(Some(*address));
        let id: AddressId = slots.len() as AddressId;
        core::mem::swap(&mut self.slots, &mut slots);
        id
    }

    /// The number of the address, `NULL_ID` where it has none.
    pub fn get_id(&self, address: &Address) -> (r: AddressId)
        ensures
            r == self@.get_id(address@),
            self@.well_formed(),
    {
        match self.find(address) {
            Some(i) => {
                assert(slot_holds(self.slots@, i as int, address@));
                assert(i < self.slots.len());
                (i + 1) as AddressId
            },
            None => NULL_ID,
        }
    }

    /// The number of the address, where it has one.
    pub fn get_id_non_zero(&self, address: &Address) -> (r: Option<AddressId>)
        ensures
            self@.well_formed(),
            match r {
                Some(id) => id == self@.get_id(address@) && id != NULL_ID,
                None => self@.get_id(address@) == 0,
            },
    {
        let id = self.get_id(address);
        if id == NULL_ID {
            None
        } else {
            Some(id)
        }
    }

    /// The number of the address; where it had none, it is given the next one.
    pub fn get_id_or_insert(&mut self, address: &Address) -> (r: AddressId)
        ensures
            final(self)@ == old(self)@.get_id_or_insert(address@),
            final(self)@.well_formed(),
            r == final(self)@.get_id(address@),
            r != NULL_ID,
    {
        let current_id = self.get_id(address);
        if current_id != NULL_ID {
            return current_id;
        }
        proof {
            lemma_insert_address_well_formed(self@, address@);
        }
        self.insert_address(address)
    }

    /// Gives the address the next number, unless it has one already.
    pub fn insert_new(&mut self, address: &Address) -> (r: Option<AddressId>)
        ensures
            final(self)@.well_formed(),
            old(self)@.get_id(address@) == 0 ==> final(self)@ == old(self)@.insert_address(address@)
                && r is Some && r->Some_0 == old(self)@.last_id + 1,
            old(self)@.get_id(address@) != 0 ==> final(self)@ == old(self)@ && r is None,
    {
        let existing_id = self.get_id(address);
        if existing_id != NULL_ID {
            return None;
        }
        Some(self.insert_address(address))
    }

    /// Takes the number of the address away and returns it, `NULL_ID` where it had none.
    pub fn remove_by_address(&mut self, address: &Address) -> (r: AddressId)
        ensures
            final(self)@ == old(self)@.remove_by_address(address@),
            final(self)@.well_formed(),
            r == old(self)@.get_id(address@),
    {
        proof {
            use_type_invariant(&*self);
        }
        match self.find(address) {
            Some(i) => {
                proof {
                    lemma_table_of_clear(self.slots@, i as int, address@);
                    lemma_table_of_well_formed(self.slots@.update(i as int, None));
                }
                assert(i < self.slots.len());
                let id: AddressId = (i + 1) as AddressId;
                let mut slots: Vec<Option<Address>> = Vec::new();
                assert(distinct_slots(slots@));
                core::mem::swap(&mut self.slots, &mut slots);
                slots.set(i, None);
                core::mem::swap(&mut self.slots, &mut slots);
                id
            },
            None => {
                assert(self@.ids.remove(address@) =~= self@.ids);
                NULL_ID
            },
        }
    }

    /// The last number that was given out, `NULL_ID` where none was.
    pub fn get_last_id(&self) -> (r: AddressId)
        ensures
            r == self@.last_id,
    {
        self.slots.len() as AddressId
    }
}

} // verus!
