//! Items by name: a `DashMap` from names to slots, and the items in their slots.
use dashmap::DashMap;
use vstd::prelude::*;

verus! {

/// `dashmap::DashMap`, whose contents `slot_table` names.
#[verifier::external_type_specification]
#[verifier::external_body]
#[verifier::reject_recursive_types(K)]
#[verifier::reject_recursive_types(V)]
#[verifier::reject_recursive_types(S)]
pub struct ExDashMap<K, V, S>(DashMap<K, V, S>);

/// What a `DashMap` of slots holds.
pub uninterp spec fn slot_table(table: DashMap<String, usize>) -> Map<Seq<char>, usize>;

/// `DashMap::new` makes a map that holds nothing.
#[verifier::external_body]
fn table_new() -> (r: DashMap<String, usize>)
    ensures
        slot_table(r) == (Map::<Seq<char>, usize>::empty()),
{
    DashMap::new()
}

/// `DashMap::get` finds the value of a key, or nothing where the key is not held.
#[verifier::external_body]
fn table_get(table: &DashMap<String, usize>, name: &str) -> (r: Option<usize>)
    ensures
        r == (if slot_table(*table).contains_key(name@) {
            Some(slot_table(*table)[name@])
        } else {
            None
        }),
{
    table.get(name).map(|slot| *slot.value())
}

/// `DashMap::insert` makes a key stand for a value, in place of what it stood for.
#[verifier::external_body]
fn table_insert(table: &mut DashMap<String, usize>, name: String, slot: usize)
    ensures
        slot_table(*final(table)) == slot_table(*old(table)).insert(name@, slot),
{
    table.insert(name, slot);
}

/// `DashMap::iter` goes through every key once, in no order that is promised.
#[verifier::external_body]
fn table_names(table: &DashMap<String, usize>) -> (r: Vec<String>)
    ensures
        forall|i: int| 0 <= i < r@.len() ==> slot_table(*table).contains_key(#[trigger] r@[i]@),
        forall|name: Seq<char>| #[trigger]
            slot_table(*table).contains_key(name) ==> exists|i: int|
                0 <= i < r@.len() && #[trigger] r@[i]@ == name,
        forall|i: int, j: int|
            0 <= i < j < r@.len() ==> #[trigger] r@[i]@ != #[trigger] r@[j]@,
{
    table.iter().map(|entry| entry.key().clone()).collect()
}

/// `DashMap::remove` takes a key out.
#[verifier::external_body]
fn table_remove(table: &mut DashMap<String, usize>, name: &str)
    ensures
        slot_table(*final(table)) == slot_table(*old(table)).remove(name@),
{
    table.remove(name);
}

/// Items by name.
pub struct Registry<V> {
    table: DashMap<String, usize>,
    items: Vec<(String, V)>,
}

impl<V> Registry<V> {
    /// Every name has a slot of its own, and every slot a name.
    pub closed spec fn well_formed(&self) -> bool {
        &&& slot_table(self.table).dom().finite()
        &&& slot_table(self.table).dom().len() == self.items@.len()
        &&& forall|name: Seq<char>| #[trigger]
            slot_table(self.table).contains_key(name) ==> slot_table(self.table)[name]
                < self.items@.len() && self.items@[slot_table(self.table)[name] as int].0@ == name
        &&& forall|i: int|
            0 <= i < self.items@.len() ==> slot_table(self.table).contains_key(
                (#[trigger] self.items@[i]).0@,
            ) && slot_table(self.table)[self.items@[i].0@] == i
    }

    /// The items by name.
    pub closed spec fn view(&self) -> Map<Seq<char>, V> {
        Map::new(
            |name: Seq<char>| slot_table(self.table).contains_key(name),
            |name: Seq<char>| self.items@[slot_table(self.table)[name] as int].1,
        )
    }

    pub fn new() -> (r: Self)
        ensures
            r.well_formed(),
            r@ == Map::<Seq<char>, V>::empty(),
    {
        let r = Registry { table: table_new(), items: Vec::new() };
        assert(r@ =~= Map::<Seq<char>, V>::empty());
        r
    }

    /// How many names there are.
    pub fn len(&self) -> (r: usize)
        requires
            self.well_formed(),
        ensures
            self@.dom().finite(),
            r == self@.dom().len(),
    {
        assert(self@.dom() =~= slot_table(self.table).dom());
        self.items.len()
    }

    pub fn contains(&self, name: &str) -> (r: bool)
        requires
            self.well_formed(),
        ensures
            r == self@.contains_key(name@),
    {
        table_get(&self.table, name).is_some()
    }

    pub fn get(&self, name: &str) -> (r: Option<&V>)
        requires
            self.well_formed(),
        ensures
            r is Some == self@.contains_key(name@),
            r is Some ==> *r->0 == self@[name@],
    {
        match table_get(&self.table, name) {
            Some(slot) => Some(&self.items[slot].1),
            None => None,
        }
    }

    /// Makes `name` stand for `item`.
    pub fn insert(&mut self, name: &str, item: V)
        requires
            old(self).well_formed(),
        ensures
            final(self).well_formed(),
            final(self)@ == old(self)@.insert(name@, item),
    {
        match table_get(&self.table, name) {
            Some(slot) => {
                self.items[slot].1 = item;
            },
            None => {
                let slot: usize = self.items.len();
                table_insert(&mut self.table, name.to_owned(), slot);
                self.items.push((name.to_owned(), item));
                assert(forall|i: int|
                    0 <= i < slot ==> (#[trigger] self.items@[i]) == old(self).items@[i]);
            },
        }
        assert(self@ =~= old(self)@.insert(name@, item));
    }

    /// Takes a name out, and what it stands for.
    pub fn remove(&mut self, name: &str)
        requires
            old(self).well_formed(),
        ensures
            final(self).well_formed(),
            final(self)@ == old(self)@.remove(name@),
    {
        match table_get(&self.table, name) {
            Some(slot) => {
                let last: usize = self.items.len() - 1;
                table_remove(&mut self.table, name);
                self.items.swap_remove(slot);
                if slot < last {
                    let moved: String = self.items[slot].0.clone();
                    table_insert(&mut self.table, moved, slot);
                }
                proof {
                    let before = old(self);
                    assert forall|i: int| 0 <= i < self.items@.len() implies slot_table(
                        self.table,
                    ).contains_key((#[trigger] self.items@[i]).0@) && slot_table(
                        self.table,
                    )[self.items@[i].0@] == i by {
                        if i == slot {
                            assert(self.items@[i] == before.items@[last as int]);
                        } else {
                            assert(self.items@[i] == before.items@[i]);
                            assert(before.items@[last as int].0@ != before.items@[i].0@);
                        }
                    }
                    assert forall|n: Seq<char>| #[trigger]
                        slot_table(self.table).contains_key(n) implies slot_table(self.table)[n]
                        < self.items@.len() && self.items@[slot_table(
                        self.table,
                    )[n] as int].0@ == n by {
                        let s = slot_table(before.table)[n];
                        assert(before.items@[s as int].0@ == n);
                        if s == last {
                            assert(self.items@[slot as int] == before.items@[last as int]);
                        } else {
                            assert(self.items@[s as int] == before.items@[s as int]);
                        }
                    }
                    assert forall|n: Seq<char>| #[trigger]
                        slot_table(self.table).contains_key(n) implies self@[n]
                        == before@[n] by {
                        let s = slot_table(before.table)[n];
                        assert(before.items@[s as int].0@ == n);
                    }
                }
            },
            None => {},
        }
        assert(self@ =~= old(self)@.remove(name@));
    }

    /// The item of a name, to be changed in its place.
    pub fn get_mut(&mut self, name: &str) -> (r: Option<&mut V>)
        requires
            old(self).well_formed(),
        ensures
            final(self).well_formed(),
            r is Some == old(self)@.contains_key(name@),
            r is None ==> final(self)@ == old(self)@,
            r matches Some(item) ==> *item == old(self)@[name@] && final(self)@ == old(
                self,
            )@.insert(name@, *final(item)),
    {
        match table_get(&self.table, name) {
            Some(slot) => Some(&mut self.items[slot].1),
            None => None,
        }
    }

    /// The names, each once, in no particular order.
    pub fn names(&self) -> (r: Vec<String>)
        requires
            self.well_formed(),
        ensures
            forall|i: int| 0 <= i < r@.len() ==> self@.contains_key(#[trigger] r@[i]@),
            forall|name: Seq<char>| #[trigger]
                self@.contains_key(name) ==> exists|i: int|
                    0 <= i < r@.len() && #[trigger] r@[i]@ == name,
            forall|i: int, j: int|
                0 <= i < j < r@.len() ==> #[trigger] r@[i]@ != #[trigger] r@[j]@,
    {
        let r: Vec<String> = table_names(&self.table);
        proof {
            assert forall|name: Seq<char>| #[trigger] self@.contains_key(name) implies exists|
                i: int,
            | 0 <= i < r@.len() && #[trigger] r@[i]@ == name by {
                assert(slot_table(self.table).contains_key(name));
            }
        }
        r
    }
}

} // verus!
