//! Addresses, and the functions that addresses were found in.

use vstd::prelude::*;
use vstd::string::StringSliceAdditionalSpecFns;

verus! {

/// An address as the caller asked for it, and the same place as an address
/// inside the object that is being looked at.
#[derive(Clone, Copy, Debug, PartialEq, Eq, Structural)]
pub struct AddressPair {
    pub original_address: u32,
    pub address_in_this_object: u64,
}

/// An address as the caller asked for it, and how far into its function it lies.
#[derive(Clone, Copy, Debug, PartialEq, Eq, Structural)]
pub struct AddressWithOffset {
    pub original_address: u32,
    pub offset_from_function_start: u32,
}

/// Whether two byte strings are the same.
pub fn same_bytes(a: &[u8], b: &[u8]) -> (same: bool)
    ensures
        same == (a@ == b@),
{
    if a.len() != b.len() {
        return false;
    }
    let mut i: usize = 0;
    while i < a.len()
        invariant
            0 <= i <= a@.len(),
            a@.len() == b@.len(),
            forall|j: int| 0 <= j < i ==> a@[j] == b@[j],
        decreases a@.len() - i,
    {
        if a[i] != b[i] {
            return false;
        }
        i += 1;
    }
    assert(a@ =~= b@);
    true
}

/// A copy of a byte string.
pub fn copy_bytes(bytes: &[u8]) -> (copy: Vec<u8>)
    ensures
        copy@ == bytes@,
{
    let mut copy: Vec<u8> = Vec::new();
    let mut i: usize = 0;
    while i < bytes.len()
        invariant
            0 <= i <= bytes@.len(),
            copy@ == bytes@.subrange(0, i as int),
        decreases bytes@.len() - i,
    {
        copy.push(bytes[i]);
        assert(copy@ =~= bytes@.subrange(0, i + 1));
        i += 1;
    }
    assert(bytes@.subrange(0, bytes@.len() as int) =~= bytes@);
    copy
}

/// The addresses that were found in each function of one object, by the
/// function's name. A name occurs at most once.
#[derive(Debug)]
pub struct FunctionsWithAddresses {
    /// Keys are byte strings of the function name.
    /// Values are the addresses under that function.
    entries: Vec<(Vec<u8>, Vec<AddressWithOffset>)>,
}

/// Index of the entry for `key`, if there is one.
pub open spec fn entry_index(
    entries: Seq<(Vec<u8>, Vec<AddressWithOffset>)>,
    key: Seq<u8>,
) -> Option<int> {
    if exists|i: int| 0 <= i < entries.len() && (#[trigger] entries[i]).0@ == key {
        Some(choose|i: int| 0 <= i < entries.len() && (#[trigger] entries[i]).0@ == key)
    } else {
        None
    }
}

/// No two entries have the same key.
pub open spec fn distinct_keys(entries: Seq<(Vec<u8>, Vec<AddressWithOffset>)>) -> bool {
    forall|i: int, j: int|
        0 <= i < j < entries.len() ==> (#[trigger] entries[i]).0@ != (#[trigger] entries[j]).0@
}

impl FunctionsWithAddresses {
    #[verifier::type_invariant]
    spec fn well_formed(self) -> bool {
        distinct_keys(self.entries@)
    }

    /// The entries, in the order in which their names were first inserted.
    pub closed spec fn entries(&self) -> Seq<(Vec<u8>, Vec<AddressWithOffset>)> {
        self.entries@
    }

    pub fn new() -> (functions: Self)
        ensures
            functions@ == Map::<Seq<u8>, Seq<AddressWithOffset>>::empty(),
    {
        let functions = Self { entries: Vec::new() };
        assert(functions@ =~= Map::<Seq<u8>, Seq<AddressWithOffset>>::empty());
        functions
    }

    /// Where the entry for `symbol_name` stands.
    fn position(&self, symbol_name: &[u8]) -> (at: Option<usize>)
        ensures
            at matches Some(i) ==> i < self.entries().len() && self.entries()[i as int].0@
                == symbol_name@,
            at is None ==> forall|i: int|
                0 <= i < self.entries().len() ==> (#[trigger] self.entries()[i]).0@ != symbol_name@,
            at is Some <==> self@.contains_key(symbol_name@),
            at matches Some(i) ==> self@[symbol_name@] == self.entries()[i as int].1@,
    {
        proof {
            use_type_invariant(self);
        }
        let mut i: usize = 0;
        while i < self.entries.len()
            invariant
                0 <= i <= self.entries@.len(),
                distinct_keys(self.entries@),
                forall|j: int| 0 <= j < i ==> (#[trigger] self.entries@[j]).0@ != symbol_name@,
            decreases self.entries@.len() - i,
        {
            if same_bytes(self.entries[i].0.as_slice(), symbol_name) {
                proof {
                    lemma_entry_index_unique(self.entries@, symbol_name@, i as int);
                }
                return Some(i);
            }
            i += 1;
        }
        None
    }

    /// Files `addresses` under the function `symbol_name`, in place of what
    /// was filed under that name before.
    pub fn insert(&mut self, symbol_name: &[u8], addresses: Vec<AddressWithOffset>)
        ensures
            final(self)@ == old(self)@.insert(symbol_name@, addresses@),
    {
        proof {
            use_type_invariant(&*self);
        }
        let ghost before = self.entries@;
        match self.position(symbol_name) {
            Some(i) => {
                let key = copy_bytes(symbol_name);
                let mut entries: Vec<(Vec<u8>, Vec<AddressWithOffset>)> = Vec::new();
                std::mem::swap(&mut entries, &mut self.entries);
                entries.set(i, (key, addresses));
                proof {
                    let after = entries@;
                    assert(distinct_keys(after)) by {
                        assert forall|x: int, y: int| 0 <= x < y < after.len() implies (
                        #[trigger] after[x]).0@ != (#[trigger] after[y]).0@ by {
                            assert(after[x].0@ == before[x].0@);
                            assert(after[y].0@ == before[y].0@);
                        }
                    }
                    lemma_map_of_update(before, after, i as int);
                }
                std::mem::swap(&mut entries, &mut self.entries);
            },
            None => {
                let key = copy_bytes(symbol_name);
                let mut entries: Vec<(Vec<u8>, Vec<AddressWithOffset>)> = Vec::new();
                std::mem::swap(&mut entries, &mut self.entries);
                entries.push((key, addresses));
                proof {
                    let after = entries@;
                    assert(distinct_keys(after));
                    lemma_map_of_push(before, after);
                }
                std::mem::swap(&mut entries, &mut self.entries);
            },
        }
    }

    /// Takes out what is filed under the function `symbol_name`.
    pub fn get_and_remove_addresses_for_function(&mut self, symbol_name: &str) -> (addresses:
        Option<Vec<AddressWithOffset>>)
        ensures
            old(self)@.contains_key(symbol_name.spec_bytes()) ==> (addresses matches Some(found)
                && found@ == old(self)@[symbol_name.spec_bytes()]),
            !old(self)@.contains_key(symbol_name.spec_bytes()) ==> addresses is None,
            final(self)@ == old(self)@.remove(symbol_name.spec_bytes()),
    {
        proof {
            use_type_invariant(&*self);
        }
        let ghost before = self.entries@;
        match self.position(symbol_name.as_bytes()) {
            Some(i) => {
                let mut entries: Vec<(Vec<u8>, Vec<AddressWithOffset>)> = Vec::new();
                std::mem::swap(&mut entries, &mut self.entries);
                let entry = entries.remove(i);
                proof {
                    let after = entries@;
                    assert(distinct_keys(after)) by {
                        assert forall|x: int, y: int| 0 <= x < y < after.len() implies (
                        #[trigger] after[x]).0@ != (#[trigger] after[y]).0@ by {
                            let bx = if x < i { x } else { x + 1 };
                            let by = if y < i { y } else { y + 1 };
                            assert(after[x] == before[bx] && after[y] == before[by]);
                        }
                    }
                    lemma_map_of_remove(before, after, i as int);
                }
                std::mem::swap(&mut entries, &mut self.entries);
                Some(entry.1)
            },
            None => {
                assert(self@ =~= self@.remove(symbol_name.spec_bytes()));
                None
            },
        }
    }
    /// Files `addresses` under the function `symbol_name`, behind what is
    /// filed under that name already.
    pub fn add(&mut self, symbol_name: &[u8], addresses: Vec<AddressWithOffset>)
        ensures
            final(self)@ == added(old(self)@, symbol_name@, addresses@),
    {
        proof {
            use_type_invariant(&*self);
        }
        let ghost before = self.entries@;
        let mut addresses = addresses;
        match self.position(symbol_name) {
            Some(i) => {
                let mut entries: Vec<(Vec<u8>, Vec<AddressWithOffset>)> = Vec::new();
                std::mem::swap(&mut entries, &mut self.entries);
                entries[i].1.append(&mut addresses);
                proof {
                    let after = entries@;
                    assert(distinct_keys(after)) by {
                        assert forall|x: int, y: int| 0 <= x < y < after.len() implies (
                        #[trigger] after[x]).0@ != (#[trigger] after[y]).0@ by {
                            assert(after[x].0@ == before[x].0@);
                            assert(after[y].0@ == before[y].0@);
                        }
                    }
                    lemma_map_of_update(before, after, i as int);
                }
                std::mem::swap(&mut entries, &mut self.entries);
            },
            None => {
                let key = copy_bytes(symbol_name);
                let mut entries: Vec<(Vec<u8>, Vec<AddressWithOffset>)> = Vec::new();
                std::mem::swap(&mut entries, &mut self.entries);
                entries.push((key, addresses));
                proof {
                    let after = entries@;
                    assert(distinct_keys(after));
                    lemma_map_of_push(before, after);
                    assert(Seq::<AddressWithOffset>::empty() + addresses@ =~= addresses@);
                }
                std::mem::swap(&mut entries, &mut self.entries);
            },
        }
    }

    /// Takes over what is filed in `other`: under each name, behind what is
    /// filed under that name here.
    pub fn absorb(&mut self, other: FunctionsWithAddresses)
        ensures
            final(self)@ == merged(old(self)@, other@),
    {
        proof {
            use_type_invariant(&other);
        }
        let ghost mine = self@;
        let ghost all = other.entries@;
        let FunctionsWithAddresses { entries } = other;
        let mut entries = entries;
        let n = entries.len();
        let mut i: usize = 0;
        proof {
            assert(mine =~= merged(mine, map_of(all.subrange(0, 0))));
        }
        while i < n
            invariant
                0 <= i <= n == entries@.len() == all.len(),
                distinct_keys(all),
                forall|j: int| i <= j < n ==> entries@[j] == all[j],
                self@ == merged(mine, map_of(all.subrange(0, i as int))),
            decreases n - i,
        {
            let mut name: Vec<u8> = Vec::new();
            let mut addresses: Vec<AddressWithOffset> = Vec::new();
            assert(entries@[i as int] == all[i as int]);
            std::mem::swap(&mut name, &mut entries[i].0);
            std::mem::swap(&mut addresses, &mut entries[i].1);
            proof {
                lemma_merged_step(mine, all, i as int);
            }
            self.add(name.as_slice(), addresses);
            i += 1;
        }
        proof {
            assert(all.subrange(0, n as int) =~= all);
        }
    }
}

/// What is filed under `name`; nothing where the name is not there.
pub open spec fn filed_under(
    functions: Map<Seq<u8>, Seq<AddressWithOffset>>,
    name: Seq<u8>,
) -> Seq<AddressWithOffset> {
    if functions.contains_key(name) {
        functions[name]
    } else {
        Seq::empty()
    }
}

/// The functions with `addresses` filed under `name`, behind what was filed
/// under that name.
pub open spec fn added(
    functions: Map<Seq<u8>, Seq<AddressWithOffset>>,
    name: Seq<u8>,
    addresses: Seq<AddressWithOffset>,
) -> Map<Seq<u8>, Seq<AddressWithOffset>> {
    functions.insert(name, filed_under(functions, name) + addresses)
}

/// The functions of both: under each name what `first` files there, then
/// what `second` files there.
pub open spec fn merged(
    first: Map<Seq<u8>, Seq<AddressWithOffset>>,
    second: Map<Seq<u8>, Seq<AddressWithOffset>>,
) -> Map<Seq<u8>, Seq<AddressWithOffset>> {
    Map::new(
        |name: Seq<u8>| first.contains_key(name) || second.contains_key(name),
        |name: Seq<u8>| filed_under(first, name) + filed_under(second, name),
    )
}

/// Taking over one more entry is adding what it files.
proof fn lemma_merged_step(
    mine: Map<Seq<u8>, Seq<AddressWithOffset>>,
    all: Seq<(Vec<u8>, Vec<AddressWithOffset>)>,
    i: int,
)
    requires
        distinct_keys(all),
        0 <= i < all.len(),
    ensures
        merged(mine, map_of(all.subrange(0, i + 1))) == added(
            merged(mine, map_of(all.subrange(0, i))),
            all[i].0@,
            all[i].1@,
        ),
{
    let before = all.subrange(0, i);
    let after = all.subrange(0, i + 1);
    let name = all[i].0@;
    assert(distinct_keys(after)) by {
        assert forall|x: int, y: int| 0 <= x < y < after.len() implies (#[trigger] after[x]).0@
            != (#[trigger] after[y]).0@ by {
            assert(after[x] == all[x] && after[y] == all[y]);
        }
    }
    assert forall|j: int| 0 <= j < before.len() implies after[j] == before[j] by {}
    lemma_map_of_push(before, after);
    assert(after.last() == all[i]);
    // The name is new among the entries before.
    assert(!map_of(before).contains_key(name)) by {
        if map_of(before).contains_key(name) {
            let w = entry_index(before, name)->Some_0;
            assert(before[w] == all[w]);
            assert(all[w].0@ != all[i].0@);
        }
    }
    let left = merged(mine, map_of(after));
    let right = added(merged(mine, map_of(before)), name, all[i].1@);
    assert forall|key: Seq<u8>| left.contains_key(key) <==> right.contains_key(key) by {}
    assert forall|key: Seq<u8>| left.contains_key(key) implies left[key] == right[key] by {
        if key == name {
            assert(filed_under(map_of(before), name) =~= Seq::<AddressWithOffset>::empty());
            assert(filed_under(mine, name) + all[i].1@ =~= (filed_under(mine, name) + filed_under(
                map_of(before),
                name,
            )) + all[i].1@);
        }
    }
    assert(left =~= right);
}

/// What is filed under each name in `entries`.
pub open spec fn map_of(entries: Seq<(Vec<u8>, Vec<AddressWithOffset>)>) -> Map<
    Seq<u8>,
    Seq<AddressWithOffset>,
> {
    Map::new(
        |key: Seq<u8>| entry_index(entries, key) is Some,
        |key: Seq<u8>| entries[entry_index(entries, key)->Some_0].1@,
    )
}

impl View for FunctionsWithAddresses {
    type V = Map<Seq<u8>, Seq<AddressWithOffset>>;

    /// The addresses filed under each function name.
    closed spec fn view(&self) -> Map<Seq<u8>, Seq<AddressWithOffset>> {
        map_of(self.entries@)
    }
}

proof fn lemma_entry_index_unique(
    entries: Seq<(Vec<u8>, Vec<AddressWithOffset>)>,
    key: Seq<u8>,
    i: int,
)
    requires
        distinct_keys(entries),
        0 <= i < entries.len(),
        entries[i].0@ == key,
    ensures
        entry_index(entries, key) == Some(i),
{
    let w = entry_index(entries, key)->Some_0;
    if w < i {
        assert(entries[w].0@ != entries[i].0@);
    } else if i < w {
        assert(entries[i].0@ != entries[w].0@);
    }
}

proof fn lemma_map_of_update(
    before: Seq<(Vec<u8>, Vec<AddressWithOffset>)>,
    after: Seq<(Vec<u8>, Vec<AddressWithOffset>)>,
    i: int,
)
    requires
        distinct_keys(before),
        distinct_keys(after),
        0 <= i < before.len(),
        after.len() == before.len(),
        after[i].0@ == before[i].0@,
        forall|j: int| 0 <= j < before.len() && j != i ==> after[j] == before[j],
    ensures
        map_of(after) == map_of(before).insert(after[i].0@, after[i].1@),
{
    let target = map_of(before).insert(after[i].0@, after[i].1@);
    assert forall|key: Seq<u8>| map_of(after).contains_key(key) <==> target.contains_key(key) by {
        if map_of(after).contains_key(key) {
            let w = entry_index(after, key)->Some_0;
            if w != i {
                assert(before[w].0@ == key);
            }
        }
        if target.contains_key(key) && key != after[i].0@ {
            let w = entry_index(before, key)->Some_0;
            assert(after[w].0@ == key);
        }
        if key == after[i].0@ {
            assert(after[i].0@ == key);
        }
    }
    assert forall|key: Seq<u8>| map_of(after).contains_key(key) implies map_of(after)[key]
        == target[key] by {
        let w = entry_index(after, key)->Some_0;
        lemma_entry_index_unique(after, key, w);
        if w == i {
        } else {
            assert(before[w].0@ == key);
            lemma_entry_index_unique(before, key, w);
        }
    }
    assert(map_of(after) =~= target);
}

proof fn lemma_map_of_push(
    before: Seq<(Vec<u8>, Vec<AddressWithOffset>)>,
    after: Seq<(Vec<u8>, Vec<AddressWithOffset>)>,
)
    requires
        distinct_keys(after),
        after.len() == before.len() + 1,
        forall|j: int| 0 <= j < before.len() ==> after[j] == before[j],
    ensures
        map_of(after) == map_of(before).insert(after.last().0@, after.last().1@),
{
    let last = before.len() as int;
    let target = map_of(before).insert(after[last].0@, after[last].1@);
    assert(distinct_keys(before)) by {
        assert forall|x: int, y: int| 0 <= x < y < before.len() implies (#[trigger] before[x]).0@
            != (#[trigger] before[y]).0@ by {
            assert(after[x] == before[x] && after[y] == before[y]);
        }
    }
    assert forall|key: Seq<u8>| map_of(after).contains_key(key) <==> target.contains_key(key) by {
        if map_of(after).contains_key(key) {
            let w = entry_index(after, key)->Some_0;
            if w != last {
                assert(before[w].0@ == key);
            }
        }
        if target.contains_key(key) && key != after[last].0@ {
            let w = entry_index(before, key)->Some_0;
            assert(after[w].0@ == key);
        }
        if key == after[last].0@ {
            assert(after[last].0@ == key);
        }
    }
    assert forall|key: Seq<u8>| map_of(after).contains_key(key) implies map_of(after)[key]
        == target[key] by {
        let w = entry_index(after, key)->Some_0;
        lemma_entry_index_unique(after, key, w);
        if w != last {
            assert(before[w].0@ == key);
            lemma_entry_index_unique(before, key, w);
        }
    }
    assert(map_of(after) =~= target);
}

proof fn lemma_map_of_remove(
    before: Seq<(Vec<u8>, Vec<AddressWithOffset>)>,
    after: Seq<(Vec<u8>, Vec<AddressWithOffset>)>,
    i: int,
)
    requires
        distinct_keys(before),
        distinct_keys(after),
        0 <= i < before.len(),
        after == before.remove(i),
    ensures
        map_of(after) == map_of(before).remove(before[i].0@),
        map_of(before).contains_key(before[i].0@),
        map_of(before)[before[i].0@] == before[i].1@,
{
    lemma_entry_index_unique(before, before[i].0@, i);
    let target = map_of(before).remove(before[i].0@);
    assert forall|key: Seq<u8>| map_of(after).contains_key(key) <==> target.contains_key(key) by {
        if map_of(after).contains_key(key) {
            let w = entry_index(after, key)->Some_0;
            let bw = if w < i { w } else { w + 1 };
            assert(before[bw].0@ == key);
            if key == before[i].0@ {
                if bw < i {
                    assert(before[bw].0@ != before[i].0@);
                } else {
                    assert(before[i].0@ != before[bw].0@);
                }
            }
        }
        if target.contains_key(key) {
            let w = entry_index(before, key)->Some_0;
            let aw = if w < i { w } else { w - 1 };
            assert(after[aw].0@ == key);
        }
    }
    assert forall|key: Seq<u8>| map_of(after).contains_key(key) implies map_of(after)[key]
        == target[key] by {
        let w = entry_index(after, key)->Some_0;
        lemma_entry_index_unique(after, key, w);
        let bw = if w < i { w } else { w + 1 };
        assert(before[bw].0@ == key);
        lemma_entry_index_unique(before, key, bw);
    }
    assert(map_of(after) =~= target);
}

} // verus!
