//! Sorting by address, keeping the order of items that share an address.

use crate::macho::functions::AddressPair;
use crate::macho::matching::ObjectMapSymbol;
use vstd::prelude::*;

verus! {

/// Something that is ordered by an address.
pub trait Addressed {
    /// The address to order by.
    spec fn sort_key(&self) -> u64;

    fn address_to_sort_by(&self) -> (address: u64)
        ensures
            address == self.sort_key(),
    ;
}

impl Addressed for ObjectMapSymbol {
    open spec fn sort_key(&self) -> u64 {
        self.address
    }

    fn address_to_sort_by(&self) -> (address: u64) {
        self.address
    }
}

impl Addressed for AddressPair {
    open spec fn sort_key(&self) -> u64 {
        self.address_in_this_object
    }

    fn address_to_sort_by(&self) -> (address: u64) {
        self.address_in_this_object
    }
}

/// The items are ordered by address, low to high.
pub open spec fn is_sorted<T: Addressed>(items: Seq<T>) -> bool {
    forall|i: int, j: int| 0 <= i <= j < items.len() ==> items[i].sort_key() <= items[j].sort_key()
}

/// Number of leading items of the sorted `items` whose address is at most `address`.
pub open spec fn count_up_to<T: Addressed>(items: Seq<T>, address: u64) -> int
    decreases items.len(),
{
    if items.len() == 0 {
        0
    } else if items.first().sort_key() <= address {
        1 + count_up_to(items.drop_first(), address)
    } else {
        0
    }
}

/// `item` put into the sorted `items` behind every item whose address is at
/// most its own.
pub open spec fn inserted<T: Addressed>(items: Seq<T>, item: T) -> Seq<T> {
    items.insert(count_up_to(items, item.sort_key()), item)
}

/// The items ordered by address, low to high; items with the same address
/// stay in the order they had.
pub open spec fn sorted_by_address<T: Addressed>(items: Seq<T>) -> Seq<T>
    decreases items.len(),
{
    if items.len() == 0 {
        items
    } else {
        inserted(sorted_by_address(items.drop_last()), items.last())
    }
}

/// `count_up_to` stays within the sequence and cuts it where the addresses
/// pass `address`.
pub proof fn lemma_count_up_to<T: Addressed>(items: Seq<T>, address: u64)
    requires
        is_sorted(items),
    ensures
        0 <= count_up_to(items, address) <= items.len(),
        forall|k: int| 0 <= k < count_up_to(items, address) ==> items[k].sort_key() <= address,
        forall|k: int|
            count_up_to(items, address) <= k < items.len() ==> items[k].sort_key() > address,
    decreases items.len(),
{
    if items.len() > 0 {
        let rest = items.drop_first();
        assert forall|i: int, j: int| 0 <= i <= j < rest.len() implies rest[i].sort_key()
            <= rest[j].sort_key() by {
            assert(rest[i] == items[i + 1] && rest[j] == items[j + 1]);
        }
        if items.first().sort_key() <= address {
            lemma_count_up_to(rest, address);
            assert forall|k: int| 0 <= k < count_up_to(items, address) implies items[k].sort_key()
                <= address by {
                if k > 0 {
                    assert(items[k] == rest[k - 1]);
                }
            }
            assert forall|k: int|
                count_up_to(items, address) <= k < items.len() implies items[k].sort_key()
                > address by {
                assert(items[k] == rest[k - 1]);
            }
        } else {
            assert forall|k: int| 0 <= k < items.len() implies items[k].sort_key() > address by {
                assert(items[0].sort_key() <= items[k].sort_key());
            }
        }
    }
}

/// Any index that cuts the sorted items where the addresses pass `address`
/// is `count_up_to`.
pub proof fn lemma_cut_is_count_up_to<T: Addressed>(items: Seq<T>, address: u64, cut: int)
    requires
        is_sorted(items),
        0 <= cut <= items.len(),
        forall|k: int| 0 <= k < cut ==> items[k].sort_key() <= address,
        forall|k: int| cut <= k < items.len() ==> items[k].sort_key() > address,
    ensures
        cut == count_up_to(items, address),
{
    lemma_count_up_to(items, address);
    let c = count_up_to(items, address);
    if c < cut {
        assert(items[c].sort_key() <= address);
    } else if cut < c {
        assert(items[cut].sort_key() > address);
    }
}

/// Putting an item into sorted items leaves them sorted.
pub proof fn lemma_inserted_is_sorted<T: Addressed>(items: Seq<T>, item: T)
    requires
        is_sorted(items),
    ensures
        is_sorted(inserted(items, item)),
        inserted(items, item).len() == items.len() + 1,
{
    lemma_count_up_to(items, item.sort_key());
    let at = count_up_to(items, item.sort_key());
    let result = inserted(items, item);
    assert forall|i: int, j: int| 0 <= i <= j < result.len() implies result[i].sort_key()
        <= result[j].sort_key() by {
        if i < at && j > at {
            assert(result[i] == items[i] && result[j] == items[j - 1]);
        } else if i > at {
            assert(result[i] == items[i - 1] && result[j] == items[j - 1]);
        } else if j < at {
            assert(result[i] == items[i] && result[j] == items[j]);
        }
    }
}

/// The result of sorting is sorted and as long as what was sorted.
pub proof fn lemma_sorted_by_address_is_sorted<T: Addressed>(items: Seq<T>)
    ensures
        is_sorted(sorted_by_address(items)),
        sorted_by_address(items).len() == items.len(),
    decreases items.len(),
{
    if items.len() > 0 {
        lemma_sorted_by_address_is_sorted(items.drop_last());
        lemma_inserted_is_sorted(sorted_by_address(items.drop_last()), items.last());
    }
}

/// Orders the items by address, low to high; items with the same address
/// stay in the order they had.
pub fn sort_by_address<T: Addressed>(items: &mut Vec<T>)
    ensures
        final(items)@ == sorted_by_address(old(items)@),
{
    let ghost original = items@;
    let n = items.len();
    let mut i: usize = 0;
    assert(items@ =~= sorted_by_address(original.subrange(0, 0)) + original.subrange(0, n as int));
    while i < n
        invariant
            0 <= i <= n,
            n == original.len(),
            items@ == sorted_by_address(original.subrange(0, i as int)) + original.subrange(
                i as int,
                n as int,
            ),
        decreases n - i,
    {
        let ghost done = sorted_by_address(original.subrange(0, i as int));
        proof {
            lemma_sorted_by_address_is_sorted(original.subrange(0, i as int));
            assert(items@[i as int] == original[i as int]);
        }
        let item = items.remove(i);
        let address = item.address_to_sort_by();
        assert(items@ =~= done + original.subrange(i + 1, n as int));
        // Walk back over the items that come after this one.
        let mut at: usize = i;
        while at > 0 && items[at - 1].address_to_sort_by() > address
            invariant
                0 <= at <= i < n,
                items@ == done + original.subrange(i + 1, n as int),
                done.len() == i,
                is_sorted(done),
                forall|k: int| at <= k < i ==> done[k].sort_key() > address,
            decreases at,
        {
            assert(items@[at - 1] == done[at - 1]);
            at -= 1;
        }
        proof {
            assert forall|k: int| 0 <= k < at implies done[k].sort_key() <= address by {
                assert(items@[at - 1] == done[at - 1]);
                assert(done[k].sort_key() <= done[at - 1].sort_key());
            }
            lemma_cut_is_count_up_to(done, address, at as int);
            let next = original.subrange(0, i + 1);
            assert(next.drop_last() =~= original.subrange(0, i as int));
            assert(next.last() == item);
        }
        items.insert(at, item);
        assert(items@ =~= sorted_by_address(original.subrange(0, i + 1)) + original.subrange(
            i + 1,
            n as int,
        ));
        i += 1;
    }
    assert(original.subrange(0, n as int) =~= original);
    assert(items@ =~= sorted_by_address(original));
}

} // verus!
