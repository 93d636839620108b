//! Storage, indexing and lookup of per-user activity records.
//!
//! A container holds the records of users one after the other in a binary
//! format (`wire`, `codec`). A store reads a container, caches records and
//! indexes them by name, id and place (`data`, `index`). A search answers
//! groups of selectors from a store, by a scan or from the indexes
//! (`selector`, `search`); what it is to return is stated in `answer`, and
//! what holds of every search is proved in `laws`.

use vstd::prelude::*;

pub mod answer;
pub mod codec;
pub mod data;
pub mod index;
pub mod laws;
pub mod parser;
pub mod pattern;
pub mod progress;
pub mod scan;
pub mod search;
pub mod selector;
pub mod text;
pub mod wire;

verus! {

/// True when every element of `s` is at most the elements after it.
pub open spec fn ascending(s: Seq<i64>) -> bool {
    forall|i: int, j: int| 0 <= i <= j < s.len() ==> s[i] <= s[j]
}

/// The lists of `lists` laid end to end.
pub open spec fn concat_all(lists: Seq<Seq<i64>>) -> Seq<i64>
    decreases lists.len(),
{
    if lists.len() == 0 {
        Seq::empty()
    } else {
        concat_all(lists.drop_last()) + lists.last()
    }
}

/// `<[i64]>::sort` of std: afterwards the vector holds the same values, each
/// as often as before, in ascending order.
#[verifier::external_body]
pub(crate) fn sort_ascending(v: &mut Vec<i64>)
    ensures
        ascending(final(v)@),
        final(v)@.to_multiset() == old(v)@.to_multiset(),
{
    v.sort();
}

/// The views of a list of lists.
pub open spec fn lists(arrays: Seq<Vec<i64>>) -> Seq<Seq<i64>> {
    Seq::new(arrays.len(), |i: int| arrays[i]@)
}

/// All values of all lists of `arrays` in one list, in ascending order.
pub fn join_sorted(arrays: Vec<Vec<i64>>) -> (res: Vec<i64>)
    ensures
        ascending(res@),
        res@.to_multiset() == concat_all(lists(arrays@)).to_multiset(),
{
    let ghost all = lists(arrays@);
    let mut res: Vec<i64> = Vec::new();
    let mut i: usize = 0;
    assert(all.take(0) =~= Seq::<Seq<i64>>::empty());
    while i < arrays.len()
        invariant
            i <= arrays@.len(),
            all == lists(arrays@),
            res@ == concat_all(all.take(i as int)),
        decreases arrays@.len() - i,
    {
        let list = &arrays[i];
        let ghost base = res@;
        let mut j: usize = 0;
        assert(base + list@.take(0) =~= base);
        while j < list.len()
            invariant
                j <= list@.len(),
                res@ == base + list@.take(j as int),
            decreases list@.len() - j,
        {
            res.push(list[j]);
            assert(res@ =~= base + list@.take(j + 1));
            j += 1;
        }
        proof {
            assert(list@.take(list@.len() as int) =~= list@);
            assert(all.take(i + 1).drop_last() =~= all.take(i as int));
            assert(all.take(i + 1).last() == list@);
        }
        i += 1;
    }
    assert(all.take(arrays@.len() as int) =~= all);
    sort_ascending(&mut res);
    res
}

} // verus!
