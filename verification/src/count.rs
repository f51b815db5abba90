//! How many different numbers there can be.

use vstd::prelude::*;

verus! {

/// Different numbers of 32 bits are at most 2^32.
pub proof fn lemma_distinct_numbers(nums: Seq<u32>)
    requires
        nums.no_duplicates(),
    ensures
        nums.len() <= 0x1_0000_0000,
{
    let ints = nums.map_values(|x: u32| x as int);
    assert forall|i: int, j: int| 0 <= i < ints.len() && 0 <= j < ints.len() && i != j implies ints[i]
        != ints[j] by {
        assert(nums[i] != nums[j]);
    }
    assert(ints.no_duplicates());
    ints.unique_seq_to_set();
    vstd::set_lib::lemma_int_range(0, 0x1_0000_0000);
    let range = vstd::set_lib::set_int_range(0, 0x1_0000_0000);
    assert forall|x: int| ints.to_set().contains(x) implies range.contains(x) by {
        let i = choose|i: int| 0 <= i < ints.len() && ints[i] == x;
        assert(ints[i] == nums[i] as int);
    }
    vstd::set_lib::lemma_len_subset(ints.to_set(), range);
}

} // verus!
