//! The aggregator: given the records of one partition as (client identifier,
//! outcome) pairs, tallies how many clients chose each outcome.

use vstd::prelude::*;

verus! {

/// How many records of `s` carry outcome `false` ("open").
pub open spec fn false_count(s: Seq<(String, bool)>) -> nat
    decreases s.len(),
{
    if s.len() == 0 {
        0
    } else {
        false_count(s.drop_last()) + if s.last().1 {
            0nat
        } else {
            1nat
        }
    }
}

/// How many records of `s` carry outcome `true` ("press").
pub open spec fn true_count(s: Seq<(String, bool)>) -> nat
    decreases s.len(),
{
    if s.len() == 0 {
        0
    } else {
        true_count(s.drop_last()) + if s.last().1 {
            1nat
        } else {
            0nat
        }
    }
}

/// Tallies the outcomes of a partition's records: how many clients chose
/// "open" (`false`) and how many chose "press" (`true`).
pub fn tally_outcomes(records: &Vec<(String, bool)>) -> (r: (u64, u64))
    ensures
        r.0 == false_count(records@),
        r.1 == true_count(records@),
        r.0 + r.1 == records@.len(),
{
    let mut open_count: u64 = 0;
    let mut press_count: u64 = 0;
    let mut i: usize = 0;
    proof {
        assert(records@.take(0) =~= Seq::<(String, bool)>::empty());
    }
    while i < records.len()
        invariant
            i <= records@.len(),
            open_count == false_count(records@.take(i as int)),
            press_count == true_count(records@.take(i as int)),
            open_count + press_count == i,
        decreases records@.len() - i,
    {
        proof {
            assert(records@.take(i + 1).drop_last() =~= records@.take(i as int));
            assert(records@.take(i + 1).last() == records@[i as int]);
        }
        if records[i].1 {
            press_count = press_count + 1;
        } else {
            open_count = open_count + 1;
        }
        i = i + 1;
    }
    proof {
        assert(records@.take(records@.len() as int) =~= records@);
    }
    (open_count, press_count)
}

} // verus!
