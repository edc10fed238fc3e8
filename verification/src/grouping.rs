//! Partitioning of input lines by their assigned cluster label.
//!
//! A line is identified by its position in the input sequence. Lines whose
//! label is the noise value (`None`) are dropped; every other line is appended
//! to the group of its cluster id, in input order.

use vstd::prelude::*;
use std::collections::HashMap;

verus! {

broadcast use vstd::std_specs::hash::group_hash_axioms;

/// The lines of `data` labeled with cluster id `c`, in input order.
pub open spec fn grouped_lines(data: Seq<(String, Option<usize>)>, c: usize) -> Seq<String>
    decreases data.len(),
{
    if data.len() == 0 {
        Seq::empty()
    } else {
        let rest = grouped_lines(data.drop_last(), c);
        if data.last().1 == Some(c) {
            rest.push(data.last().0)
        } else {
            rest
        }
    }
}

/// The positions of `data` labeled with cluster id `c`, in increasing order.
pub open spec fn grouped_indices(data: Seq<(String, Option<usize>)>, c: usize) -> Seq<int>
    decreases data.len(),
{
    if data.len() == 0 {
        Seq::empty()
    } else {
        let rest = grouped_indices(data.drop_last(), c);
        if data.last().1 == Some(c) {
            rest.push(data.len() - 1)
        } else {
            rest
        }
    }
}

proof fn lemma_grouped_index_iff_one(data: Seq<(String, Option<usize>)>, c: usize, j: int)
    ensures
        grouped_indices(data, c).contains(j) <==> (0 <= j < data.len() && data[j].1 == Some(c)),
    decreases data.len(),
{
    broadcast use vstd::seq_lib::lemma_seq_contains_after_push;

    if data.len() > 0 {
        lemma_grouped_index_iff_one(data.drop_last(), c, j);
    }
}

/// Grouping assigns each input position to at most one group: a position
/// appears in the index sequence of cluster id `c` exactly when its label is
/// `Some(c)`, so index sequences of distinct ids are disjoint and a
/// noise-labeled position appears in none.
pub proof fn lemma_grouping_partitions(data: Seq<(String, Option<usize>)>)
    ensures
        forall|c: usize, j: int|
            #[trigger] grouped_indices(data, c).contains(j) <==> (0 <= j < data.len()
                && data[j].1 == Some(c)),
        forall|c1: usize, c2: usize, j: int|
            c1 != c2 ==> !(#[trigger] grouped_indices(data, c1).contains(j)
                && #[trigger] grouped_indices(data, c2).contains(j)),
        forall|c: usize, j: int|
            0 <= j < data.len() && data[j].1 is None ==> !(#[trigger] grouped_indices(
                data,
                c,
            ).contains(j)),
{
    assert forall|c: usize, j: int|
        #[trigger] grouped_indices(data, c).contains(j) <==> (0 <= j < data.len() && data[j].1
            == Some(c)) by {
        lemma_grouped_index_iff_one(data, c, j);
    }
}

/// Every grouped line is the line standing at one of the group's positions:
/// the lines of group `c` are exactly the lines indexed by `grouped_indices`,
/// so the union of all groups is drawn from the input lines alone.
pub proof fn lemma_grouped_lines_from_input(data: Seq<(String, Option<usize>)>, c: usize)
    ensures
        grouped_lines(data, c).len() == grouped_indices(data, c).len(),
        forall|i: int|
            0 <= i < grouped_lines(data, c).len() ==> (0 <= #[trigger] grouped_indices(data, c)[i]
                < data.len() && grouped_lines(data, c)[i] == data[grouped_indices(data, c)[i]].0
                && data[grouped_indices(data, c)[i]].1 == Some(c)),
    decreases data.len(),
{
    if data.len() > 0 {
        lemma_grouped_lines_from_input(data.drop_last(), c);
        lemma_grouping_partitions(data.drop_last());
        assert forall|i: int| 0 <= i < grouped_lines(data, c).len() implies (0
            <= #[trigger] grouped_indices(data, c)[i] < data.len() && grouped_lines(data, c)[i]
            == data[grouped_indices(data, c)[i]].0 && data[grouped_indices(data, c)[i]].1 == Some(
            c,
        )) by {
            let rest = grouped_lines(data.drop_last(), c);
            if i < rest.len() {
                let j = grouped_indices(data.drop_last(), c)[i];
                assert(grouped_lines(data.drop_last(), c)[i] == data.drop_last()[j].0);
                assert(data.drop_last()[j] == data[j]);
                assert(grouped_indices(data, c)[i] == j);
            } else {
                assert(data.last().1 == Some(c));
                assert(grouped_lines(data, c)[i] == data.last().0);
                assert(grouped_indices(data, c)[i] == data.len() - 1);
                assert(data.last() == data[data.len() - 1]);
            }
        }
    }
}

/// The input lines alone, in order: what grouping distributes.
pub open spec fn input_lines(data: Seq<(String, Option<usize>)>) -> Seq<String> {
    data.map_values(|p: (String, Option<usize>)| p.0)
}

/// A position is grouped exactly when its label is a cluster id: with the
/// disjointness of `lemma_grouping_partitions`, each labeled position lands
/// in exactly one group and each noise position in none, so the group sizes
/// add up to the number of labeled pairs.
pub proof fn lemma_position_grouped_iff_labeled(data: Seq<(String, Option<usize>)>, j: int)
    requires
        0 <= j < data.len(),
    ensures
        (data[j].1 is Some) <==> exists|c: usize| grouped_indices(data, c).contains(j),
{
    lemma_grouping_partitions(data);
    if data[j].1 is Some {
        let c = data[j].1->0;
        assert(grouped_indices(data, c).contains(j));
    }
}

/// The lines of one group are a sub-multiset of the input lines: grouping
/// neither invents a line nor raises a line's multiplicity.
pub proof fn lemma_group_lines_sub_multiset(data: Seq<(String, Option<usize>)>, c: usize)
    ensures
        grouped_lines(data, c).to_multiset().subset_of(input_lines(data).to_multiset()),
    decreases data.len(),
{
    broadcast use
        vstd::seq_lib::group_to_multiset_ensures,
        vstd::multiset::group_multiset_properties;

    if data.len() == 0 {
        assert(grouped_lines(data, c).to_multiset() =~= input_lines(data).to_multiset());
    } else {
        lemma_group_lines_sub_multiset(data.drop_last(), c);
        let last_line = data.last().0;
        assert(input_lines(data) =~= input_lines(data.drop_last()).push(last_line));
        assert(input_lines(data.drop_last()).push(last_line).to_multiset()
            =~= input_lines(data.drop_last()).to_multiset().insert(last_line));
        if data.last().1 == Some(c) {
            assert(grouped_lines(data.drop_last(), c).push(last_line).to_multiset()
                =~= grouped_lines(data.drop_last(), c).to_multiset().insert(last_line));
        }
        assert forall|x: String| grouped_lines(data, c).to_multiset().count(x)
            <= input_lines(data).to_multiset().count(x) by {
            assert(grouped_lines(data.drop_last(), c).to_multiset().count(x) <= input_lines(
                data.drop_last(),
            ).to_multiset().count(x));
        }
    }
}

/// Partitions `data` by cluster label: the group of id `c` holds, in input
/// order, exactly the lines labeled `Some(c)`; noise-labeled lines (`None`)
/// are inserted nowhere; a key is present exactly when some line carries it.
pub fn group_sentences_by_cluster(data: Vec<(String, Option<usize>)>) -> (grouped: HashMap<
    usize,
    Vec<String>,
>)
    ensures
        forall|c: usize|
            #[trigger] grouped@.contains_key(c) <==> grouped_lines(data@, c).len() > 0,
        forall|c: usize|
            #[trigger] grouped@.contains_key(c) ==> grouped@[c]@ == grouped_lines(data@, c),
{
    let mut grouped: HashMap<usize, Vec<String>> = HashMap::new();
    let n = data.len();
    let mut i: usize = 0;
    while i < n
        invariant
            n == data.len(),
            i <= n,
            forall|c: usize|
                #[trigger] grouped@.contains_key(c) <==> grouped_lines(
                    data@.take(i as int),
                    c,
                ).len() > 0,
            forall|c: usize|
                #[trigger] grouped@.contains_key(c) ==> grouped@[c]@ == grouped_lines(
                    data@.take(i as int),
                    c,
                ),
        decreases n - i,
    {
        proof {
            assert(data@.take(i + 1 as int).drop_last() =~= data@.take(i as int));
            assert(data@.take(i + 1 as int).last() == data@[i as int]);
        }
        let label = data[i].1;
        if let Some(c) = label {
            let sentence = data[i].0.clone();
            let mut group: Vec<String> = match grouped.remove(&c) {
                Some(g) => g,
                None => Vec::new(),
            };
            group.push(sentence);
            grouped.insert(c, group);
        }
        i = i + 1;
    }
    proof {
        assert(data@.take(n as int) =~= data@);
    }
    grouped
}

} // verus!
