use vstd::prelude::*;

verus! {

/// Number of ballots in `ids` that name choice `c`.
pub open spec fn votes_for(ids: Seq<u64>, c: u64) -> nat
    decreases ids.len(),
{
    if ids.len() == 0 {
        0
    } else {
        votes_for(ids.drop_last(), c) + if ids.last() == c {
            1nat
        } else {
            0nat
        }
    }
}

/// The choice identifiers of a sequence of `(choice, count)` pairs.
pub open spec fn keys(s: Seq<(u64, u64)>) -> Seq<u64> {
    s.map_values(|p: (u64, u64)| p.0)
}

/// No choice appears twice among the pairs.
pub open spec fn keys_unique(s: Seq<(u64, u64)>) -> bool {
    forall|i: int, j: int| 0 <= i < j < s.len() ==> #[trigger] s[i].0 != #[trigger] s[j].0
}

/// The pairs are ordered by count, highest first.
pub open spec fn by_count_desc(s: Seq<(u64, u64)>) -> bool {
    forall|i: int, j: int| 0 <= i < j < s.len() ==> #[trigger] s[i].1 >= #[trigger] s[j].1
}

/// `s` holds one pair for each choice named in `ids`, with its number of votes.
pub open spec fn is_tally_of(s: Seq<(u64, u64)>, ids: Seq<u64>) -> bool {
    &&& keys_unique(s)
    &&& forall|i: int| 0 <= i < s.len() ==> #[trigger] s[i].1 == votes_for(ids, s[i].0)
    &&& forall|c: u64| ids.contains(c) <==> keys(s).contains(c)
}

proof fn lemma_votes_push(ids: Seq<u64>, x: u64, c: u64)
    ensures
        votes_for(ids.push(x), c) == votes_for(ids, c) + if x == c {
            1nat
        } else {
            0nat
        },
{
    assert(ids.push(x).drop_last() =~= ids);
}

proof fn lemma_votes_bounded(ids: Seq<u64>, c: u64)
    ensures
        votes_for(ids, c) <= ids.len(),
        votes_for(ids, c) > 0 <==> ids.contains(c),
    decreases ids.len(),
{
    if ids.len() > 0 {
        lemma_votes_bounded(ids.drop_last(), c);
        let d = ids.drop_last();
        assert(ids =~= d.push(ids.last()));
        if d.contains(c) {
            let k = choose|k: int| 0 <= k < d.len() && d[k] == c;
            assert(ids[k] == c);
        }
        if ids.contains(c) && ids.last() != c {
            let k = choose|k: int| 0 <= k < ids.len() && ids[k] == c;
            assert(d[k] == c);
        }
        if ids.last() == c {
            assert(ids[ids.len() - 1] == c);
        }
    }
}

/// Counts the votes of each choice named in `ids`.
pub fn count_choices(ids: &Vec<u64>) -> (r: Vec<(u64, u64)>)
    ensures
        is_tally_of(r@, ids@),
{
    let mut counts: Vec<(u64, u64)> = Vec::new();
    let mut i: usize = 0;
    while i < ids.len()
        invariant
            i <= ids.len(),
            is_tally_of(counts@, ids@.subrange(0, i as int)),
        decreases ids.len() - i,
    {
        let id = ids[i];
        let ghost seen = ids@.subrange(0, i as int);
        proof {
            assert(ids@.subrange(0, i + 1) =~= seen.push(id));
            assert forall|c: u64| #[trigger] votes_for(seen.push(id), c) == votes_for(seen, c) + if id == c {
                1nat
            } else {
                0nat
            } by {
                lemma_votes_push(seen, id, c);
            }
        }
        let mut j: usize = 0;
        let mut found = false;
        while j < counts.len() && !found
            invariant
                i < ids.len(),
                j <= counts.len(),
                is_tally_of(counts@, seen),
                found ==> j < counts.len() && counts@[j as int].0 == id,
                !found ==> forall|k: int| 0 <= k < j ==> #[trigger] counts@[k].0 != id,
            decreases counts.len() - j + if found { 0int } else { 1int },
        {
            if counts[j].0 == id {
                found = true;
            } else {
                j = j + 1;
            }
        }
        if found {
            let ghost old_counts = counts@;
            proof {
                lemma_votes_bounded(seen, id);
            }
            let n = counts[j].1;
            counts.set(j, (id, n + 1));
            proof {
                assert(keys(counts@) =~= keys(old_counts));
                assert forall|c: u64| ids@.subrange(0, i + 1).contains(c) <==> keys(counts@).contains(c) by {
                    if c == id {
                        assert(keys(counts@)[j as int] == id);
                        assert(seen.push(id)[i as int] == id);
                    } else if seen.push(id).contains(c) {
                        let k = choose|k: int| 0 <= k < seen.push(id).len() && seen.push(id)[k] == c;
                        assert(seen[k] == c);
                    }
                    if seen.contains(c) {
                        let k = choose|k: int| 0 <= k < seen.len() && seen[k] == c;
                        assert(seen.push(id)[k] == c);
                    }
                }
            }
        } else {
            let ghost old_counts = counts@;
            counts.push((id, 1));
            proof {
                lemma_votes_bounded(seen, id);
                assert(!keys(old_counts).contains(id)) by {
                    if keys(old_counts).contains(id) {
                        let k = choose|k: int| 0 <= k < keys(old_counts).len() && keys(old_counts)[k] == id;
                        assert(old_counts[k].0 == id);
                    }
                }
                assert(keys(counts@) =~= keys(old_counts).push(id));
                assert forall|c: u64| ids@.subrange(0, i + 1).contains(c) <==> keys(counts@).contains(c) by {
                    if c == id {
                        assert(keys(counts@)[old_counts.len() as int] == id);
                        assert(seen.push(id)[i as int] == id);
                    } else {
                        if seen.push(id).contains(c) {
                            let k = choose|k: int| 0 <= k < seen.push(id).len() && seen.push(id)[k] == c;
                            assert(seen[k] == c);
                        }
                        if seen.contains(c) {
                            let k = choose|k: int| 0 <= k < seen.len() && seen[k] == c;
                            assert(seen.push(id)[k] == c);
                        }
                        if keys(counts@).contains(c) {
                            let k = choose|k: int| 0 <= k < keys(counts@).len() && keys(counts@)[k] == c;
                            assert(keys(old_counts)[k] == c);
                        }
                        if keys(old_counts).contains(c) {
                            let k = choose|k: int| 0 <= k < keys(old_counts).len() && keys(old_counts)[k] == c;
                            assert(keys(counts@)[k] == c);
                        }
                    }
                }
                assert forall|a: int, b: int| 0 <= a < b < counts@.len() implies #[trigger] counts@[a].0 != #[trigger] counts@[b].0 by {
                    if b == old_counts.len() {
                        assert(keys(old_counts)[a] == old_counts[a].0);
                    }
                }
            }
        }
        i = i + 1;
    }
    proof {
        assert(ids@.subrange(0, ids@.len() as int) =~= ids@);
    }
    counts
}

} // verus!

verus! {

/// Relies on `counter::Counter`'s `FromIterator<(T, N)>` and `Counter::most_common`: the pairs,
/// each choice once (equal keys would be summed, and here there are none), ordered by count,
/// highest first. Among equal counts the order is whatever the counter's hash map yields.
#[verifier::external_body]
fn most_common(counts: Vec<(u64, u64)>) -> (r: Vec<(u64, u64)>)
    requires
        keys_unique(counts@),
    ensures
        r@.len() == counts@.len(),
        keys_unique(r@),
        by_count_desc(r@),
        forall|i: int| 0 <= i < r@.len() ==> counts@.contains(#[trigger] r@[i]),
        forall|i: int| 0 <= i < counts@.len() ==> r@.contains(#[trigger] counts@[i]),
{
    counts.into_iter().collect::<counter::Counter<u64, u64>>().most_common()
}

/// The tally of `ids`, ordered by count, highest first. Ties come in no particular order.
pub fn ranked_counts(ids: &Vec<u64>) -> (r: Vec<(u64, u64)>)
    ensures
        is_tally_of(r@, ids@),
        by_count_desc(r@),
{
    let counts = count_choices(ids);
    let ghost c = counts@;
    let r = most_common(counts);
    proof {
        assert forall|x: u64| ids@.contains(x) <==> keys(r@).contains(x) by {
            if keys(c).contains(x) {
                let k = choose|k: int| 0 <= k < keys(c).len() && keys(c)[k] == x;
                assert(c.contains(c[k]));
                assert(r@.contains(c[k]));
                let m = choose|m: int| 0 <= m < r@.len() && r@[m] == c[k];
                assert(keys(r@)[m] == x);
            }
            if keys(r@).contains(x) {
                let m = choose|m: int| 0 <= m < keys(r@).len() && keys(r@)[m] == x;
                assert(c.contains(r@[m]));
                let k = choose|k: int| 0 <= k < c.len() && c[k] == r@[m];
                assert(keys(c)[k] == x);
            }
        }
        assert forall|i: int| 0 <= i < r@.len() implies #[trigger] r@[i].1 == votes_for(ids@, r@[i].0) by {
            assert(c.contains(r@[i]));
        }
    }
    r
}

proof fn lemma_votes_multiset(ids: Seq<u64>, c: u64)
    ensures
        votes_for(ids, c) == ids.to_multiset().count(c),
    decreases ids.len(),
{
    broadcast use vstd::multiset::group_multiset_axioms;

    if ids.len() == 0 {
        ids.to_multiset_ensures();
        assert(!ids.contains(c));
    } else {
        let d = ids.drop_last();
        lemma_votes_multiset(d, c);
        assert(ids =~= d.push(ids.last()));
        vstd::seq_lib::to_multiset_build(d, ids.last());
    }
}

/// The count of each choice does not depend on the order of the ballots: two tallies of the
/// same ballots, taken in any two orders, name the same choices with the same counts.
pub proof fn lemma_counts_ignore_order(a: Seq<u64>, b: Seq<u64>, sa: Seq<(u64, u64)>, sb: Seq<(u64, u64)>)
    requires
        a.to_multiset() == b.to_multiset(),
        is_tally_of(sa, a),
        is_tally_of(sb, b),
    ensures
        forall|c: u64| keys(sa).contains(c) <==> keys(sb).contains(c),
        forall|i: int, j: int|
            0 <= i < sa.len() && 0 <= j < sb.len() && #[trigger] sa[i].0 == #[trigger] sb[j].0
                ==> sa[i].1 == sb[j].1,
{
    assert forall|c: u64| votes_for(a, c) == votes_for(b, c) by {
        lemma_votes_multiset(a, c);
        lemma_votes_multiset(b, c);
    }
    assert forall|c: u64| keys(sa).contains(c) <==> keys(sb).contains(c) by {
        a.to_multiset_ensures();
        b.to_multiset_ensures();
        assert(a.contains(c) <==> a.to_multiset().count(c) > 0);
        assert(b.contains(c) <==> b.to_multiset().count(c) > 0);
    }
    assert forall|i: int, j: int|
        0 <= i < sa.len() && 0 <= j < sb.len() && #[trigger] sa[i].0 == #[trigger] sb[j].0
            implies sa[i].1 == sb[j].1 by {
        assert(votes_for(a, sa[i].0) == votes_for(b, sb[j].0));
    }
}

/// The first pair of an ordered tally has the most votes of all choices.
pub proof fn lemma_first_has_most_votes(s: Seq<(u64, u64)>, ids: Seq<u64>, c: u64)
    requires
        is_tally_of(s, ids),
        by_count_desc(s),
        s.len() > 0,
    ensures
        votes_for(ids, c) <= votes_for(ids, s[0].0),
{
    lemma_votes_bounded(ids, c);
    if ids.contains(c) {
        assert(keys(s).contains(c));
        let k = choose|k: int| 0 <= k < keys(s).len() && keys(s)[k] == c;
        assert(s[k].0 == c);
        if k > 0 {
            assert(s[0].1 >= s[k].1);
        }
    }
}

} // verus!
