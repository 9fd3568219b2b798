//! Candidate maps: symbol name to proposed address, kept as a list in which
//! each name stands once.
use vstd::prelude::*;

use crate::db::lemma_first_unique;

verus! {

/// Index `i` holds the first entry of `c` for the name `n`.
pub open spec fn cand_first(c: Seq<(String, u64)>, n: Seq<char>, i: int) -> bool {
    &&& 0 <= i < c.len()
    &&& c[i].0@ == n
    &&& forall|j: int| 0 <= j < i ==> c[j].0@ != n
}

/// No name stands twice in the candidate map `c`.
pub open spec fn cands_distinct(c: Seq<(String, u64)>) -> bool {
    forall|i: int, j: int| 0 <= i < j < c.len() ==> c[i].0@ != c[j].0@
}

/// The address that the candidate map `c` proposes for `n`.
pub open spec fn find_cand(c: Seq<(String, u64)>, n: Seq<char>) -> Option<u64> {
    if exists|i: int| cand_first(c, n, i) {
        Some(c[choose|i: int| cand_first(c, n, i)].1)
    } else {
        None
    }
}

/// The address that the last proposal for `n` in `props` names: what a map
/// holds after the proposals are inserted in order.
pub open spec fn last_proposal(props: Seq<(Seq<char>, u64)>, n: Seq<char>) -> Option<u64>
    decreases props.len(),
{
    if props.len() == 0 {
        None
    } else if props.last().0 == n {
        Some(props.last().1)
    } else {
        last_proposal(props.drop_last(), n)
    }
}

proof fn lemma_cand_at(c: Seq<(String, u64)>, n: Seq<char>, i: int)
    requires
        cand_first(c, n, i),
    ensures
        find_cand(c, n) == Some(c[i].1),
{
    let k = choose|k: int| cand_first(c, n, k);
    lemma_first_unique(|j: int| cand_first(c, n, j), |j: int| c[j].0@ == n, i, k);
}

/// Adding the proposal `p` after `props` changes the map at `p.0` alone.
pub proof fn lemma_last_push(props: Seq<(Seq<char>, u64)>, p: (Seq<char>, u64), n: Seq<char>)
    ensures
        last_proposal(props.push(p), n) == if p.0 == n {
            Some(p.1)
        } else {
            last_proposal(props, n)
        },
{
    assert(props.push(p).drop_last() == props);
}

/// Filtering one more element of `s` extends the filtered prefix by it
/// where it passes.
pub proof fn lemma_filter_step<A>(s: Seq<A>, p: spec_fn(A) -> bool, i: int)
    requires
        0 <= i < s.len(),
    ensures
        s.subrange(0, i + 1).filter(p) == if p(s[i]) {
            s.subrange(0, i).filter(p).push(s[i])
        } else {
            s.subrange(0, i).filter(p)
        },
{
    reveal(Seq::filter);
    assert(s.subrange(0, i + 1).drop_last() == s.subrange(0, i));
}

/// Proposes `addr` for `name`, replacing an earlier proposal for it.
pub fn propose(c: &mut Vec<(String, u64)>, name: String, addr: u64)
    ensures
        find_cand(final(c)@, name@) == Some(addr),
        cands_distinct(old(c)@) ==> cands_distinct(final(c)@),
        forall|n: Seq<char>| n != name@ ==> find_cand(final(c)@, n) == find_cand(old(c)@, n),
{
    let ghost before = c@;
    let mut i: usize = 0;
    let mut found = false;
    while i < c.len()
        invariant
            c@ == before,
            0 <= i <= c.len(),
            found ==> i < c.len() && c@[i as int].0@ == name@,
            forall|j: int| 0 <= j < i ==> c@[j].0@ != name@,
        ensures
            c@ == before,
            found ==> i < c.len() && c@[i as int].0@ == name@,
            !found ==> i == c.len(),
            forall|j: int| 0 <= j < i ==> c@[j].0@ != name@,
        decreases c.len() - i,
    {
        if c[i].0 == name {
            found = true;
            break;
        }
        i += 1;
    }
    if found {
        let ghost key = name@;
        c.set(i, (name, addr));
        proof {
            let after = c@;
            lemma_cand_at(after, key, i as int);
            assert forall|n: Seq<char>| n != key implies find_cand(after, n) == find_cand(before, n) by {
                assert forall|j: int| 0 <= j < after.len() implies (after[j].0@ == n) == (before[j].0@ == n) by {
                    if j == i {
                        assert(after[j].0@ == key);
                    }
                }
                assert forall|k: int| cand_first(after, n, k) <==> cand_first(before, n, k) by {}
                if exists|k: int| cand_first(before, n, k) {
                    let k = choose|k: int| cand_first(before, n, k);
                    lemma_cand_at(before, n, k);
                    lemma_cand_at(after, n, k);
                }
            }
        }
    } else {
        let ghost key = name@;
        c.push((name, addr));
        proof {
            let after = c@;
            lemma_cand_at(after, key, before.len() as int);
            assert forall|n: Seq<char>| n != key implies find_cand(after, n) == find_cand(before, n) by {
                assert forall|j: int| 0 <= j < before.len() implies (after[j].0@ == n) == (before[j].0@ == n) by {}
                assert(after[before.len() as int].0@ != n);
                assert forall|k: int| cand_first(after, n, k) <==> cand_first(before, n, k) by {}
                if exists|k: int| cand_first(before, n, k) {
                    let k = choose|k: int| cand_first(before, n, k);
                    lemma_cand_at(before, n, k);
                    lemma_cand_at(after, n, k);
                }
            }
        }
    }
}

} // verus!
