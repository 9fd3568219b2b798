//! The bind ledger: for each symbol name, how sure the run is of its
//! address, and the protocol that folds new candidates into it.
use vstd::prelude::*;

use crate::db::lemma_first_unique;
use crate::keyed::lemma_filter_step;

verus! {

/// The confidence state of one symbol.
#[derive(Clone, Debug)]
pub enum Bind {
    /// One proposed address, not confirmed.
    Unverified(u64),
    /// A confirmed address; never changed afterwards.
    Verified(u64),
    /// Addresses known to be wrong for the symbol, in the order they were
    /// rejected.
    Not(Vec<u64>),
    /// The symbol was inlined into its callers and has no address of its own.
    Inline,
}

/// The value of a `Bind` in contracts.
pub enum BindModel {
    Unverified(u64),
    Verified(u64),
    Not(Seq<u64>),
    Inline,
}

impl View for Bind {
    type V = BindModel;

    open spec fn view(&self) -> BindModel {
        match self {
            Bind::Unverified(a) => BindModel::Unverified(*a),
            Bind::Verified(a) => BindModel::Verified(*a),
            Bind::Not(l) => BindModel::Not(l@),
            Bind::Inline => BindModel::Inline,
        }
    }
}

/// The address a state resolves to: the one of an unverified or verified bind.
pub open spec fn addr_of(b: BindModel) -> Option<u64> {
    match b {
        BindModel::Unverified(a) => Some(a),
        BindModel::Verified(a) => Some(a),
        _ => None,
    }
}

impl Bind {
    /// The address this bind resolves to, if any.
    pub fn get_addr(&self) -> (r: Option<u64>)
        ensures
            r == addr_of(self@),
    {
        match self {
            Bind::Unverified(a) => Some(*a),
            Bind::Verified(a) => Some(*a),
            _ => None,
        }
    }

    /// Whether this bind marks an inlined symbol.
    pub fn is_inline(&self) -> (r: bool)
        ensures
            r == (self@ == BindModel::Inline),
    {
        match self {
            Bind::Inline => true,
            _ => false,
        }
    }
}

/// The ledger: symbol name to bind. A name is looked up at its first entry.
#[derive(Clone, Debug)]
pub struct BindDB {
    pub binds: Vec<(String, Bind)>,
}

/// Index `i` holds the first entry of `binds` for the name `n`.
pub open spec fn bind_first(binds: Seq<(String, Bind)>, n: Seq<char>, i: int) -> bool {
    &&& 0 <= i < binds.len()
    &&& binds[i].0@ == n
    &&& forall|j: int| 0 <= j < i ==> binds[j].0@ != n
}

/// The state of the symbol `n` in the ledger, if it has one.
pub open spec fn find_bind(binds: Seq<(String, Bind)>, n: Seq<char>) -> Option<BindModel> {
    if exists|i: int| bind_first(binds, n, i) {
        Some(binds[choose|i: int| bind_first(binds, n, i)].1@)
    } else {
        None
    }
}

/// The address that the ledger resolves the symbol `n` to, if any.
pub open spec fn resolved(binds: Seq<(String, Bind)>, n: Seq<char>) -> Option<u64> {
    match find_bind(binds, n) {
        Some(b) => addr_of(b),
        None => None,
    }
}

/// An entry that survives stripping: anything but an unverified bind.
pub open spec fn kept_by_strip() -> spec_fn((String, Bind)) -> bool {
    |e: (String, Bind)| !(e.1@ is Unverified)
}

/// No two entries of `s` share a name.
pub open spec fn names_distinct(s: Seq<(String, Bind)>) -> bool {
    forall|i: int, j: int| 0 <= i < s.len() && 0 <= j < s.len() && i != j ==> s[i].0@ != s[j].0@
}

proof fn lemma_filter_keeps_names_distinct(s: Seq<(String, Bind)>, p: spec_fn((String, Bind)) -> bool)
    requires
        names_distinct(s),
    ensures
        names_distinct(s.filter(p)),
    decreases s.len(),
{
    reveal(Seq::filter);
    if s.len() > 0 {
        let rest = s.drop_last();
        assert(names_distinct(rest)) by {
            assert forall|i: int, j: int| 0 <= i < rest.len() && 0 <= j < rest.len() && i != j implies rest[i].0@ != rest[j].0@ by {
                assert(rest[i] == s[i] && rest[j] == s[j]);
            }
        }
        lemma_filter_keeps_names_distinct(rest, p);
        let f = rest.filter(p);
        if p(s.last()) {
            let g = f.push(s.last());
            assert forall|i: int, j: int| 0 <= i < g.len() && 0 <= j < g.len() && i != j implies g[i].0@ != g[j].0@ by {
                if i == f.len() || j == f.len() {
                    let k = if i == f.len() { j } else { i };
                    assert(f.contains(f[k]));
                    rest.lemma_filter_contains_rev(p, f[k]);
                    let m = choose|m: int| 0 <= m < rest.len() && rest[m] == f[k];
                    assert(s[m] == f[k]);
                    assert(s[s.len() - 1] == s.last());
                }
            }
        }
    }
}

/// Entry `i` is unverified at an address that another entry is also
/// unverified at.
pub open spec fn collides(binds: Seq<(String, Bind)>, i: int) -> bool {
    &&& binds[i].1@ is Unverified
    &&& exists|j: int| 0 <= j < binds.len() && j != i && binds[j].1@ == binds[i].1@
}

/// The next move of the merge of one candidate.
pub enum MergeOutcome {
    /// A human must be asked whether the symbol lives at this address.
    Ask(u64),
    /// The symbol's state becomes this one.
    Become(BindModel),
    /// The ledger stays as it is.
    Keep,
}

/// The merge of the candidate `addr` into the state `cur` of one symbol,
/// given the answers to the questions asked so far, in order.
pub open spec fn merge_step(cur: Option<BindModel>, addr: u64, answers: Seq<bool>) -> MergeOutcome {
    match cur {
        None => MergeOutcome::Become(BindModel::Unverified(addr)),
        Some(BindModel::Unverified(a)) => {
            if a == addr {
                MergeOutcome::Keep
            } else if answers.len() == 0 {
                MergeOutcome::Ask(addr)
            } else if answers[0] {
                MergeOutcome::Become(BindModel::Verified(addr))
            } else if answers.len() == 1 {
                MergeOutcome::Ask(a)
            } else if answers[1] {
                MergeOutcome::Become(BindModel::Verified(a))
            } else {
                MergeOutcome::Become(BindModel::Not(seq![a, addr]))
            }
        },
        Some(BindModel::Not(l)) => {
            if l.contains(addr) {
                MergeOutcome::Keep
            } else if answers.len() == 0 {
                MergeOutcome::Ask(addr)
            } else if answers[0] {
                MergeOutcome::Become(BindModel::Verified(addr))
            } else {
                MergeOutcome::Become(BindModel::Not(l.push(addr)))
            }
        },
        Some(BindModel::Verified(_)) => MergeOutcome::Keep,
        Some(BindModel::Inline) => MergeOutcome::Keep,
    }
}

proof fn lemma_find_at(binds: Seq<(String, Bind)>, n: Seq<char>, i: int)
    requires
        bind_first(binds, n, i),
    ensures
        find_bind(binds, n) == Some(binds[i].1@),
{
    let c = choose|k: int| bind_first(binds, n, k);
    lemma_first_unique(|k: int| bind_first(binds, n, k), |k: int| binds[k].0@ == n, i, c);
}

/// The states a symbol may pass to in one merge: an absent symbol becomes
/// unverified; an unverified one becomes verified or rejected; a rejected
/// one becomes verified or keeps its rejections and gains new ones; a
/// verified or inlined symbol never changes.
pub open spec fn may_follow(before: Option<BindModel>, after: BindModel) -> bool {
    match before {
        None => after is Unverified,
        Some(BindModel::Unverified(_)) => after is Verified || after is Not,
        Some(BindModel::Not(l)) => match after {
            BindModel::Verified(_) => true,
            BindModel::Not(l2) => l2.len() > l.len() && l2.subrange(0, l.len() as int) == l,
            _ => false,
        },
        Some(BindModel::Verified(_)) => false,
        Some(BindModel::Inline) => false,
    }
}

/// A state whose list of rejected addresses, if it has one, holds no
/// address twice.
pub open spec fn rejections_distinct(b: Option<BindModel>) -> bool {
    match b {
        Some(BindModel::Not(l)) => l.no_duplicates(),
        _ => true,
    }
}

/// Every change that a merge makes to a symbol's state is one that
/// `may_follow` allows, and a list of rejected addresses without repeats
/// stays without repeats.
pub proof fn merge_is_monotonic(cur: Option<BindModel>, addr: u64, answers: Seq<bool>)
    ensures
        match merge_step(cur, addr, answers) {
            MergeOutcome::Become(b) => may_follow(cur, b),
            _ => true,
        },
        rejections_distinct(cur) ==> match merge_step(cur, addr, answers) {
            MergeOutcome::Become(b) => rejections_distinct(Some(b)),
            _ => true,
        },
{
    match cur {
        Some(BindModel::Not(l)) => {
            let l2 = l.push(addr);
            assert(l2.subrange(0, l.len() as int) == l);
            if !l.contains(addr) && l.no_duplicates() {
                assert forall|i: int, j: int| 0 <= i < l2.len() && 0 <= j < l2.len() && i != j
                    implies l2[i] != l2[j] by {
                    if i == l.len() {
                        assert(l.contains(l2[j]));
                    } else if j == l.len() {
                        assert(l.contains(l2[i]));
                    }
                }
            }
        },
        Some(BindModel::Unverified(a)) => {
            let l2 = seq![a, addr];
            if a != addr {
                assert(l2[0] != l2[1]);
            }
        },
        _ => {},
    }
}

/// Merging a candidate that agrees with an unverified bind asks nothing and
/// changes nothing; so merging the same candidate twice into an absent
/// symbol leaves it unverified at that address.
pub proof fn merge_corroboration_idempotent(addr: u64, first: Seq<bool>, second: Seq<bool>)
    ensures
        merge_step(None, addr, first) == MergeOutcome::Become(BindModel::Unverified(addr)),
        merge_step(Some(BindModel::Unverified(addr)), addr, second) == MergeOutcome::Keep,
{
}

fn contains_addr(v: &Vec<u64>, x: u64) -> (r: bool)
    ensures
        r == v@.contains(x),
{
    let mut i: usize = 0;
    while i < v.len()
        invariant
            0 <= i <= v.len(),
            forall|j: int| 0 <= j < i ==> v@[j] != x,
        decreases v.len() - i,
    {
        if v[i] == x {
            return true;
        }
        i += 1;
    }
    false
}

fn pushed(v: &Vec<u64>, x: u64) -> (r: Vec<u64>)
    ensures
        r@ == v@.push(x),
{
    let mut r: Vec<u64> = Vec::new();
    let mut i: usize = 0;
    while i < v.len()
        invariant
            0 <= i <= v.len(),
            r@ == v@.subrange(0, i as int),
        decreases v.len() - i,
    {
        r.push(v[i]);
        i += 1;
    }
    assert(r@ == v@);
    r.push(x);
    r
}

impl BindDB {
    /// Each symbol has at most one entry.
    pub open spec fn wf(&self) -> bool {
        names_distinct(self.binds@)
    }

    /// A ledger with no entries.
    pub fn empty() -> (r: BindDB)
        ensures
            r.wf(),
            r.binds@.len() == 0,
            forall|n: Seq<char>| find_bind(r.binds@, n).is_none(),
    {
        BindDB { binds: Vec::new() }
    }

    fn position(&self, name: &String) -> (r: Option<usize>)
        ensures
            match r {
                Some(i) => bind_first(self.binds@, name@, i as int),
                None => forall|j: int| 0 <= j < self.binds@.len() ==> self.binds@[j].0@ != name@,
            },
    {
        let mut i: usize = 0;
        while i < self.binds.len()
            invariant
                0 <= i <= self.binds.len(),
                forall|j: int| 0 <= j < i ==> self.binds@[j].0@ != name@,
            decreases self.binds.len() - i,
        {
            if self.binds[i].0 == *name {
                return Some(i);
            }
            i += 1;
        }
        None
    }

    /// The bind of the symbol `name`.
    pub fn get(&self, name: &String) -> (r: Option<&Bind>)
        ensures
            match r {
                Some(b) => find_bind(self.binds@, name@) == Some(b@),
                None => find_bind(self.binds@, name@).is_none(),
            },
    {
        match self.position(name) {
            Some(i) => {
                proof {
                    lemma_find_at(self.binds@, name@, i as int);
                }
                Some(&self.binds[i].1)
            },
            None => None,
        }
    }

    /// The address that the ledger resolves `name` to.
    pub fn resolve(&self, name: &String) -> (r: Option<u64>)
        ensures
            r == resolved(self.binds@, name@),
    {
        match self.get(name) {
            Some(b) => b.get_addr(),
            None => None,
        }
    }

    /// Gives the symbol `name` the state `b`; every other symbol keeps its own.
    pub fn set(&mut self, name: &String, b: Bind)
        ensures
            old(self).wf() ==> final(self).wf(),
            find_bind(final(self).binds@, name@) == Some(b@),
            forall|n: Seq<char>|
                n != name@ ==> find_bind(final(self).binds@, n) == find_bind(old(self).binds@, n),
    {
        let ghost before = self.binds@;
        match self.position(name) {
            Some(i) => {
                let ghost bv = b@;
                self.binds.set(i, (name.clone(), b));
                proof {
                    let after = self.binds@;
                    lemma_find_at(after, name@, i as int);
                    assert forall|n: Seq<char>| n != name@ implies find_bind(after, n) == find_bind(before, n) by {
                        assert forall|j: int| 0 <= j < after.len() implies (after[j].0@ == n) == (before[j].0@ == n) by {
                            if j == i {
                                assert(after[j].0@ == name@);
                            }
                        }
                        assert forall|k: int| bind_first(after, n, k) <==> bind_first(before, n, k) by {}
                        if exists|k: int| bind_first(before, n, k) {
                            let k = choose|k: int| bind_first(before, n, k);
                            lemma_find_at(before, n, k);
                            lemma_find_at(after, n, k);
                        }
                    }
                }
            },
            None => {
                self.binds.push((name.clone(), b));
                proof {
                    let after = self.binds@;
                    lemma_find_at(after, name@, before.len() as int);
                    assert forall|n: Seq<char>| n != name@ implies find_bind(after, n) == find_bind(before, n) by {
                        assert forall|j: int| 0 <= j < before.len() implies (after[j].0@ == n) == (before[j].0@ == n) by {}
                        assert(after[before.len() as int].0@ != n);
                        assert forall|k: int| bind_first(after, n, k) <==> bind_first(before, n, k) by {}
                        if exists|k: int| bind_first(before, n, k) {
                            let k = choose|k: int| bind_first(before, n, k);
                            lemma_find_at(before, n, k);
                            lemma_find_at(after, n, k);
                        }
                    }
                }
            },
        }
    }
    /// Folds the candidate `addr` for the symbol `name` into the ledger.
    /// `answers` holds the replies, in order, to the questions this
    /// candidate has raised so far. Returns the address that a human must
    /// be asked about next, with the ledger left as it is; or none once the
    /// candidate has been merged.
    pub fn merge(&mut self, name: &String, addr: u64, answers: &Vec<bool>) -> (r: Option<u64>)
        ensures
            match merge_step(find_bind(old(self).binds@, name@), addr, answers@) {
                MergeOutcome::Ask(a) => r == Some(a) && final(self).binds@ == old(self).binds@,
                MergeOutcome::Become(b) => {
                    &&& r.is_none()
                    &&& find_bind(final(self).binds@, name@) == Some(b)
                    &&& forall|n: Seq<char>|
                        n != name@ ==> find_bind(final(self).binds@, n) == find_bind(
                            old(self).binds@,
                            n,
                        )
                },
                MergeOutcome::Keep => r.is_none() && final(self).binds@ == old(self).binds@,
            },
            forall|n: Seq<char>|
                find_bind(final(self).binds@, n) == find_bind(old(self).binds@, n) || (n == name@
                    && may_follow(find_bind(old(self).binds@, n), find_bind(final(self).binds@, n).unwrap())),
            old(self).wf() ==> final(self).wf(),
    {
        proof {
            merge_is_monotonic(find_bind(self.binds@, name@), addr, answers@);
        }
        let step: (Option<u64>, Option<Bind>) = match self.get(name) {
            None => (None, Some(Bind::Unverified(addr))),
            Some(Bind::Unverified(a)) => {
                let a = *a;
                if a == addr {
                    (None, None)
                } else if answers.len() == 0 {
                    (Some(addr), None)
                } else if answers[0] {
                    (None, Some(Bind::Verified(addr)))
                } else if answers.len() == 1 {
                    (Some(a), None)
                } else if answers[1] {
                    (None, Some(Bind::Verified(a)))
                } else {
                    let l: Vec<u64> = vec![a, addr];
                    assert(l@ == seq![a, addr]);
                    (None, Some(Bind::Not(l)))
                }
            },
            Some(Bind::Not(l)) => {
                if contains_addr(l, addr) {
                    (None, None)
                } else if answers.len() == 0 {
                    (Some(addr), None)
                } else if answers[0] {
                    (None, Some(Bind::Verified(addr)))
                } else {
                    (None, Some(Bind::Not(pushed(l, addr))))
                }
            },
            Some(_) => (None, None),
        };
        match step.1 {
            Some(b) => self.set(name, b),
            None => {},
        }
        step.0
    }
    /// Removes every unverified entry, keeping the others in order, and
    /// returns how many were removed.
    pub fn strip_unverified(&mut self) -> (r: usize)
        ensures
            final(self).binds@ == old(self).binds@.filter(kept_by_strip()),
            r == old(self).binds@.len() - final(self).binds@.len(),
            old(self).wf() ==> final(self).wf(),
    {
        let ghost before = self.binds@;
        let n0 = self.binds.len();
        assert(before.len() == n0);
        let ghost mut j: int = 0;
        let mut removed: usize = 0;
        let mut i: usize = 0;
        while i < self.binds.len()
            invariant
                0 <= j <= before.len(),
                0 <= i <= self.binds@.len(),
                self.binds@.subrange(0, i as int) == before.subrange(0, j).filter(kept_by_strip()),
                self.binds@.subrange(i as int, self.binds@.len() as int) == before.subrange(j, before.len() as int),
                removed as int == j - i,
                before.len() <= usize::MAX,
            decreases self.binds.len() - i,
        {
            let ghost cur = self.binds@;
            assert(cur.subrange(i as int, cur.len() as int).len() == before.subrange(j, before.len() as int).len());
            assert(j < before.len());
            assert(cur[i as int] == cur.subrange(i as int, cur.len() as int)[0]);
            assert(before[j] == before.subrange(j, before.len() as int)[0]);
            proof {
                lemma_filter_step(before, kept_by_strip(), j);
            }
            let unverified = match &self.binds[i].1 {
                Bind::Unverified(_) => true,
                _ => false,
            };
            if unverified {
                let _ = self.binds.remove(i);
                removed += 1;
                proof {
                    let now = self.binds@;
                    assert(now.subrange(0, i as int) == cur.subrange(0, i as int));
                    assert(now.subrange(i as int, now.len() as int) == cur.subrange(i + 1, cur.len() as int));
                    assert(cur.subrange(i + 1, cur.len() as int) == cur.subrange(i as int, cur.len() as int).drop_first());
                    assert(before.subrange(j + 1, before.len() as int) == before.subrange(j, before.len() as int).drop_first());
                    j = j + 1;
                }
            } else {
                i += 1;
                proof {
                    assert(cur.subrange(0, i as int) == cur.subrange(0, i - 1).push(cur[i - 1]));
                    assert(cur.subrange(i as int, cur.len() as int) == cur.subrange(i - 1, cur.len() as int).drop_first());
                    assert(before.subrange(j + 1, before.len() as int) == before.subrange(j, before.len() as int).drop_first());
                    j = j + 1;
                }
            }
        }
        proof {
            assert(self.binds@.subrange(0, i as int) == self.binds@);
            assert(before.subrange(j, before.len() as int).len() == 0);
            assert(before.subrange(0, j) == before);
            if names_distinct(before) {
                lemma_filter_keeps_names_distinct(before, kept_by_strip());
            }
        }
        removed
    }
    /// The positions, in increasing order, of the entries that are
    /// unverified at an address that another entry is unverified at too.
    pub fn unverified_collisions(&self) -> (r: Vec<usize>)
        ensures
            forall|k: int| 0 <= k < r@.len() ==> r@[k] < self.binds@.len() && collides(self.binds@, r@[k] as int),
            forall|i: int| 0 <= i < self.binds@.len() && collides(self.binds@, i) ==> r@.contains(i as usize),
            forall|a: int, b: int| 0 <= a < b < r@.len() ==> r@[a] < r@[b],
    {
        let ghost s = self.binds@;
        let mut r: Vec<usize> = Vec::new();
        let mut i: usize = 0;
        while i < self.binds.len()
            invariant
                0 <= i <= s.len(),
                s == self.binds@,
                forall|k: int| 0 <= k < r@.len() ==> r@[k] < i && collides(s, r@[k] as int),
                forall|x: int| 0 <= x < i && collides(s, x) ==> r@.contains(x as usize),
                forall|a: int, b: int| 0 <= a < b < r@.len() ==> r@[a] < r@[b],
            decreases s.len() - i,
        {
            if let Bind::Unverified(a) = &self.binds[i].1 {
                let a = *a;
                let mut found = false;
                let mut j: usize = 0;
                while j < self.binds.len()
                    invariant
                        0 <= j <= s.len(),
                        i < s.len(),
                        s == self.binds@,
                        s[i as int].1@ == BindModel::Unverified(a),
                        found ==> collides(s, i as int),
                        !found ==> forall|y: int| 0 <= y < j && y != i ==> s[y].1@ != s[i as int].1@,
                    decreases s.len() - j,
                {
                    if j != i {
                        if let Bind::Unverified(b) = &self.binds[j].1 {
                            if *b == a {
                                found = true;
                            }
                        }
                    }
                    j += 1;
                }
                if found {
                    let ghost before = r@;
                    r.push(i);
                    assert(r@[before.len() as int] == i);
                    assert forall|x: int| 0 <= x < i + 1 && collides(s, x) implies r@.contains(x as usize) by {
                        if x < i {
                            let k = choose|k: int| 0 <= k < before.len() && before[k] == x as usize;
                            assert(r@[k] == x as usize);
                        } else {
                            assert(r@[before.len() as int] == x as usize);
                        }
                    }
                } else {
                    assert forall|x: int| 0 <= x < i + 1 && collides(s, x) implies r@.contains(x as usize) by {
                        if x == i {
                            let y = choose|y: int| 0 <= y < s.len() && y != x && s[y].1@ == s[x].1@;
                            assert(s[y].1@ != s[i as int].1@);
                        }
                    }
                }
            }
            i += 1;
        }
        r
    }
}

} // verus!
