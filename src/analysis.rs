//! The matching strategies and the block disambiguator they share.
use vstd::prelude::*;

use crate::db::{
    Address, Block, Dest, ExecDB, ExecPair, FunctionInfo, StringInfo, VtableInfo, find_block, find_fn,
    find_string, find_vtable, fn_name,
};
use crate::keyed::{cands_distinct, find_cand, last_proposal, lemma_filter_step, lemma_last_push, propose};
use crate::ledger::{Bind, BindDB, BindModel, find_bind, resolved};

verus! {

/// The address that the ledger gives the input function at `f`, through
/// its name.
pub open spec fn fn_resolved(binds: BindDB, input: ExecDB, f: u64) -> Option<u64> {
    match fn_name(input.fns@, f) {
        Some(n) => resolved(binds.binds@, n),
        None => None,
    }
}

/// `v` holds the literal `s`.
pub open spec fn has_str(v: Seq<String>, s: Seq<char>) -> bool {
    exists|j: int| 0 <= j < v.len() && v[j]@ == s
}

/// Every literal of `a` is in `b`.
pub open spec fn str_subset(a: Seq<String>, b: Seq<String>) -> bool {
    forall|i: int| 0 <= i < a.len() ==> has_str(b, #[trigger] a[i]@)
}

/// `a` and `b` reference the same set of string literals.
pub open spec fn same_strings(a: Seq<String>, b: Seq<String>) -> bool {
    str_subset(a, b) && str_subset(b, a)
}

/// Whether a call of the input block may stand for a call of the output
/// block at the same position.
pub open spec fn dest_compatible(binds: BindDB, input: ExecDB, i: Dest, o: Dest) -> bool {
    match (i, o) {
        (Dest::Unknown, Dest::Unknown) => true,
        (Dest::Known(i), Dest::Known(o)) => match fn_resolved(binds, input, i) {
            Some(a) => a == o,
            None => true,
        },
        _ => false,
    }
}

/// The two call sequences have one length and agree position by position.
pub open spec fn calls_compatible(binds: BindDB, input: ExecDB, i: Seq<Dest>, o: Seq<Dest>) -> bool {
    &&& i.len() == o.len()
    &&& forall|k: int| 0 <= k < i.len() ==> dest_compatible(binds, input, i[k], o[k])
}

/// The blocks that the references of `s` point to.
pub open spec fn blocks_of<'a>(s: Seq<&'a Block>) -> Seq<Block> {
    s.map_values(|b: &'a Block| *b)
}

/// A block of the output function at `m`.
pub open spec fn in_function(m: u64) -> spec_fn(Block) -> bool {
    |b: Block| b.address.function_addr == m
}

/// A block that references the same strings as `in_blk`.
pub open spec fn strings_like(in_blk: Block) -> spec_fn(Block) -> bool {
    |b: Block| same_strings(b.strings@, in_blk.strings@)
}

/// A block whose calls agree with those of `in_blk`.
pub open spec fn calls_like(binds: BindDB, input: ExecDB, in_blk: Block) -> spec_fn(Block) -> bool {
    |b: Block| calls_compatible(binds, input, in_blk.calls@, b.calls@)
}

/// The candidates that reference the same strings as `in_blk`.
pub open spec fn string_matches(in_blk: Block, cands: Seq<Block>) -> Seq<Block> {
    cands.filter(strings_like(in_blk))
}

/// The candidates whose calls agree with those of `in_blk`.
pub open spec fn call_matches(binds: BindDB, input: ExecDB, in_blk: Block, cands: Seq<Block>) -> Seq<Block> {
    cands.filter(calls_like(binds, input, in_blk))
}

/// The string, call and intersection stages, in this order: the first that
/// leaves a single candidate decides.
pub open spec fn structural_choice(binds: BindDB, input: ExecDB, in_blk: Block, cands: Seq<Block>) -> Option<Block> {
    let s = string_matches(in_blk, cands);
    let c = call_matches(binds, input, in_blk, cands);
    let both = call_matches(binds, input, in_blk, s);
    if s.len() == 1 {
        Some(s[0])
    } else if c.len() == 1 {
        Some(c[0])
    } else if both.len() == 1 {
        Some(both[0])
    } else {
        None
    }
}

/// The block among `cands` that corresponds to `in_blk`, if the chain of
/// heuristics isolates one: the ledger's address for the owning function
/// first, then the structural stages.
pub open spec fn disambiguate(binds: BindDB, pair: ExecPair, in_blk: Block, cands: Seq<Block>) -> Option<Block> {
    match fn_resolved(binds, pair.input, in_blk.address.function_addr) {
        Some(m) => {
            let p = cands.filter(in_function(m));
            if p.len() == 0 {
                None
            } else if p.len() == 1 {
                Some(p[0])
            } else {
                structural_choice(binds, pair.input, in_blk, p)
            }
        },
        None => structural_choice(binds, pair.input, in_blk, cands),
    }
}

proof fn lemma_structural_in(binds: BindDB, input: ExecDB, in_blk: Block, cands: Seq<Block>)
    ensures
        match structural_choice(binds, input, in_blk, cands) {
            Some(b) => cands.contains(b),
            None => true,
        },
{
    let s = string_matches(in_blk, cands);
    let c = call_matches(binds, input, in_blk, cands);
    let both = call_matches(binds, input, in_blk, s);
    if s.len() == 1 {
        assert(s.contains(s[0]));
        cands.lemma_filter_contains_rev(strings_like(in_blk), s[0]);
    } else if c.len() == 1 {
        assert(c.contains(c[0]));
        cands.lemma_filter_contains_rev(calls_like(binds, input, in_blk), c[0]);
    } else if both.len() == 1 {
        assert(both.contains(both[0]));
        s.lemma_filter_contains_rev(calls_like(binds, input, in_blk), both[0]);
        cands.lemma_filter_contains_rev(strings_like(in_blk), both[0]);
    }
}

/// The disambiguator only ever picks one of the candidates it is given;
/// where no stage leaves a single candidate it picks none.
pub proof fn disambiguate_picks_a_candidate(binds: BindDB, pair: ExecPair, in_blk: Block, cands: Seq<Block>)
    ensures
        match disambiguate(binds, pair, in_blk, cands) {
            Some(b) => cands.contains(b),
            None => true,
        },
{
    match fn_resolved(binds, pair.input, in_blk.address.function_addr) {
        Some(m) => {
            let p = cands.filter(in_function(m));
            if p.len() == 1 {
                assert(p.contains(p[0]));
                cands.lemma_filter_contains_rev(in_function(m), p[0]);
            } else if p.len() > 1 {
                lemma_structural_in(binds, pair.input, in_blk, p);
                if let Some(b) = structural_choice(binds, pair.input, in_blk, p) {
                    cands.lemma_filter_contains_rev(in_function(m), b);
                }
            }
        },
        None => lemma_structural_in(binds, pair.input, in_blk, cands),
    }
}

/// Pairs of reference lists, one of the input binary and one of the output.
pub open spec fn xref_view<'a>(s: Seq<(&'a Vec<Address>, &'a Vec<Address>)>) -> Seq<(Seq<Address>, Seq<Address>)> {
    s.map_values(|p: (&'a Vec<Address>, &'a Vec<Address>)| (p.0@, p.1@))
}

/// A proposal is a symbol name and an address of the output binary.
pub type Proposals = Seq<(Seq<char>, u64)>;

/// The ledger marks the symbol `n` inlined: no strategy binds it.
pub open spec fn is_inlined(binds: BindDB, n: Seq<char>) -> bool {
    find_bind(binds.binds@, n) == Some(BindModel::Inline)
}

/// What a pair of single references proposes: the name of the function
/// that owns the input reference, at the function that owns the output one,
/// unless that symbol is inlined.
pub open spec fn single_proposal(binds: BindDB, input: ExecDB, x: Seq<Address>, y: Seq<Address>) -> Proposals {
    if x.len() == 1 && y.len() == 1 {
        match fn_name(input.fns@, x[0].function_addr) {
            Some(n) => if is_inlined(binds, n) {
                seq![]
            } else {
                seq![(n, y[0].function_addr)]
            },
            None => seq![],
        }
    } else {
        seq![]
    }
}

/// The proposals of the pairs of `xrefs` that have one reference on each side.
pub open spec fn single_proposals(binds: BindDB, input: ExecDB, xrefs: Seq<(Seq<Address>, Seq<Address>)>) -> Proposals
    decreases xrefs.len(),
{
    if xrefs.len() == 0 {
        seq![]
    } else {
        single_proposals(binds, input, xrefs.drop_last()) + single_proposal(binds, input, xrefs.last().0, xrefs.last().1)
    }
}

/// The known blocks at the addresses of `y`, in order.
pub open spec fn blocks_at(db: ExecDB, y: Seq<Address>) -> Seq<Block>
    decreases y.len(),
{
    if y.len() == 0 {
        seq![]
    } else {
        blocks_at(db, y.drop_last()) + match find_block(db.blocks@, y.last()) {
            Some(b) => seq![b],
            None => seq![],
        }
    }
}

/// What the input reference `x` proposes against the output blocks `obs`:
/// the function owning its block, at the function owning the block that the
/// disambiguator picks; nothing for an inlined symbol.
pub open spec fn block_proposal(binds: BindDB, pair: ExecPair, x: Address, obs: Seq<Block>) -> Proposals {
    match find_block(pair.input.blocks@, x) {
        Some(ib) => match disambiguate(binds, pair, ib, obs) {
            Some(ob) => match fn_name(pair.input.fns@, ib.address.function_addr) {
                Some(n) => if is_inlined(binds, n) {
                    seq![]
                } else {
                    seq![(n, ob.address.function_addr)]
                },
                None => seq![],
            },
            None => seq![],
        },
        None => seq![],
    }
}

/// The proposals of every input reference of `xs` against `obs`, in order.
pub open spec fn block_proposals(binds: BindDB, pair: ExecPair, xs: Seq<Address>, obs: Seq<Block>) -> Proposals
    decreases xs.len(),
{
    if xs.len() == 0 {
        seq![]
    } else {
        block_proposals(binds, pair, xs.drop_last(), obs) + block_proposal(binds, pair, xs.last(), obs)
    }
}

/// The proposals of the pairs of `xrefs` that have several references on
/// both sides.
pub open spec fn multi_proposals(binds: BindDB, pair: ExecPair, xrefs: Seq<(Seq<Address>, Seq<Address>)>) -> Proposals
    decreases xrefs.len(),
{
    if xrefs.len() == 0 {
        seq![]
    } else {
        let (x, y) = xrefs.last();
        multi_proposals(binds, pair, xrefs.drop_last()) + if x.len() > 1 && y.len() > 1 {
            block_proposals(binds, pair, x, blocks_at(pair.output, y))
        } else {
            seq![]
        }
    }
}

/// Everything that cross-reference matching proposes, in the order in which
/// it is proposed: single pairs first, then the others.
pub open spec fn xref_proposals(binds: BindDB, pair: ExecPair, xrefs: Seq<(Seq<Address>, Seq<Address>)>) -> Proposals {
    single_proposals(binds, pair.input, xrefs) + multi_proposals(binds, pair, xrefs)
}

/// What walking two call sequences in lock-step proposes: each position
/// where both calls are known proposes the input callee's name at the output
/// callee. The walk stops at the first position where the kinds differ, or
/// where the input callee is marked inlined.
pub open spec fn call_walk(binds: BindDB, input: ExecDB, ic: Seq<Dest>, oc: Seq<Dest>) -> Proposals
    decreases ic.len(),
{
    if ic.len() == 0 || oc.len() == 0 {
        seq![]
    } else {
        match (ic[0], oc[0]) {
            (Dest::Unknown, Dest::Unknown) => call_walk(binds, input, ic.drop_first(), oc.drop_first()),
            (Dest::Known(i), Dest::Known(o)) => match fn_name(input.fns@, i) {
                Some(n) => if find_bind(binds.binds@, n) == Some(BindModel::Inline) {
                    seq![]
                } else {
                    seq![(n, o)] + call_walk(binds, input, ic.drop_first(), oc.drop_first())
                },
                None => call_walk(binds, input, ic.drop_first(), oc.drop_first()),
            },
            _ => seq![],
        }
    }
}

/// Pairs of corresponding blocks, input first.
pub open spec fn block_pair_view<'a>(s: Seq<(&'a Block, &'a Block)>) -> Seq<(Block, Block)> {
    s.map_values(|p: (&'a Block, &'a Block)| (*p.0, *p.1))
}

/// What call-graph positional matching proposes over pairs of corresponding
/// blocks, in order.
pub open spec fn positional_proposals(binds: BindDB, input: ExecDB, blocks: Seq<(Block, Block)>) -> Proposals
    decreases blocks.len(),
{
    if blocks.len() == 0 {
        seq![]
    } else {
        positional_proposals(binds, input, blocks.drop_last()) + call_walk(
            binds,
            input,
            blocks.last().0.calls@,
            blocks.last().1.calls@,
        )
    }
}

/// The reference lists of an input function and of the output function that
/// the ledger binds its name to.
pub open spec fn fn_call_pair(binds: BindDB, pair: ExecPair, f: FunctionInfo) -> Seq<(Seq<Address>, Seq<Address>)> {
    match f.name {
        Some(n) => match resolved(binds.binds@, n@) {
            Some(a) => match find_fn(pair.output.fns@, a) {
                Some(g) => seq![(f.xrefs@, g.xrefs@)],
                None => seq![],
            },
            None => seq![],
        },
        None => seq![],
    }
}

/// The reference-list pairs of the bound functions of `fns`, in order.
pub open spec fn call_pairs(binds: BindDB, pair: ExecPair, fns: Seq<FunctionInfo>) -> Seq<(Seq<Address>, Seq<Address>)>
    decreases fns.len(),
{
    if fns.len() == 0 {
        seq![]
    } else {
        call_pairs(binds, pair, fns.drop_last()) + fn_call_pair(binds, pair, fns.last())
    }
}

/// The reference lists of an input string and of the same literal in the
/// output binary.
pub open spec fn string_pair(pair: ExecPair, e: StringInfo) -> Seq<(Seq<Address>, Seq<Address>)> {
    match find_string(pair.output.strings@, e.value@) {
        Some(o) => seq![(e.xrefs@, o.xrefs@)],
        None => seq![],
    }
}

/// The reference-list pairs of the strings of `strings` found on both sides.
pub open spec fn string_pairs(pair: ExecPair, strings: Seq<StringInfo>) -> Seq<(Seq<Address>, Seq<Address>)>
    decreases strings.len(),
{
    if strings.len() == 0 {
        seq![]
    } else {
        string_pairs(pair, strings.drop_last()) + string_pair(pair, strings.last())
    }
}

/// A block of the function at `addr`, where there is an address.
pub open spec fn owned_by(addr: Option<u64>) -> spec_fn(Block) -> bool {
    |b: Block| addr == Some(b.address.function_addr)
}

/// The block pairs that an input reference `x` yields against the output
/// blocks `obs`: its block, with the one block of `obs` in the function that
/// the ledger binds the owner of `x` to, where there is exactly one.
pub open spec fn matched_block(binds: BindDB, pair: ExecPair, x: Address, obs: Seq<Block>) -> Seq<(Block, Block)> {
    match fn_name(pair.input.fns@, x.function_addr) {
        Some(n) => match find_block(pair.input.blocks@, x) {
            Some(ib) => {
                let p = obs.filter(owned_by(resolved(binds.binds@, n)));
                if p.len() == 1 {
                    seq![(ib, p[0])]
                } else {
                    seq![]
                }
            },
            None => seq![],
        },
        None => seq![],
    }
}

/// The block pairs of every reference of `xs`, in order.
pub open spec fn matched_blocks(binds: BindDB, pair: ExecPair, xs: Seq<Address>, obs: Seq<Block>) -> Seq<(Block, Block)>
    decreases xs.len(),
{
    if xs.len() == 0 {
        seq![]
    } else {
        matched_blocks(binds, pair, xs.drop_last(), obs) + matched_block(binds, pair, xs.last(), obs)
    }
}

/// The corresponding blocks of the reference-list pairs `cps`, in order.
pub open spec fn block_pairs(binds: BindDB, pair: ExecPair, cps: Seq<(Seq<Address>, Seq<Address>)>) -> Seq<(Block, Block)>
    decreases cps.len(),
{
    if cps.len() == 0 {
        seq![]
    } else {
        block_pairs(binds, pair, cps.drop_last()) + matched_blocks(
            binds,
            pair,
            cps.last().0,
            blocks_at(pair.output, cps.last().1),
        )
    }
}

/// The seeds of the first `n` slot pairs of two vtables of one name: each
/// input slot at a named function binds that name to the output slot.
pub open spec fn slot_seeds(input: ExecDB, i: Seq<u64>, o: Seq<u64>, n: int) -> Proposals
    decreases n,
{
    if n <= 0 {
        seq![]
    } else {
        slot_seeds(input, i, o, n - 1) + match fn_name(input.fns@, i[n - 1]) {
            Some(name) => seq![(name, o[n - 1])],
            None => seq![],
        }
    }
}

/// The seeds of the input vtable `v` against the output vtable of its name.
pub open spec fn vtable_seed(pair: ExecPair, v: VtableInfo) -> Proposals {
    match find_vtable(pair.output.vtables@, v.name@) {
        Some(ov) => {
            let n = if v.function_addrs@.len() < ov.function_addrs@.len() {
                v.function_addrs@.len()
            } else {
                ov.function_addrs@.len()
            };
            slot_seeds(pair.input, v.function_addrs@, ov.function_addrs@, n as int)
        },
        None => seq![],
    }
}

/// The seeds of the input vtables `vts`, in order.
pub open spec fn vtable_seeds(pair: ExecPair, vts: Seq<VtableInfo>) -> Proposals
    decreases vts.len(),
{
    if vts.len() == 0 {
        seq![]
    } else {
        vtable_seeds(pair, vts.drop_last()) + vtable_seed(pair, vts.last())
    }
}

/// Block pairs are walked independently: the proposals of two runs of
/// pairs are those of the first followed by those of the second.
pub proof fn positional_pairs_independent(binds: BindDB, input: ExecDB, a: Seq<(Block, Block)>, b: Seq<(Block, Block)>)
    ensures
        positional_proposals(binds, input, a + b) == positional_proposals(binds, input, a) + positional_proposals(
            binds,
            input,
            b,
        ),
    decreases b.len(),
{
    if b.len() == 0 {
        assert(a + b == a);
        assert(positional_proposals(binds, input, a) + seq![] == positional_proposals(binds, input, a));
    } else {
        assert((a + b).drop_last() == a + b.drop_last());
        positional_pairs_independent(binds, input, a, b.drop_last());
        let pa = positional_proposals(binds, input, a);
        let pb = positional_proposals(binds, input, b.drop_last());
        let w = call_walk(binds, input, b.last().0.calls@, b.last().1.calls@);
        assert(pa + pb + w == pa + (pb + w));
    }
}

/// Where the calls at position `k` differ in kind, the walk of the pair
/// proposes what the positions before `k` propose, and nothing after.
pub proof fn kind_mismatch_ends_walk(binds: BindDB, input: ExecDB, ic: Seq<Dest>, oc: Seq<Dest>, k: int)
    requires
        0 <= k < ic.len(),
        k < oc.len(),
        (ic[k] is Known) != (oc[k] is Known),
    ensures
        call_walk(binds, input, ic, oc) == call_walk(binds, input, ic.take(k), oc.take(k)),
    decreases k,
{
    if k > 0 {
        assert(ic.take(k)[0] == ic[0]);
        assert(oc.take(k)[0] == oc[0]);
        assert(ic.take(k).drop_first() == ic.drop_first().take(k - 1));
        assert(oc.take(k).drop_first() == oc.drop_first().take(k - 1));
        kind_mismatch_ends_walk(binds, input, ic.drop_first(), oc.drop_first(), k - 1);
    }
}

/// An input function whose name the ledger binds to an output function
/// contributes the pair of their reference lists to call-reference
/// matching, after the pairs of the functions before it.
pub proof fn bound_function_pairs_references(
    binds: BindDB,
    pair: ExecPair,
    fns: Seq<FunctionInfo>,
    f: FunctionInfo,
    name: String,
    g: FunctionInfo,
)
    requires
        f.name == Some(name),
        find_fn(pair.output.fns@, g.addr) == Some(g),
        resolved(binds.binds@, name@) == Some(g.addr),
    ensures
        call_pairs(binds, pair, fns.push(f)) == call_pairs(binds, pair, fns) + seq![(f.xrefs@, g.xrefs@)],
{
    assert(fns.push(f).drop_last() == fns);
}

proof fn lemma_last_concat(a: Proposals, b: Proposals, n: Seq<char>)
    ensures
        last_proposal(a + b, n) == if last_proposal(b, n).is_some() {
            last_proposal(b, n)
        } else {
            last_proposal(a, n)
        },
    decreases b.len(),
{
    if b.len() == 0 {
        assert(a + b == a);
    } else {
        assert((a + b).drop_last() == a + b.drop_last());
        lemma_last_concat(a, b.drop_last(), n);
    }
}

proof fn lemma_singles_concat(
    binds: BindDB,
    input: ExecDB,
    a: Seq<(Seq<Address>, Seq<Address>)>,
    b: Seq<(Seq<Address>, Seq<Address>)>,
)
    ensures
        single_proposals(binds, input, a + b) == single_proposals(binds, input, a) + single_proposals(binds, input, b),
    decreases b.len(),
{
    if b.len() == 0 {
        assert(a + b == a);
        assert(single_proposals(binds, input, a) + seq![] == single_proposals(binds, input, a));
    } else {
        assert((a + b).drop_last() == a + b.drop_last());
        lemma_singles_concat(binds, input, a, b.drop_last());
        let sa = single_proposals(binds, input, a);
        let sb = single_proposals(binds, input, b.drop_last());
        let l = single_proposal(binds, input, b.last().0, b.last().1);
        assert(sa + sb + l == sa + (sb + l));
    }
}

/// A pair with exactly one reference on each side binds the name of the
/// input reference's owning function, unless that symbol is inlined, to the
/// output reference's owning function: the disambiguator is not consulted,
/// and the result is the same wherever the pair stands among pairs that
/// propose nothing else for that name.
pub proof fn single_xref_is_direct(
    binds: BindDB,
    pair: ExecPair,
    before: Seq<(Seq<Address>, Seq<Address>)>,
    x: Seq<Address>,
    y: Seq<Address>,
    after: Seq<(Seq<Address>, Seq<Address>)>,
    n: Seq<char>,
)
    requires
        x.len() == 1,
        y.len() == 1,
        fn_name(pair.input.fns@, x[0].function_addr) == Some(n),
        !is_inlined(binds, n),
        last_proposal(single_proposals(binds, pair.input, after), n).is_none(),
        last_proposal(multi_proposals(binds, pair, before.push((x, y)) + after), n).is_none(),
    ensures
        last_proposal(xref_proposals(binds, pair, before.push((x, y)) + after), n) == Some(y[0].function_addr),
{
    let all = before.push((x, y)) + after;
    let p = (n, y[0].function_addr);
    let sb = single_proposals(binds, pair.input, before);
    assert(before.push((x, y)).drop_last() == before);
    assert(single_proposals(binds, pair.input, before.push((x, y))) == sb + seq![p]);
    assert(sb + seq![p] == sb.push(p));
    lemma_last_push(sb, p, n);
    lemma_singles_concat(binds, pair.input, before.push((x, y)), after);
    let sa = single_proposals(binds, pair.input, after);
    lemma_last_concat(sb.push(p), sa, n);
    lemma_last_concat(sb.push(p) + sa, multi_proposals(binds, pair, all), n);
}

fn inlined(binds: &BindDB, name: &String) -> (r: bool)
    ensures
        r == is_inlined(*binds, name@),
{
    match binds.get(name) {
        Some(b) => b.is_inline(),
        None => false,
    }
}

fn fn_resolve(binds: &BindDB, input: &ExecDB, f: u64) -> (r: Option<u64>)
    ensures
        r == fn_resolved(*binds, *input, f),
{
    match input.fn_name(f) {
        Some(n) => binds.resolve(n),
        None => None,
    }
}

fn has_string(v: &Vec<String>, s: &String) -> (r: bool)
    ensures
        r == has_str(v@, s@),
{
    let mut i: usize = 0;
    while i < v.len()
        invariant
            0 <= i <= v.len(),
            forall|j: int| 0 <= j < i ==> v@[j]@ != s@,
        decreases v.len() - i,
    {
        if v[i] == *s {
            return true;
        }
        i += 1;
    }
    false
}

fn covers(a: &Vec<String>, b: &Vec<String>) -> (r: bool)
    ensures
        r == str_subset(a@, b@),
{
    let mut i: usize = 0;
    while i < a.len()
        invariant
            0 <= i <= a.len(),
            forall|k: int| 0 <= k < i ==> has_str(b@, #[trigger] a@[k]@),
        decreases a.len() - i,
    {
        if !has_string(b, &a[i]) {
            return false;
        }
        i += 1;
    }
    true
}

fn strings_equal(a: &Vec<String>, b: &Vec<String>) -> (r: bool)
    ensures
        r == same_strings(a@, b@),
{
    covers(a, b) && covers(b, a)
}

fn calls_agree(binds: &BindDB, input: &ExecDB, i: &Vec<Dest>, o: &Vec<Dest>) -> (r: bool)
    ensures
        r == calls_compatible(*binds, *input, i@, o@),
{
    if i.len() != o.len() {
        return false;
    }
    let mut k: usize = 0;
    while k < i.len()
        invariant
            i.len() == o.len(),
            0 <= k <= i.len(),
            forall|j: int| 0 <= j < k ==> dest_compatible(*binds, *input, i@[j], o@[j]),
        decreases i.len() - k,
    {
        let ok = match (i[k], o[k]) {
            (Dest::Unknown, Dest::Unknown) => true,
            (Dest::Known(a), Dest::Known(b)) => match fn_resolve(binds, input, a) {
                Some(x) => x == b,
                None => true,
            },
            _ => false,
        };
        if !ok {
            return false;
        }
        k += 1;
    }
    true
}

fn keep_in_function<'a>(cands: &Vec<&'a Block>, m: u64) -> (r: Vec<&'a Block>)
    ensures
        blocks_of(r@) == blocks_of(cands@).filter(in_function(m)),
{
    let mut r: Vec<&'a Block> = Vec::new();
    let mut i: usize = 0;
    while i < cands.len()
        invariant
            0 <= i <= cands.len(),
            blocks_of(r@) == blocks_of(cands@).subrange(0, i as int).filter(in_function(m)),
        decreases cands.len() - i,
    {
        proof {
            lemma_filter_step(blocks_of(cands@), in_function(m), i as int);
            assert(blocks_of(cands@)[i as int] == *cands@[i as int]);
        }
        if cands[i].address.function_addr == m {
            proof {
                assert(blocks_of(r@.push(cands@[i as int])) == blocks_of(r@).push(*cands@[i as int]));
            }
            r.push(cands[i]);
        }
        i += 1;
    }
    assert(blocks_of(cands@).subrange(0, cands@.len() as int) == blocks_of(cands@));
    r
}

fn keep_strings_like<'a>(in_blk: &Block, cands: &Vec<&'a Block>) -> (r: Vec<&'a Block>)
    ensures
        blocks_of(r@) == string_matches(*in_blk, blocks_of(cands@)),
{
    let mut r: Vec<&'a Block> = Vec::new();
    let mut i: usize = 0;
    while i < cands.len()
        invariant
            0 <= i <= cands.len(),
            blocks_of(r@) == blocks_of(cands@).subrange(0, i as int).filter(strings_like(*in_blk)),
        decreases cands.len() - i,
    {
        proof {
            lemma_filter_step(blocks_of(cands@), strings_like(*in_blk), i as int);
            assert(blocks_of(cands@)[i as int] == *cands@[i as int]);
        }
        if strings_equal(&cands[i].strings, &in_blk.strings) {
            proof {
                assert(blocks_of(r@.push(cands@[i as int])) == blocks_of(r@).push(*cands@[i as int]));
            }
            r.push(cands[i]);
        }
        i += 1;
    }
    assert(blocks_of(cands@).subrange(0, cands@.len() as int) == blocks_of(cands@));
    r
}

fn keep_calls_like<'a>(binds: &BindDB, input: &ExecDB, in_blk: &Block, cands: &Vec<&'a Block>) -> (r: Vec<&'a Block>)
    ensures
        blocks_of(r@) == call_matches(*binds, *input, *in_blk, blocks_of(cands@)),
{
    let mut r: Vec<&'a Block> = Vec::new();
    let mut i: usize = 0;
    while i < cands.len()
        invariant
            0 <= i <= cands.len(),
            blocks_of(r@) == blocks_of(cands@).subrange(0, i as int).filter(calls_like(*binds, *input, *in_blk)),
        decreases cands.len() - i,
    {
        proof {
            lemma_filter_step(blocks_of(cands@), calls_like(*binds, *input, *in_blk), i as int);
            assert(blocks_of(cands@)[i as int] == *cands@[i as int]);
        }
        if calls_agree(binds, input, &in_blk.calls, &cands[i].calls) {
            proof {
                assert(blocks_of(r@.push(cands@[i as int])) == blocks_of(r@).push(*cands@[i as int]));
            }
            r.push(cands[i]);
        }
        i += 1;
    }
    assert(blocks_of(cands@).subrange(0, cands@.len() as int) == blocks_of(cands@));
    r
}

fn structural_pick<'a>(binds: &BindDB, input: &ExecDB, in_blk: &Block, cands: &Vec<&'a Block>) -> (r: Option<&'a Block>)
    ensures
        match r {
            Some(b) => structural_choice(*binds, *input, *in_blk, blocks_of(cands@)) == Some(*b),
            None => structural_choice(*binds, *input, *in_blk, blocks_of(cands@)).is_none(),
        },
{
    let strings_matching = keep_strings_like(in_blk, cands);
    if strings_matching.len() == 1 {
        assert(blocks_of(strings_matching@)[0] == *strings_matching@[0]);
        return Some(strings_matching[0]);
    }
    let calls_matching = keep_calls_like(binds, input, in_blk, cands);
    if calls_matching.len() == 1 {
        assert(blocks_of(calls_matching@)[0] == *calls_matching@[0]);
        return Some(calls_matching[0]);
    }
    let both_matching = keep_calls_like(binds, input, in_blk, &strings_matching);
    if both_matching.len() == 1 {
        assert(blocks_of(both_matching@)[0] == *both_matching@[0]);
        return Some(both_matching[0]);
    }
    None
}

/// Picks the block of `out_blks` that corresponds to `in_blk`, or none
/// where the heuristics leave it ambiguous.
pub fn block_compare<'a>(bind_db: &BindDB, pair: &ExecPair, in_blk: &Block, out_blks: &Vec<&'a Block>) -> (r: Option<&'a Block>)
    ensures
        match r {
            Some(b) => disambiguate(*bind_db, *pair, *in_blk, blocks_of(out_blks@)) == Some(*b),
            None => disambiguate(*bind_db, *pair, *in_blk, blocks_of(out_blks@)).is_none(),
        },
{
    match fn_resolve(bind_db, &pair.input, in_blk.address.function_addr) {
        Some(matching) => {
            let possible = keep_in_function(out_blks, matching);
            if possible.len() == 0 {
                None
            } else if possible.len() == 1 {
                assert(blocks_of(possible@)[0] == *possible@[0]);
                Some(possible[0])
            } else {
                structural_pick(bind_db, &pair.input, in_blk, &possible)
            }
        },
        None => structural_pick(bind_db, &pair.input, in_blk, out_blks),
    }
}

fn blocks_at_exec<'a>(db: &'a ExecDB, y: &Vec<Address>) -> (r: Vec<&'a Block>)
    ensures
        blocks_of(r@) == blocks_at(*db, y@),
{
    let mut r: Vec<&'a Block> = Vec::new();
    let mut i: usize = 0;
    while i < y.len()
        invariant
            0 <= i <= y.len(),
            blocks_of(r@) == blocks_at(*db, y@.subrange(0, i as int)),
        decreases y.len() - i,
    {
        assert(y@.subrange(0, i + 1).drop_last() == y@.subrange(0, i as int));
        match db.addr_to_block(&y[i]) {
            Some(b) => {
                assert(blocks_of(r@.push(b)) == blocks_of(r@).push(*b));
                assert(blocks_of(r@) + seq![*b] == blocks_of(r@).push(*b));
                r.push(b);
            },
            None => {
                assert(blocks_of(r@) + seq![] == blocks_of(r@));
            },
        }
        i += 1;
    }
    assert(y@.subrange(0, y@.len() as int) == y@);
    r
}

/// Proposes names from pairs of reference lists: a pair with one reference
/// on each side binds the owners of the two references directly; a pair with
/// several on both sides binds the owner of each input block to the owner of
/// the output block that the disambiguator picks for it. A later proposal
/// for a name replaces an earlier one.
pub fn xref_binds(bind_db: &BindDB, pair: &ExecPair, xrefs: Vec<(&Vec<Address>, &Vec<Address>)>) -> (r: Vec<(String, u64)>)
    ensures
        cands_distinct(r@),
        forall|n: Seq<char>|
            find_cand(r@, n) == last_proposal(xref_proposals(*bind_db, *pair, xref_view(xrefs@)), n),
{
    let ghost xv = xref_view(xrefs@);
    let mut output: Vec<(String, u64)> = Vec::new();
    let mut k: usize = 0;
    while k < xrefs.len()
        invariant
            0 <= k <= xrefs.len(),
            xv == xref_view(xrefs@),
            cands_distinct(output@),
            forall|n: Seq<char>|
                find_cand(output@, n) == last_proposal(single_proposals(*bind_db, pair.input, xv.subrange(0, k as int)), n),
        decreases xrefs.len() - k,
    {
        let ghost before = output@;
        let ghost acc = single_proposals(*bind_db, pair.input, xv.subrange(0, k as int));
        assert(xv.subrange(0, k + 1).drop_last() == xv.subrange(0, k as int));
        let (x, y) = xrefs[k];
        assert(xv[k as int] == (x@, y@));
        let mut proposed = false;
        if x.len() == 1 && y.len() == 1 {
            match pair.input.fn_name(x[0].function_addr) {
                Some(name) => if !inlined(bind_db, name) {
                    let ghost p = (name@, y@[0].function_addr);
                    propose(&mut output, name.clone(), y[0].function_addr);
                    proof {
                        assert(acc + seq![p] == acc.push(p));
                        assert forall|n: Seq<char>|
                            find_cand(output@, n) == last_proposal(acc.push(p), n) by {
                            lemma_last_push(acc, p, n);
                        }
                    }
                    proposed = true;
                },
                None => {},
            }
        }
        if !proposed {
            assert(acc + seq![] == acc);
        }
        k += 1;
    }
    assert(xv.subrange(0, xv.len() as int) == xv);
    let ghost base = single_proposals(*bind_db, pair.input, xv);
    k = 0;
    while k < xrefs.len()
        invariant
            0 <= k <= xrefs.len(),
            xv == xref_view(xrefs@),
            base == single_proposals(*bind_db, pair.input, xv),
            cands_distinct(output@),
            forall|n: Seq<char>|
                find_cand(output@, n) == last_proposal(base + multi_proposals(*bind_db, *pair, xv.subrange(0, k as int)), n),
        decreases xrefs.len() - k,
    {
        let ghost acc = base + multi_proposals(*bind_db, *pair, xv.subrange(0, k as int));
        assert(xv.subrange(0, k + 1).drop_last() == xv.subrange(0, k as int));
        let (x, y) = xrefs[k];
        assert(xv[k as int] == (x@, y@));
        if x.len() > 1 && y.len() > 1 {
            let oblocks = blocks_at_exec(&pair.output, y);
            let ghost obs = blocks_at(pair.output, y@);
            let mut j: usize = 0;
            while j < x.len()
                invariant
                    0 <= j <= x.len(),
                    blocks_of(oblocks@) == obs,
                    cands_distinct(output@),
                    forall|n: Seq<char>|
                        find_cand(output@, n) == last_proposal(acc + block_proposals(*bind_db, *pair, x@.subrange(0, j as int), obs), n),
                decreases x.len() - j,
            {
                let ghost inner = block_proposals(*bind_db, *pair, x@.subrange(0, j as int), obs);
                assert(x@.subrange(0, j + 1).drop_last() == x@.subrange(0, j as int));
                let mut proposed = false;
                match pair.input.addr_to_block(&x[j]) {
                    Some(ib) => match block_compare(bind_db, pair, ib, &oblocks) {
                        Some(ob) => match pair.input.fn_name(ib.address.function_addr) {
                            Some(name) => if !inlined(bind_db, name) {
                                let ghost p = (name@, ob.address.function_addr);
                                propose(&mut output, name.clone(), ob.address.function_addr);
                                proof {
                                    assert(inner + seq![p] == inner.push(p));
                                    assert(acc + inner.push(p) == (acc + inner).push(p));
                                    assert forall|n: Seq<char>|
                                        find_cand(output@, n) == last_proposal((acc + inner).push(p), n) by {
                                        lemma_last_push(acc + inner, p, n);
                                    }
                                }
                                proposed = true;
                            },
                            None => {},
                        },
                        None => {},
                    },
                    None => {},
                }
                if !proposed {
                    assert(inner + seq![] == inner);
                }
                j += 1;
            }
            assert(x@.subrange(0, x@.len() as int) == x@);
            assert(acc + block_proposals(*bind_db, *pair, x@, obs) == base + multi_proposals(*bind_db, *pair, xv.subrange(0, k + 1)));
        } else {
            assert(acc + seq![] == acc);
            assert(multi_proposals(*bind_db, *pair, xv.subrange(0, k as int)) + seq![] == multi_proposals(*bind_db, *pair, xv.subrange(0, k as int)));
        }
        k += 1;
    }
    assert(xv.subrange(0, xv.len() as int) == xv);
    output
}

/// Walks the calls of each pair of corresponding blocks in lock-step and
/// proposes the input callee's name at the output callee, position by
/// position; the walk of a pair ends at the first call whose kinds differ or
/// whose input callee is inlined. A later proposal for a name replaces an
/// earlier one.
pub fn block_binds(bind_db: &BindDB, pair: &ExecPair, blocks: Vec<(&Block, &Block)>) -> (r: Vec<(String, u64)>)
    ensures
        cands_distinct(r@),
        forall|n: Seq<char>|
            find_cand(r@, n) == last_proposal(positional_proposals(*bind_db, pair.input, block_pair_view(blocks@)), n),
{
    let ghost bv = block_pair_view(blocks@);
    let mut output: Vec<(String, u64)> = Vec::new();
    let mut k: usize = 0;
    while k < blocks.len()
        invariant
            0 <= k <= blocks.len(),
            bv == block_pair_view(blocks@),
            cands_distinct(output@),
            forall|n: Seq<char>|
                find_cand(output@, n) == last_proposal(positional_proposals(*bind_db, pair.input, bv.subrange(0, k as int)), n),
        decreases blocks.len() - k,
    {
        let ghost acc = positional_proposals(*bind_db, pair.input, bv.subrange(0, k as int));
        assert(bv.subrange(0, k + 1).drop_last() == bv.subrange(0, k as int));
        let (i_block, o_block) = blocks[k];
        assert(bv[k as int] == (*i_block, *o_block));
        let ic = &i_block.calls;
        let oc = &o_block.calls;
        let ghost whole = call_walk(*bind_db, pair.input, ic@, oc@);
        let ghost mut done: Proposals = seq![];
        let mut j: usize = 0;
        assert(ic@.subrange(0, ic@.len() as int) == ic@);
        assert(oc@.subrange(0, oc@.len() as int) == oc@);
        while j < ic.len() && j < oc.len()
            invariant
                0 <= j <= ic.len(),
                j <= oc.len(),
                whole == done + call_walk(*bind_db, pair.input, ic@.subrange(j as int, ic@.len() as int), oc@.subrange(j as int, oc@.len() as int)),
                cands_distinct(output@),
                forall|n: Seq<char>| find_cand(output@, n) == last_proposal(acc + done, n),
            ensures
                0 <= j <= ic.len(),
                j <= oc.len(),
                whole == done + call_walk(*bind_db, pair.input, ic@.subrange(j as int, ic@.len() as int), oc@.subrange(j as int, oc@.len() as int)),
                cands_distinct(output@),
                forall|n: Seq<char>| find_cand(output@, n) == last_proposal(acc + done, n),
                (j < ic.len() && j < oc.len()) ==> whole == done,
            decreases ic.len() - j,
        {
            let ghost ir = ic@.subrange(j as int, ic@.len() as int);
            let ghost or = oc@.subrange(j as int, oc@.len() as int);
            assert(ir.drop_first() == ic@.subrange(j + 1, ic@.len() as int));
            assert(or.drop_first() == oc@.subrange(j + 1, oc@.len() as int));
            assert(ir[0] == ic@[j as int]);
            assert(or[0] == oc@[j as int]);
            match (ic[j], oc[j]) {
                (Dest::Unknown, Dest::Unknown) => {},
                (Dest::Known(i), Dest::Known(o)) => {
                    match pair.input.fn_name(i) {
                        Some(name) => {
                            let inlined = match bind_db.get(name) {
                                Some(b) => b.is_inline(),
                                None => false,
                            };
                            if inlined {
                                assert(whole == done + seq![]);
                                assert(done + seq![] == done);
                                break;
                            }
                            let ghost p = (name@, o);
                            propose(&mut output, name.clone(), o);
                            proof {
                                let rest = call_walk(*bind_db, pair.input, ic@.subrange(j + 1, ic@.len() as int), oc@.subrange(j + 1, oc@.len() as int));
                                assert(done + (seq![p] + rest) == done.push(p) + rest);
                                assert(acc + done.push(p) == (acc + done).push(p));
                                assert forall|n: Seq<char>|
                                    find_cand(output@, n) == last_proposal((acc + done).push(p), n) by {
                                    lemma_last_push(acc + done, p, n);
                                }
                                done = done.push(p);
                            }
                        },
                        None => {},
                    }
                },
                _ => {
                    assert(whole == done + seq![]);
                    assert(done + seq![] == done);
                    break;
                },
            }
            j += 1;
        }
        proof {
            if !(j < ic.len() && j < oc.len()) {
                let ir = ic@.subrange(j as int, ic@.len() as int);
                let or = oc@.subrange(j as int, oc@.len() as int);
                assert(ir.len() == 0 || or.len() == 0);
                assert(done + seq![] == done);
            }
            assert(whole == done);
        }
        k += 1;
    }
    assert(bv.subrange(0, bv.len() as int) == bv);
    output
}

fn collect_call_pairs<'a>(binds: &BindDB, pair: &'a ExecPair) -> (r: Vec<(&'a Vec<Address>, &'a Vec<Address>)>)
    ensures
        xref_view(r@) == call_pairs(*binds, *pair, pair.input.fns@),
{
    let fns = &pair.input.fns;
    let mut r: Vec<(&'a Vec<Address>, &'a Vec<Address>)> = Vec::new();
    let mut i: usize = 0;
    while i < fns.len()
        invariant
            0 <= i <= fns.len(),
            fns == &pair.input.fns,
            xref_view(r@) == call_pairs(*binds, *pair, fns@.subrange(0, i as int)),
        decreases fns.len() - i,
    {
        assert(fns@.subrange(0, i + 1).drop_last() == fns@.subrange(0, i as int));
        let f = &fns[i];
        let ghost before = xref_view(r@);
        let mut added = false;
        match &f.name {
            Some(n) => match binds.resolve(n) {
                Some(a) => match pair.output.get_fn(a) {
                    Some(g) => {
                        r.push((&f.xrefs, &g.xrefs));
                        assert(xref_view(r@) == before + seq![(f.xrefs@, g.xrefs@)]);
                        added = true;
                    },
                    None => {},
                },
                None => {},
            },
            None => {},
        }
        if !added {
            assert(before + seq![] == before);
        }
        i += 1;
    }
    assert(fns@.subrange(0, fns@.len() as int) == fns@);
    r
}

/// Cross-reference matching over the callers of every input function that
/// the ledger binds: the reference lists of the function and of its bound
/// output function are matched as `xref_binds` does.
pub fn call_xref_strat(pair: &ExecPair, binds: &BindDB) -> (r: Vec<(String, u64)>)
    ensures
        cands_distinct(r@),
        forall|n: Seq<char>|
            find_cand(r@, n) == last_proposal(
                xref_proposals(*binds, *pair, call_pairs(*binds, *pair, pair.input.fns@)),
                n,
            ),
{
    let call_pairs = collect_call_pairs(binds, pair);
    xref_binds(binds, pair, call_pairs)
}

/// Cross-reference matching over the string literals found in both
/// binaries: the reference lists of each literal on the two sides are
/// matched as `xref_binds` does.
pub fn string_xref_strat(pair: &ExecPair, binds: &BindDB) -> (r: Vec<(String, u64)>)
    ensures
        cands_distinct(r@),
        forall|n: Seq<char>|
            find_cand(r@, n) == last_proposal(
                xref_proposals(*binds, *pair, string_pairs(*pair, pair.input.strings@)),
                n,
            ),
{
    let strings = &pair.input.strings;
    let mut pairs: Vec<(&Vec<Address>, &Vec<Address>)> = Vec::new();
    let mut i: usize = 0;
    while i < strings.len()
        invariant
            0 <= i <= strings.len(),
            strings == &pair.input.strings,
            xref_view(pairs@) == string_pairs(*pair, strings@.subrange(0, i as int)),
        decreases strings.len() - i,
    {
        assert(strings@.subrange(0, i + 1).drop_last() == strings@.subrange(0, i as int));
        let e = &strings[i];
        let ghost before = xref_view(pairs@);
        match pair.output.get_string(&e.value) {
            Some(o) => {
                pairs.push((&e.xrefs, &o.xrefs));
                assert(xref_view(pairs@) == before + seq![(e.xrefs@, o.xrefs@)]);
            },
            None => {
                assert(before + seq![] == before);
            },
        }
        i += 1;
    }
    assert(strings@.subrange(0, strings@.len() as int) == strings@);
    xref_binds(binds, pair, pairs)
}

fn keep_owned_by<'a>(cands: &Vec<&'a Block>, addr: Option<u64>) -> (r: Vec<&'a Block>)
    ensures
        blocks_of(r@) == blocks_of(cands@).filter(owned_by(addr)),
{
    let mut r: Vec<&'a Block> = Vec::new();
    let mut i: usize = 0;
    while i < cands.len()
        invariant
            0 <= i <= cands.len(),
            blocks_of(r@) == blocks_of(cands@).subrange(0, i as int).filter(owned_by(addr)),
        decreases cands.len() - i,
    {
        proof {
            lemma_filter_step(blocks_of(cands@), owned_by(addr), i as int);
            assert(blocks_of(cands@)[i as int] == *cands@[i as int]);
        }
        if addr == Some(cands[i].address.function_addr) {
            proof {
                assert(blocks_of(r@.push(cands@[i as int])) == blocks_of(r@).push(*cands@[i as int]));
            }
            r.push(cands[i]);
        }
        i += 1;
    }
    assert(blocks_of(cands@).subrange(0, cands@.len() as int) == blocks_of(cands@));
    r
}

/// The corresponding blocks that call-graph positional matching walks: for
/// every input function that the ledger binds, each of its referencing
/// blocks is paired with the one block among the output function's
/// referencing blocks that lies in the function the ledger binds the
/// referencing function to.
pub fn call_block_pairs<'a>(pair: &'a ExecPair, binds: &BindDB) -> (r: Vec<(&'a Block, &'a Block)>)
    ensures
        block_pair_view(r@) == block_pairs(*binds, *pair, call_pairs(*binds, *pair, pair.input.fns@)),
{
    let call_pairs = collect_call_pairs(binds, pair);
    let ghost cps = xref_view(call_pairs@);
    let mut blocks: Vec<(&Block, &Block)> = Vec::new();
    let mut k: usize = 0;
    while k < call_pairs.len()
        invariant
            0 <= k <= call_pairs.len(),
            cps == xref_view(call_pairs@),
            block_pair_view(blocks@) == block_pairs(*binds, *pair, cps.subrange(0, k as int)),
        decreases call_pairs.len() - k,
    {
        assert(cps.subrange(0, k + 1).drop_last() == cps.subrange(0, k as int));
        let (i, o) = call_pairs[k];
        assert(cps[k as int] == (i@, o@));
        let ghost acc = block_pair_view(blocks@);
        let obs = blocks_at_exec(&pair.output, o);
        let ghost ob = blocks_at(pair.output, o@);
        let mut j: usize = 0;
        while j < i.len()
            invariant
                0 <= j <= i.len(),
                blocks_of(obs@) == ob,
                block_pair_view(blocks@) == acc + matched_blocks(*binds, *pair, i@.subrange(0, j as int), ob),
            decreases i.len() - j,
        {
            assert(i@.subrange(0, j + 1).drop_last() == i@.subrange(0, j as int));
            let ghost before = block_pair_view(blocks@);
            let ghost inner = matched_blocks(*binds, *pair, i@.subrange(0, j as int), ob);
            let x = &i[j];
            let mut added = false;
            match pair.input.fn_name(x.function_addr) {
                Some(n) => match pair.input.addr_to_block(x) {
                    Some(ib) => {
                        let addr = binds.resolve(n);
                        let possible = keep_owned_by(&obs, addr);
                        if possible.len() == 1 {
                            assert(blocks_of(possible@)[0] == *possible@[0]);
                            blocks.push((ib, possible[0]));
                            assert(block_pair_view(blocks@) == before.push((*ib, *possible@[0])));
                            assert(inner + seq![(*ib, *possible@[0])] == inner.push((*ib, *possible@[0])));
                            assert(acc + inner.push((*ib, *possible@[0])) == (acc + inner).push((*ib, *possible@[0])));
                            added = true;
                        }
                    },
                    None => {},
                },
                None => {},
            }
            if !added {
                assert(inner + seq![] == inner);
            }
            j += 1;
        }
        assert(i@.subrange(0, i@.len() as int) == i@);
        assert(acc + matched_blocks(*binds, *pair, i@, ob) == block_pairs(*binds, *pair, cps.subrange(0, k + 1)));
        k += 1;
    }
    assert(cps.subrange(0, cps.len() as int) == cps);
    blocks
}

/// Call-graph positional matching over the pairs of `call_block_pairs`,
/// walked as `block_binds` does.
pub fn call_block_strat(pair: &ExecPair, binds: &BindDB) -> (r: Vec<(String, u64)>)
    ensures
        cands_distinct(r@),
        forall|n: Seq<char>|
            find_cand(r@, n) == last_proposal(
                positional_proposals(
                    *binds,
                    pair.input,
                    block_pairs(*binds, *pair, call_pairs(*binds, *pair, pair.input.fns@)),
                ),
                n,
            ),
{
    let blocks = call_block_pairs(pair, binds);
    block_binds(binds, pair, blocks)
}

/// Whether the lock-step walk of two call sequences ends at a position
/// whose calls differ in kind, the sign of an undetected inline.
pub open spec fn walk_hits_mismatch(binds: BindDB, input: ExecDB, ic: Seq<Dest>, oc: Seq<Dest>) -> bool
    decreases ic.len(),
{
    if ic.len() == 0 || oc.len() == 0 {
        false
    } else {
        match (ic[0], oc[0]) {
            (Dest::Unknown, Dest::Unknown) => walk_hits_mismatch(binds, input, ic.drop_first(), oc.drop_first()),
            (Dest::Known(i), Dest::Known(_)) => match fn_name(input.fns@, i) {
                Some(n) => if is_inlined(binds, n) {
                    false
                } else {
                    walk_hits_mismatch(binds, input, ic.drop_first(), oc.drop_first())
                },
                None => walk_hits_mismatch(binds, input, ic.drop_first(), oc.drop_first()),
            },
            _ => true,
        }
    }
}

fn hits_mismatch(binds: &BindDB, input: &ExecDB, ic: &Vec<Dest>, oc: &Vec<Dest>) -> (r: bool)
    ensures
        r == walk_hits_mismatch(*binds, *input, ic@, oc@),
{
    let mut j: usize = 0;
    assert(ic@.subrange(0, ic@.len() as int) == ic@);
    assert(oc@.subrange(0, oc@.len() as int) == oc@);
    while j < ic.len() && j < oc.len()
        invariant
            0 <= j <= ic.len(),
            j <= oc.len(),
            walk_hits_mismatch(*binds, *input, ic@, oc@) == walk_hits_mismatch(
                *binds,
                *input,
                ic@.subrange(j as int, ic@.len() as int),
                oc@.subrange(j as int, oc@.len() as int),
            ),
        decreases ic.len() - j,
    {
        let ghost ir = ic@.subrange(j as int, ic@.len() as int);
        let ghost or = oc@.subrange(j as int, oc@.len() as int);
        assert(ir.drop_first() == ic@.subrange(j + 1, ic@.len() as int));
        assert(or.drop_first() == oc@.subrange(j + 1, oc@.len() as int));
        assert(ir[0] == ic@[j as int]);
        assert(or[0] == oc@[j as int]);
        match (ic[j], oc[j]) {
            (Dest::Unknown, Dest::Unknown) => {},
            (Dest::Known(i), Dest::Known(_)) => {
                match input.fn_name(i) {
                    Some(name) => {
                        if inlined(binds, name) {
                            return false;
                        }
                    },
                    None => {},
                }
            },
            _ => {
                return true;
            },
        }
        j += 1;
    }
    let ghost ir = ic@.subrange(j as int, ic@.len() as int);
    let ghost or = oc@.subrange(j as int, oc@.len() as int);
    assert(ir.len() == 0 || or.len() == 0);
    false
}

/// For each pair of `blocks`, whether its walk ends at calls that differ
/// in kind; such pairs are worth a notice.
pub fn block_mismatches(bind_db: &BindDB, pair: &ExecPair, blocks: &Vec<(&Block, &Block)>) -> (r: Vec<bool>)
    ensures
        r@.len() == blocks@.len(),
        forall|k: int|
            0 <= k < r@.len() ==> r@[k] == walk_hits_mismatch(
                *bind_db,
                pair.input,
                blocks@[k].0.calls@,
                blocks@[k].1.calls@,
            ),
{
    let mut r: Vec<bool> = Vec::new();
    let mut k: usize = 0;
    while k < blocks.len()
        invariant
            0 <= k <= blocks.len(),
            r@.len() == k,
            forall|m: int|
                0 <= m < k ==> r@[m] == walk_hits_mismatch(
                    *bind_db,
                    pair.input,
                    blocks@[m].0.calls@,
                    blocks@[m].1.calls@,
                ),
        decreases blocks.len() - k,
    {
        let (ib, ob) = blocks[k];
        r.push(hits_mismatch(bind_db, &pair.input, &ib.calls, &ob.calls));
        k += 1;
    }
    r
}

impl BindDB {
    /// A new ledger, seeded from the vtables that both binaries have: each
    /// slot of an input vtable that holds a named function binds that name,
    /// verified, to the output vtable's function in the same slot. A later
    /// seed for a name replaces an earlier one.
    pub fn new(pair: &ExecPair) -> (r: BindDB)
        ensures
            r.wf(),
            forall|n: Seq<char>|
                find_bind(r.binds@, n) == match last_proposal(vtable_seeds(*pair, pair.input.vtables@), n) {
                    Some(a) => Some(BindModel::Verified(a)),
                    None => None,
                },
    {
        let mut bind_db = BindDB::empty();
        let vts = &pair.input.vtables;
        let mut k: usize = 0;
        while k < vts.len()
            invariant
                0 <= k <= vts.len(),
                vts == &pair.input.vtables,
                bind_db.wf(),
                forall|n: Seq<char>|
                    find_bind(bind_db.binds@, n) == match last_proposal(vtable_seeds(*pair, vts@.subrange(0, k as int)), n) {
                        Some(a) => Some(BindModel::Verified(a)),
                        None => None,
                    },
            decreases vts.len() - k,
        {
            assert(vts@.subrange(0, k + 1).drop_last() == vts@.subrange(0, k as int));
            let v = &vts[k];
            let ghost acc = vtable_seeds(*pair, vts@.subrange(0, k as int));
            match pair.output.get_vtable(&v.name) {
                Some(ov) => {
                    let slots = &v.function_addrs;
                    let oslots = &ov.function_addrs;
                    let n: usize = if slots.len() < oslots.len() {
                        slots.len()
                    } else {
                        oslots.len()
                    };
                    let mut j: usize = 0;
                    while j < n
                        invariant
                            0 <= j <= n,
                            n <= slots.len(),
                            n <= oslots.len(),
                            bind_db.wf(),
                            forall|m: Seq<char>|
                                find_bind(bind_db.binds@, m) == match last_proposal(acc + slot_seeds(pair.input, slots@, oslots@, j as int), m) {
                                    Some(a) => Some(BindModel::Verified(a)),
                                    None => None,
                                },
                        decreases n - j,
                    {
                        let ghost inner = slot_seeds(pair.input, slots@, oslots@, j as int);
                        match pair.input.fn_name(slots[j]) {
                            Some(name) => {
                                let ghost p = (name@, oslots@[j as int]);
                                bind_db.set(name, Bind::Verified(oslots[j]));
                                proof {
                                    assert(inner + seq![p] == inner.push(p));
                                    assert(acc + inner.push(p) == (acc + inner).push(p));
                                    assert forall|m: Seq<char>|
                                        find_bind(bind_db.binds@, m) == match last_proposal((acc + inner).push(p), m) {
                                            Some(a) => Some(BindModel::Verified(a)),
                                            None => None,
                                        } by {
                                        lemma_last_push(acc + inner, p, m);
                                    }
                                }
                            },
                            None => {
                                assert(inner + seq![] == inner);
                            },
                        }
                        j += 1;
                    }
                },
                None => {
                    assert(acc + seq![] == acc);
                },
            }
            k += 1;
        }
        assert(vts@.subrange(0, vts@.len() as int) == vts@);
        bind_db
    }
}

} // verus!
