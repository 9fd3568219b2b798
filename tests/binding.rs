use symbo::analysis::{
    block_binds, block_compare, block_mismatches, call_block_pairs, call_block_strat, call_xref_strat, string_xref_strat,
    xref_binds,
};
use symbo::db::{Address, Block, Dest, ExecDB, ExecPair, FunctionInfo, StringInfo, VtableInfo};
use symbo::generate::{Backend, Generate};
use symbo::ledger::{Bind, BindDB};

fn addr(f: u64, b: u64) -> Address {
    Address { function_addr: f, block_addr: b }
}

fn func(a: u64, name: Option<&str>, xrefs: Vec<Address>) -> FunctionInfo {
    FunctionInfo { addr: a, name: name.map(|n| n.to_string()), xrefs }
}

fn block(a: Address, strings: &[&str], calls: Vec<Dest>) -> Block {
    Block { address: a, strings: strings.iter().map(|s| s.to_string()).collect(), calls }
}

fn empty_db() -> ExecDB {
    ExecDB { fns: vec![], strings: vec![], vtables: vec![], blocks: vec![] }
}

fn lookup(c: &[(String, u64)], n: &str) -> Option<u64> {
    c.iter().find(|(k, _)| k == n).map(|(_, v)| *v)
}

fn state(db: &BindDB, n: &str) -> Option<Bind> {
    db.get(&n.to_string()).cloned()
}

/// Runs the merge protocol for one candidate, answering from `replies`.
fn merge_with(db: &mut BindDB, n: &str, a: u64, replies: &[bool]) -> usize {
    let name = n.to_string();
    let mut answers: Vec<bool> = Vec::new();
    while let Some(_) = db.merge(&name, a, &answers) {
        answers.push(replies[answers.len()]);
    }
    answers.len()
}

fn is_unverified(b: &Option<Bind>, a: u64) -> bool {
    matches!(b, Some(Bind::Unverified(x)) if *x == a)
}

fn is_verified(b: &Option<Bind>, a: u64) -> bool {
    matches!(b, Some(Bind::Verified(x)) if *x == a)
}

#[test]
fn vtable_seeding_verifies_slots() {
    let mut input = empty_db();
    input.fns = vec![func(0x100, Some("draw"), vec![]), func(0x200, Some("area"), vec![])];
    input.vtables = vec![VtableInfo { name: "Shape".to_string(), function_addrs: vec![0x100, 0x200] }];
    let mut output = empty_db();
    output.vtables = vec![VtableInfo { name: "Shape".to_string(), function_addrs: vec![0x9000, 0x9100] }];
    let pair = ExecPair { input, output };
    let db = BindDB::new(&pair);
    assert_eq!(db.binds.len(), 2);
    assert!(is_verified(&state(&db, "draw"), 0x9000));
    assert!(is_verified(&state(&db, "area"), 0x9100));
}

#[test]
fn vtable_seeding_skips_unnamed_and_unmatched() {
    let mut input = empty_db();
    input.fns = vec![func(0x100, None, vec![]), func(0x200, Some("area"), vec![])];
    input.vtables = vec![
        VtableInfo { name: "Shape".to_string(), function_addrs: vec![0x100, 0x200, 0x300] },
        VtableInfo { name: "Other".to_string(), function_addrs: vec![0x200] },
    ];
    let mut output = empty_db();
    output.vtables = vec![VtableInfo { name: "Shape".to_string(), function_addrs: vec![0x9000, 0x9100] }];
    let db = BindDB::new(&ExecPair { input, output });
    assert_eq!(db.binds.len(), 1);
    assert!(is_verified(&state(&db, "area"), 0x9100));
}

fn single_xref_pair() -> ExecPair {
    let a = addr(0x200, 0x210);
    let b = addr(0x700, 0x710);
    let mut input = empty_db();
    input.fns = vec![func(0x100, Some("bar"), vec![a]), func(0x200, Some("foo"), vec![])];
    let mut output = empty_db();
    output.fns = vec![func(0x900, None, vec![b])];
    ExecPair { input, output }
}

#[test]
fn single_xref_through_resolved_caller_bind() {
    let pair = single_xref_pair();
    let mut db = BindDB::empty();
    db.set(&"bar".to_string(), Bind::Verified(0x900));
    let cands = call_xref_strat(&pair, &db);
    assert_eq!(cands, vec![("foo".to_string(), 0x700)]);
    for (k, v) in cands {
        assert_eq!(merge_with(&mut db, &k, v, &[]), 0);
    }
    assert!(is_unverified(&state(&db, "foo"), 0x700));
    assert!(is_verified(&state(&db, "bar"), 0x900));
}

#[test]
fn single_xref_needs_a_bind() {
    let pair = single_xref_pair();
    let db = BindDB::empty();
    assert!(call_xref_strat(&pair, &db).is_empty());
}

#[test]
fn single_xref_ignores_order_of_pairs() {
    let pair = single_xref_pair();
    let db = BindDB::empty();
    let x1 = vec![addr(0x200, 0x210)];
    let y1 = vec![addr(0x700, 0x710)];
    let x2 = vec![addr(0x100, 0x110)];
    let y2 = vec![addr(0x800, 0x810)];
    let a = xref_binds(&db, &pair, vec![(&x1, &y1), (&x2, &y2)]);
    let b = xref_binds(&db, &pair, vec![(&x2, &y2), (&x1, &y1)]);
    assert_eq!(lookup(&a, "foo"), Some(0x700));
    assert_eq!(lookup(&b, "foo"), Some(0x700));
    assert_eq!(lookup(&a, "bar"), Some(0x800));
    assert_eq!(lookup(&b, "bar"), Some(0x800));
}

#[test]
fn string_xref_matches_shared_literal() {
    let mut input = empty_db();
    input.fns = vec![func(0x200, Some("greet"), vec![])];
    input.strings = vec![StringInfo { value: "hello".to_string(), xrefs: vec![addr(0x200, 0x204)] }];
    let mut output = empty_db();
    output.strings = vec![
        StringInfo { value: "other".to_string(), xrefs: vec![addr(0x500, 0x504)] },
        StringInfo { value: "hello".to_string(), xrefs: vec![addr(0x600, 0x604)] },
    ];
    let pair = ExecPair { input, output };
    let cands = string_xref_strat(&pair, &BindDB::empty());
    assert_eq!(cands, vec![("greet".to_string(), 0x600)]);
}

#[test]
fn conflict_confirmed_new_address_verifies() {
    let mut db = BindDB::empty();
    assert_eq!(merge_with(&mut db, "foo", 0xB, &[]), 0);
    assert!(is_unverified(&state(&db, "foo"), 0xB));
    assert_eq!(merge_with(&mut db, "foo", 0xC, &[true]), 1);
    assert!(is_verified(&state(&db, "foo"), 0xC));
}

#[test]
fn conflict_asks_new_then_old() {
    let mut db = BindDB::empty();
    merge_with(&mut db, "foo", 0xB, &[]);
    let name = "foo".to_string();
    assert_eq!(db.merge(&name, 0xC, &vec![]), Some(0xC));
    assert_eq!(db.merge(&name, 0xC, &vec![false]), Some(0xB));
    assert!(is_unverified(&state(&db, "foo"), 0xB));
    assert_eq!(db.merge(&name, 0xC, &vec![false, true]), None);
    assert!(is_verified(&state(&db, "foo"), 0xB));
}

#[test]
fn conflict_rejected_twice_records_both() {
    let mut db = BindDB::empty();
    merge_with(&mut db, "foo", 0xB, &[]);
    assert_eq!(merge_with(&mut db, "foo", 0xC, &[false, false]), 2);
    assert!(matches!(state(&db, "foo"), Some(Bind::Not(l)) if l == vec![0xB, 0xC]));
    // a known-wrong address is not asked about again
    assert_eq!(merge_with(&mut db, "foo", 0xC, &[]), 0);
    // a new one is asked about and, rejected, joins the list
    assert_eq!(merge_with(&mut db, "foo", 0xD, &[false]), 1);
    assert!(matches!(state(&db, "foo"), Some(Bind::Not(l)) if l == vec![0xB, 0xC, 0xD]));
    // confirmed, it replaces the list
    assert_eq!(merge_with(&mut db, "foo", 0xE, &[true]), 1);
    assert!(is_verified(&state(&db, "foo"), 0xE));
}

#[test]
fn merge_corroboration_is_idempotent() {
    let mut db = BindDB::empty();
    assert_eq!(merge_with(&mut db, "foo", 0x40, &[]), 0);
    assert_eq!(merge_with(&mut db, "foo", 0x40, &[]), 0);
    assert!(is_unverified(&state(&db, "foo"), 0x40));
    assert_eq!(db.binds.len(), 1);
}

#[test]
fn terminal_states_never_change() {
    let mut db = BindDB::empty();
    db.set(&"v".to_string(), Bind::Verified(1));
    db.set(&"i".to_string(), Bind::Inline);
    assert_eq!(merge_with(&mut db, "v", 2, &[]), 0);
    assert_eq!(merge_with(&mut db, "i", 2, &[]), 0);
    assert!(is_verified(&state(&db, "v"), 1));
    assert!(matches!(state(&db, "i"), Some(Bind::Inline)));
}

#[test]
fn strip_removes_unverified_only() {
    let mut db = BindDB::empty();
    db.set(&"a".to_string(), Bind::Unverified(1));
    db.set(&"b".to_string(), Bind::Verified(2));
    db.set(&"c".to_string(), Bind::Unverified(3));
    db.set(&"d".to_string(), Bind::Not(vec![4]));
    assert_eq!(db.strip_unverified(), 2);
    let names: Vec<&str> = db.binds.iter().map(|(k, _)| k.as_str()).collect();
    assert_eq!(names, vec!["b", "d"]);
}

fn compare_pair() -> ExecPair {
    let mut input = empty_db();
    input.fns = vec![func(0x10, Some("f"), vec![]), func(0x20, Some("callee"), vec![])];
    ExecPair { input, output: empty_db() }
}

#[test]
fn disambiguator_narrows_by_function_bind() {
    let pair = compare_pair();
    let mut db = BindDB::empty();
    db.set(&"f".to_string(), Bind::Unverified(0x500));
    let inb = block(addr(0x10, 0x11), &[], vec![]);
    let c1 = block(addr(0x400, 0x401), &[], vec![]);
    let c2 = block(addr(0x500, 0x501), &[], vec![]);
    let got = block_compare(&db, &pair, &inb, &vec![&c1, &c2]);
    assert_eq!(got.map(|b| b.address), Some(addr(0x500, 0x501)));
    // none in the bound function: no fallback
    let got = block_compare(&db, &pair, &inb, &vec![&c1]);
    assert!(got.is_none());
}

#[test]
fn disambiguator_uses_string_sets() {
    let pair = compare_pair();
    let db = BindDB::empty();
    let inb = block(addr(0x10, 0x11), &["x", "y"], vec![]);
    let c1 = block(addr(0x400, 0x401), &["y", "x", "x"], vec![]);
    let c2 = block(addr(0x500, 0x501), &["x"], vec![]);
    let got = block_compare(&db, &pair, &inb, &vec![&c1, &c2]);
    assert_eq!(got.map(|b| b.address), Some(addr(0x400, 0x401)));
}

#[test]
fn disambiguator_uses_calls() {
    let pair = compare_pair();
    let mut db = BindDB::empty();
    db.set(&"callee".to_string(), Bind::Verified(0x900));
    let inb = block(addr(0x10, 0x11), &[], vec![Dest::Known(0x20), Dest::Unknown]);
    let c1 = block(addr(0x400, 0x401), &[], vec![Dest::Known(0x800), Dest::Unknown]);
    let c2 = block(addr(0x500, 0x501), &[], vec![Dest::Known(0x900), Dest::Unknown]);
    let c3 = block(addr(0x600, 0x601), &[], vec![Dest::Known(0x900)]);
    let got = block_compare(&db, &pair, &inb, &vec![&c1, &c2, &c3]);
    assert_eq!(got.map(|b| b.address), Some(addr(0x500, 0x501)));
}

#[test]
fn disambiguator_uses_intersection() {
    let pair = compare_pair();
    let db = BindDB::empty();
    let inb = block(addr(0x10, 0x11), &["s"], vec![Dest::Unknown]);
    let c1 = block(addr(0x400, 0x401), &["s"], vec![Dest::Unknown]);
    let c2 = block(addr(0x500, 0x501), &["s"], vec![]);
    let c3 = block(addr(0x600, 0x601), &[], vec![Dest::Unknown]);
    let got = block_compare(&db, &pair, &inb, &vec![&c1, &c2, &c3]);
    assert_eq!(got.map(|b| b.address), Some(addr(0x400, 0x401)));
}

#[test]
fn disambiguator_refuses_to_guess() {
    let pair = compare_pair();
    let db = BindDB::empty();
    let inb = block(addr(0x10, 0x11), &["s"], vec![]);
    let c1 = block(addr(0x400, 0x401), &["s"], vec![]);
    let c2 = block(addr(0x500, 0x501), &["s"], vec![]);
    assert!(block_compare(&db, &pair, &inb, &vec![&c1, &c2]).is_none());
}

#[test]
fn positional_matching_stops_at_kind_mismatch() {
    let mut input = empty_db();
    input.fns = (0..5u64).map(|k| func(0x100 + k, Some(&format!("c{}", k)), vec![])).collect();
    let pair = ExecPair { input, output: empty_db() };
    let db = BindDB::empty();
    let ib = block(
        addr(0x10, 0x11),
        &[],
        (0..5u64).map(|k| Dest::Known(0x100 + k)).collect(),
    );
    let ob = block(
        addr(0x50, 0x51),
        &[],
        vec![Dest::Known(0x900), Dest::Known(0x901), Dest::Unknown, Dest::Known(0x903), Dest::Known(0x904)],
    );
    let other_i = block(addr(0x12, 0x13), &[], vec![Dest::Unknown, Dest::Known(0x104)]);
    let other_o = block(addr(0x52, 0x53), &[], vec![Dest::Unknown, Dest::Known(0x999)]);
    let cands = block_binds(&db, &pair, vec![(&ib, &ob), (&other_i, &other_o)]);
    assert_eq!(lookup(&cands, "c0"), Some(0x900));
    assert_eq!(lookup(&cands, "c1"), Some(0x901));
    assert_eq!(lookup(&cands, "c2"), None);
    assert_eq!(lookup(&cands, "c3"), None);
    // the next pair is still walked
    assert_eq!(lookup(&cands, "c4"), Some(0x999));
}

#[test]
fn positional_matching_stops_at_inline() {
    let mut input = empty_db();
    input.fns = vec![func(0x100, Some("a"), vec![]), func(0x101, Some("inl"), vec![]), func(0x102, Some("b"), vec![])];
    let pair = ExecPair { input, output: empty_db() };
    let mut db = BindDB::empty();
    db.set(&"inl".to_string(), Bind::Inline);
    let ib = block(addr(0x10, 0x11), &[], vec![Dest::Known(0x100), Dest::Known(0x101), Dest::Known(0x102)]);
    let ob = block(addr(0x50, 0x51), &[], vec![Dest::Known(0x900), Dest::Known(0x901), Dest::Known(0x902)]);
    let cands = block_binds(&db, &pair, vec![(&ib, &ob)]);
    assert_eq!(cands, vec![("a".to_string(), 0x900)]);
}

#[test]
fn call_block_strategy_walks_bound_blocks() {
    // `f` calls `g` from block 0x31 of `caller`; both `g` and `caller` are bound.
    let mut input = empty_db();
    input.fns = vec![
        func(0x20, Some("g"), vec![addr(0x30, 0x31)]),
        func(0x30, Some("caller"), vec![]),
        func(0x40, Some("h"), vec![]),
    ];
    input.blocks = vec![block(addr(0x30, 0x31), &[], vec![Dest::Known(0x20), Dest::Known(0x40)])];
    let mut output = empty_db();
    output.fns = vec![func(0x820, None, vec![addr(0x830, 0x831), addr(0x870, 0x871)])];
    output.blocks = vec![
        block(addr(0x830, 0x831), &[], vec![Dest::Known(0x820), Dest::Known(0x840)]),
        block(addr(0x870, 0x871), &[], vec![Dest::Known(0x820)]),
    ];
    let pair = ExecPair { input, output };
    let mut db = BindDB::empty();
    db.set(&"g".to_string(), Bind::Verified(0x820));
    db.set(&"caller".to_string(), Bind::Unverified(0x830));
    let cands = call_block_strat(&pair, &db);
    assert_eq!(lookup(&cands, "h"), Some(0x840));
    assert_eq!(lookup(&cands, "g"), Some(0x820));
}

#[test]
fn unknown_address_has_no_block() {
    let mut db = empty_db();
    db.blocks = vec![block(addr(1, 2), &[], vec![])];
    assert!(db.addr_to_block(&addr(1, 3)).is_none());
    assert_eq!(db.addr_to_block(&addr(1, 2)).map(|b| b.address), Some(addr(1, 2)));
}

#[test]
fn out_file_defaults_to_project_name() {
    let g = Generate { backend: Backend::Ghidra, proj: "/work/proj/target.json".to_string(), output: None };
    assert_eq!(g.out_file(), Some("target.json.exdb".to_string()));
    let g = Generate { backend: Backend::Rizin, proj: "x".to_string(), output: Some("out.exdb".to_string()) };
    assert_eq!(g.out_file(), Some("out.exdb".to_string()));
    let g = Generate { backend: Backend::Rizin, proj: "/".to_string(), output: None };
    assert_eq!(g.out_file(), None);
}

#[test]
fn collisions_list_shared_unverified_addresses() {
    let mut db = BindDB::empty();
    db.set(&"a".to_string(), Bind::Unverified(1));
    db.set(&"b".to_string(), Bind::Verified(1));
    db.set(&"c".to_string(), Bind::Unverified(2));
    db.set(&"d".to_string(), Bind::Unverified(1));
    db.set(&"e".to_string(), Bind::Unverified(3));
    assert_eq!(db.unverified_collisions(), vec![0, 3]);
}

#[test]
fn xref_matching_never_binds_inlined_symbols() {
    let pair = single_xref_pair();
    let mut db = BindDB::empty();
    db.set(&"bar".to_string(), Bind::Verified(0x900));
    db.set(&"foo".to_string(), Bind::Inline);
    assert!(call_xref_strat(&pair, &db).is_empty());
    let x = vec![addr(0x200, 0x210)];
    let y = vec![addr(0x700, 0x710)];
    assert!(xref_binds(&db, &pair, vec![(&x, &y)]).is_empty());
}

#[test]
fn multi_xref_never_binds_inlined_symbols() {
    let mut input = empty_db();
    input.fns = vec![func(0x200, Some("foo"), vec![])];
    input.blocks = vec![block(addr(0x200, 0x210), &["s"], vec![]), block(addr(0x200, 0x220), &["t"], vec![])];
    let mut output = empty_db();
    output.blocks = vec![block(addr(0x700, 0x710), &["s"], vec![]), block(addr(0x800, 0x810), &["u"], vec![])];
    let pair = ExecPair { input, output };
    let x = vec![addr(0x200, 0x210), addr(0x200, 0x220)];
    let y = vec![addr(0x700, 0x710), addr(0x800, 0x810)];
    let db = BindDB::empty();
    assert_eq!(xref_binds(&db, &pair, vec![(&x, &y)]), vec![("foo".to_string(), 0x700)]);
    let mut db = BindDB::empty();
    db.set(&"foo".to_string(), Bind::Inline);
    assert!(xref_binds(&db, &pair, vec![(&x, &y)]).is_empty());
}

#[test]
fn candidate_names_are_distinct() {
    let pair = single_xref_pair();
    let db = BindDB::empty();
    let x1 = vec![addr(0x200, 0x210)];
    let y1 = vec![addr(0x700, 0x710)];
    let y2 = vec![addr(0x750, 0x760)];
    let r = xref_binds(&db, &pair, vec![(&x1, &y1), (&x1, &y2)]);
    assert_eq!(r, vec![("foo".to_string(), 0x750)]);
}

#[test]
fn mismatches_flag_only_kind_differences() {
    let mut input = empty_db();
    input.fns = vec![func(0x100, Some("a"), vec![]), func(0x101, Some("inl"), vec![])];
    let pair = ExecPair { input, output: empty_db() };
    let mut db = BindDB::empty();
    db.set(&"inl".to_string(), Bind::Inline);
    let i1 = block(addr(1, 1), &[], vec![Dest::Known(0x100), Dest::Known(0x100)]);
    let o1 = block(addr(2, 2), &[], vec![Dest::Known(0x900), Dest::Unknown]);
    let i2 = block(addr(1, 3), &[], vec![Dest::Known(0x101), Dest::Unknown]);
    let o2 = block(addr(2, 4), &[], vec![Dest::Known(0x901), Dest::Known(0x902)]);
    let i3 = block(addr(1, 5), &[], vec![Dest::Unknown]);
    let o3 = block(addr(2, 6), &[], vec![Dest::Unknown, Dest::Known(0x903)]);
    let r = block_mismatches(&db, &pair, &vec![(&i1, &o1), (&i2, &o2), (&i3, &o3)]);
    assert_eq!(r, vec![true, false, false]);
}

#[test]
fn call_block_pairs_pair_bound_blocks() {
    let mut input = empty_db();
    input.fns = vec![func(0x20, Some("g"), vec![addr(0x30, 0x31)]), func(0x30, Some("caller"), vec![])];
    input.blocks = vec![block(addr(0x30, 0x31), &[], vec![])];
    let mut output = empty_db();
    output.fns = vec![func(0x820, None, vec![addr(0x830, 0x831), addr(0x870, 0x871)])];
    output.blocks = vec![block(addr(0x830, 0x831), &[], vec![]), block(addr(0x870, 0x871), &[], vec![])];
    let pair = ExecPair { input, output };
    let mut db = BindDB::empty();
    db.set(&"g".to_string(), Bind::Verified(0x820));
    db.set(&"caller".to_string(), Bind::Unverified(0x870));
    let pairs = call_block_pairs(&pair, &db);
    assert_eq!(pairs.len(), 1);
    assert_eq!(pairs[0].0.address, addr(0x30, 0x31));
    assert_eq!(pairs[0].1.address, addr(0x870, 0x871));
}
