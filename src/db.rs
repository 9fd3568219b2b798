//! The disassembly model of one binary, the pair compared in one run, and
//! the bind ledger.
use vstd::prelude::*;

verus! {

/// A location in a binary: the function that owns it and its basic block.
#[derive(Clone, Copy, PartialEq, Eq, Structural, Debug)]
pub struct Address {
    pub function_addr: u64,
    pub block_addr: u64,
}

/// The target of a call instruction.
#[derive(Clone, Copy, PartialEq, Eq, Structural, Debug)]
pub enum Dest {
    Known(u64),
    Unknown,
}

/// One basic block: where it is, the string literals it references
/// (compared as a set) and the calls it makes, in program order.
#[derive(Clone, Debug)]
pub struct Block {
    pub address: Address,
    pub strings: Vec<String>,
    pub calls: Vec<Dest>,
}

/// A function of a snapshot: its address, its name where the binary
/// carries symbols, and the sites that reference it.
#[derive(Clone, Debug)]
pub struct FunctionInfo {
    pub addr: u64,
    pub name: Option<String>,
    pub xrefs: Vec<Address>,
}

/// A string literal of a snapshot and the sites that reference it.
#[derive(Clone, Debug)]
pub struct StringInfo {
    pub value: String,
    pub xrefs: Vec<Address>,
}

/// A virtual table: its name and its function slots, in slot order.
#[derive(Clone, Debug)]
pub struct VtableInfo {
    pub name: String,
    pub function_addrs: Vec<u64>,
}

/// The structural record of one binary. Each table is keyed by the first
/// entry that carries a given key.
#[derive(Clone, Debug)]
pub struct ExecDB {
    pub fns: Vec<FunctionInfo>,
    pub strings: Vec<StringInfo>,
    pub vtables: Vec<VtableInfo>,
    pub blocks: Vec<Block>,
}

/// The two snapshots of one run: `input` carries the symbols, `output` is
/// the binary whose symbols are sought.
#[derive(Clone, Debug)]
pub struct ExecPair {
    pub input: ExecDB,
    pub output: ExecDB,
}

/// Index `i` holds the first function of `fns` at address `a`.
pub open spec fn fn_first(fns: Seq<FunctionInfo>, a: u64, i: int) -> bool {
    &&& 0 <= i < fns.len()
    &&& fns[i].addr == a
    &&& forall|j: int| 0 <= j < i ==> fns[j].addr != a
}

/// The function at address `a`, if the table has one.
pub open spec fn find_fn(fns: Seq<FunctionInfo>, a: u64) -> Option<FunctionInfo> {
    if exists|i: int| fn_first(fns, a, i) {
        Some(fns[choose|i: int| fn_first(fns, a, i)])
    } else {
        None
    }
}

/// The name of the function at address `a`, if there is one and it is named.
pub open spec fn fn_name(fns: Seq<FunctionInfo>, a: u64) -> Option<Seq<char>> {
    match find_fn(fns, a) {
        Some(f) => match f.name {
            Some(n) => Some(n@),
            None => None,
        },
        None => None,
    }
}

/// Index `i` holds the first block of `blocks` at address `a`.
pub open spec fn block_first(blocks: Seq<Block>, a: Address, i: int) -> bool {
    &&& 0 <= i < blocks.len()
    &&& blocks[i].address == a
    &&& forall|j: int| 0 <= j < i ==> blocks[j].address != a
}

/// The block at address `a`, if any known block is there.
pub open spec fn find_block(blocks: Seq<Block>, a: Address) -> Option<Block> {
    if exists|i: int| block_first(blocks, a, i) {
        Some(blocks[choose|i: int| block_first(blocks, a, i)])
    } else {
        None
    }
}

/// Index `i` holds the first string entry whose literal is `s`.
pub open spec fn string_first(strings: Seq<StringInfo>, s: Seq<char>, i: int) -> bool {
    &&& 0 <= i < strings.len()
    &&& strings[i].value@ == s
    &&& forall|j: int| 0 <= j < i ==> strings[j].value@ != s
}

/// The entry of the literal `s`, if the snapshot has one.
pub open spec fn find_string(strings: Seq<StringInfo>, s: Seq<char>) -> Option<StringInfo> {
    if exists|i: int| string_first(strings, s, i) {
        Some(strings[choose|i: int| string_first(strings, s, i)])
    } else {
        None
    }
}

/// Index `i` holds the first vtable named `n`.
pub open spec fn vtable_first(vtables: Seq<VtableInfo>, n: Seq<char>, i: int) -> bool {
    &&& 0 <= i < vtables.len()
    &&& vtables[i].name@ == n
    &&& forall|j: int| 0 <= j < i ==> vtables[j].name@ != n
}

/// The vtable named `n`, if the snapshot has one.
pub open spec fn find_vtable(vtables: Seq<VtableInfo>, n: Seq<char>) -> Option<VtableInfo> {
    if exists|i: int| vtable_first(vtables, n, i) {
        Some(vtables[choose|i: int| vtable_first(vtables, n, i)])
    } else {
        None
    }
}

/// Two indices that each hold the first entry with a property are the same.
pub proof fn lemma_first_unique(first: spec_fn(int) -> bool, holds: spec_fn(int) -> bool, i: int, k: int)
    requires
        forall|j: int| #[trigger] first(j) ==> holds(j) && forall|m: int| 0 <= m < j ==> !#[trigger] holds(m),
        0 <= i && first(i),
        0 <= k && first(k),
    ensures
        i == k,
{
    if i < k {
        assert(!holds(i));
    } else if k < i {
        assert(!holds(k));
    }
}

impl ExecDB {
    /// The function at `addr`.
    pub fn get_fn(&self, addr: u64) -> (r: Option<&FunctionInfo>)
        ensures
            match r {
                Some(f) => find_fn(self.fns@, addr) == Some(*f),
                None => find_fn(self.fns@, addr).is_none(),
            },
    {
        let mut i: usize = 0;
        while i < self.fns.len()
            invariant
                0 <= i <= self.fns.len(),
                forall|j: int| 0 <= j < i ==> self.fns@[j].addr != addr,
            decreases self.fns.len() - i,
        {
            if self.fns[i].addr == addr {
                assert(fn_first(self.fns@, addr, i as int));
                proof {
                    let c = choose|k: int| fn_first(self.fns@, addr, k);
                    lemma_first_unique(|k: int| fn_first(self.fns@, addr, k), |k: int| self.fns@[k].addr == addr, i as int, c);
                }
                return Some(&self.fns[i]);
            }
            i += 1;
        }
        None
    }

    /// The name of the function at `addr`, where it has one.
    pub fn fn_name(&self, addr: u64) -> (r: Option<&String>)
        ensures
            match r {
                Some(n) => fn_name(self.fns@, addr) == Some(n@),
                None => fn_name(self.fns@, addr).is_none(),
            },
    {
        match self.get_fn(addr) {
            Some(f) => match &f.name {
                Some(n) => Some(n),
                None => None,
            },
            None => None,
        }
    }

    /// The block at `addr`; none where the address is no known block.
    pub fn addr_to_block(&self, addr: &Address) -> (r: Option<&Block>)
        ensures
            match r {
                Some(b) => find_block(self.blocks@, *addr) == Some(*b),
                None => find_block(self.blocks@, *addr).is_none(),
            },
    {
        let mut i: usize = 0;
        while i < self.blocks.len()
            invariant
                0 <= i <= self.blocks.len(),
                forall|j: int| 0 <= j < i ==> self.blocks@[j].address != *addr,
            decreases self.blocks.len() - i,
        {
            if self.blocks[i].address == *addr {
                assert(block_first(self.blocks@, *addr, i as int));
                proof {
                    let c = choose|k: int| block_first(self.blocks@, *addr, k);
                    lemma_first_unique(|k: int| block_first(self.blocks@, *addr, k), |k: int| self.blocks@[k].address == *addr, i as int, c);
                }
                return Some(&self.blocks[i]);
            }
            i += 1;
        }
        None
    }

    /// The entry of the string literal `s`.
    pub fn get_string(&self, s: &String) -> (r: Option<&StringInfo>)
        ensures
            match r {
                Some(e) => find_string(self.strings@, s@) == Some(*e),
                None => find_string(self.strings@, s@).is_none(),
            },
    {
        let mut i: usize = 0;
        while i < self.strings.len()
            invariant
                0 <= i <= self.strings.len(),
                forall|j: int| 0 <= j < i ==> self.strings@[j].value@ != s@,
            decreases self.strings.len() - i,
        {
            if self.strings[i].value == *s {
                assert(string_first(self.strings@, s@, i as int));
                proof {
                    let c = choose|k: int| string_first(self.strings@, s@, k);
                    lemma_first_unique(|k: int| string_first(self.strings@, s@, k), |k: int| self.strings@[k].value@ == s@, i as int, c);
                }
                return Some(&self.strings[i]);
            }
            i += 1;
        }
        None
    }

    /// The vtable named `n`.
    pub fn get_vtable(&self, n: &String) -> (r: Option<&VtableInfo>)
        ensures
            match r {
                Some(v) => find_vtable(self.vtables@, n@) == Some(*v),
                None => find_vtable(self.vtables@, n@).is_none(),
            },
    {
        let mut i: usize = 0;
        while i < self.vtables.len()
            invariant
                0 <= i <= self.vtables.len(),
                forall|j: int| 0 <= j < i ==> self.vtables@[j].name@ != n@,
            decreases self.vtables.len() - i,
        {
            if self.vtables[i].name == *n {
                assert(vtable_first(self.vtables@, n@, i as int));
                proof {
                    let c = choose|k: int| vtable_first(self.vtables@, n@, k);
                    lemma_first_unique(|k: int| vtable_first(self.vtables@, n@, k), |k: int| self.vtables@[k].name@ == n@, i as int, c);
                }
                return Some(&self.vtables[i]);
            }
            i += 1;
        }
        None
    }
}

} // verus!
