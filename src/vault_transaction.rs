use vstd::prelude::*;

use crate::compiled_keys::{
    all_refs, candidate, first_in, ix_refs, drained, occurs_before, pick_idx, has_candidate, has_key, meta_of, none_left, referenced, refs_with_payer, signs,
    sorted, table_of, writes, CompiledKeys, KeyEntry,
};
use crate::instruction::{AccountMeta, AddressLookupTableAccount, Instruction};
use crate::pubkey::{key_lt, Pubkey};

verus! {

/// Why a message could not be compiled.
#[derive(Clone, Copy, Debug, PartialEq, Eq, Structural)]
pub enum Error {
    /// A lookup table would have to take a key past index 255.
    InvalidAddressLookupTableAccount,
    /// A key cannot be resolved, or a count does not fit in a byte.
    InvalidTransactionMessage,
}

/// An instruction with its program and accounts given as indexes into the
/// message's keys.
#[derive(Clone, Debug)]
pub struct CompiledInstruction {
    pub program_id_index: u8,
    pub account_indexes: Vec<u8>,
    pub data: Vec<u8>,
}

/// The keys that a message loads from one lookup table, by index.
#[derive(Clone, Debug)]
pub struct MessageAddressTableLookup {
    pub account_key: Pubkey,
    pub writable_indexes: Vec<u8>,
    pub readonly_indexes: Vec<u8>,
}

/// A message that the multisig program executes on behalf of a vault.
#[derive(Clone, Debug)]
pub struct VaultTransactionMessage {
    pub num_signers: u8,
    pub num_writable_signers: u8,
    pub num_writable_non_signers: u8,
    pub account_keys: Vec<Pubkey>,
    pub instructions: Vec<CompiledInstruction>,
    pub address_table_lookups: Vec<MessageAddressTableLookup>,
}

impl Error {
    /// The message of the error.
    pub fn message(&self) -> (r: String)
        ensures
            *self == Error::InvalidAddressLookupTableAccount ==> r@ == "Invalid AddressLookupTableAccount"@,
            *self == Error::InvalidTransactionMessage ==> r@ == "Invalid TransactionMessage"@,
    {
        match self {
            Error::InvalidAddressLookupTableAccount => "Invalid AddressLookupTableAccount".to_string(),
            Error::InvalidTransactionMessage => "Invalid TransactionMessage".to_string(),
        }
    }
}

/// `k` may be loaded from a table with the given writability: it is
/// referenced, never as a signer, and its writability is `w`.
pub open spec fn cand_key(refs: Seq<AccountMeta>, k: Pubkey, w: bool) -> bool {
    referenced(refs, k) && !signs(refs, k) && writes(refs, k) == w
}

/// `k` is still free when table `t` is walked: a candidate that no earlier
/// table holds.
pub open spec fn free_at(refs: Seq<AccountMeta>, tables: Seq<AddressLookupTableAccount>, t: int, k: Pubkey, w: bool) -> bool {
    cand_key(refs, k, w) && !in_tables(tables.take(t), k)
}

/// The indexes that table `t` takes among its first `n` addresses: the first
/// place of each free key with writability `w`, ascending.
pub open spec fn table_picks(refs: Seq<AccountMeta>, tables: Seq<AddressLookupTableAccount>, t: int, n: int, w: bool) -> Seq<int>
    decreases n,
{
    if n <= 0 {
        Seq::empty()
    } else if free_at(refs, tables, t, tables[t].addresses@[n - 1], w) && first_in(tables[t].addresses@, n - 1) {
        table_picks(refs, tables, t, n - 1, w).push(n - 1)
    } else {
        table_picks(refs, tables, t, n - 1, w)
    }
}

/// The indexes that table `t` takes, writable or read-only.
pub open spec fn picks(refs: Seq<AccountMeta>, tables: Seq<AddressLookupTableAccount>, t: int, w: bool) -> Seq<int> {
    table_picks(refs, tables, t, tables[t].addresses@.len() as int, w)
}

/// A lookup as its table key and its writable and read-only indexes.
pub open spec fn lookup_view(l: MessageAddressTableLookup) -> (Pubkey, Seq<int>, Seq<int>) {
    (l.account_key, l.writable_indexes@.map_values(|b: u8| b as int), l.readonly_indexes@.map_values(|b: u8| b as int))
}

/// The lookups of the first `n` tables: one per table that takes a key, in
/// table order; a table that takes nothing adds none.
pub open spec fn lookup_plan(refs: Seq<AccountMeta>, tables: Seq<AddressLookupTableAccount>, n: int) -> Seq<(Pubkey, Seq<int>, Seq<int>)>
    decreases n,
{
    if n <= 0 {
        Seq::empty()
    } else if picks(refs, tables, n - 1, true).len() > 0 || picks(refs, tables, n - 1, false).len() > 0 {
        lookup_plan(refs, tables, n - 1).push((tables[n - 1].key, picks(refs, tables, n - 1, true), picks(refs, tables, n - 1, false)))
    } else {
        lookup_plan(refs, tables, n - 1)
    }
}

/// The keys that the first `n` tables load, writable or read-only, table
/// after table.
pub open spec fn plan_loaded(refs: Seq<AccountMeta>, tables: Seq<AddressLookupTableAccount>, n: int, w: bool) -> Seq<Pubkey>
    decreases n,
{
    if n <= 0 {
        Seq::empty()
    } else {
        plan_loaded(refs, tables, n - 1, w) + picks(refs, tables, n - 1, w).map_values(|i: int| tables[n - 1].addresses@[i])
    }
}

/// The keys that all tables load, writable or read-only.
pub open spec fn loaded_keys(refs: Seq<AccountMeta>, tables: Seq<AddressLookupTableAccount>, w: bool) -> Seq<Pubkey> {
    plan_loaded(refs, tables, tables.len() as int, w)
}

/// What the indexes of a message address: its static keys, then the writable
/// keys loaded from tables, then the read-only ones.
pub open spec fn message_keys(m: VaultTransactionMessage, refs: Seq<AccountMeta>, tables: Seq<AddressLookupTableAccount>) -> Seq<Pubkey> {
    m.account_keys@ + loaded_keys(refs, tables, true) + loaded_keys(refs, tables, false)
}

/// Table `t` would have to take a free key whose first place is past index
/// 255.
pub open spec fn overflow_at(refs: Seq<AccountMeta>, tables: Seq<AddressLookupTableAccount>, t: int) -> bool {
    exists|i: int|
        256 <= i < tables[t].addresses@.len() && first_in(tables[t].addresses@, i) && (free_at(refs, tables, t, #[trigger] tables[t].addresses@[i], true)
            || free_at(refs, tables, t, tables[t].addresses@[i], false))
}

/// Some table would have to take a key past index 255.
pub open spec fn table_overflow(refs: Seq<AccountMeta>, tables: Seq<AddressLookupTableAccount>) -> bool {
    exists|t: int| 0 <= t < tables.len() && #[trigger] overflow_at(refs, tables, t)
}

/// `c` is `ix` with its keys replaced by their positions in `keys`.
pub open spec fn compiles_to(c: CompiledInstruction, ix: Instruction, keys: Seq<Pubkey>) -> bool {
    &&& c.data@ == ix.data@
    &&& c.program_id_index < keys.len()
    &&& keys[c.program_id_index as int] == ix.program_id
    &&& c.account_indexes@.len() == ix.accounts@.len()
    &&& forall|j: int| 0 <= j < c.account_indexes@.len() ==> (#[trigger] c.account_indexes@[j]) < keys.len()
        && keys[c.account_indexes@[j] as int] == ix.accounts@[j].pubkey
}

/// Finds the position of `k` in `keys`.
fn find_index(keys: &Vec<Pubkey>, k: &Pubkey) -> (r: Option<u8>)
    requires
        keys@.len() <= 256,
    ensures
        match r {
            Some(i) => i < keys@.len() && keys@[i as int] == *k,
            None => !keys@.contains(*k),
        },
{
    let n = keys.len();
    let mut i: usize = 0;
    while i < n
        invariant
            i <= n == keys@.len() <= 256,
            forall|j: int| 0 <= j < i ==> keys@[j] != *k,
        decreases n - i,
    {
        if keys[i].same(k) {
            return Some(i as u8);
        }
        i = i + 1;
    }
    None
}

/// Replaces the keys of `ix` by their positions in `keys`. Fails when a key
/// is not there or the instruction has more than 255 accounts.
fn compile_instruction(ix: &Instruction, keys: &Vec<Pubkey>) -> (r: Option<CompiledInstruction>)
    requires
        keys@.len() <= 256,
    ensures
        match r {
            Some(c) => compiles_to(c, *ix, keys@) && ix.accounts@.len() <= 255,
            None => ix.accounts@.len() > 255 || !keys@.contains(ix.program_id) || exists|j: int|
                0 <= j < ix.accounts@.len() && !keys@.contains((#[trigger] ix.accounts@[j]).pubkey),
        },
{
    if ix.accounts.len() > 255 {
        return None;
    }
    let program_id_index = match find_index(keys, &ix.program_id) {
        Some(i) => i,
        None => return None,
    };
    let mut account_indexes: Vec<u8> = Vec::new();
    let n = ix.accounts.len();
    let mut j: usize = 0;
    while j < n
        invariant
            j <= n == ix.accounts@.len(),
            keys@.len() <= 256,
            account_indexes@.len() == j,
            forall|q: int| 0 <= q < j ==> (#[trigger] account_indexes@[q]) < keys@.len()
                && keys@[account_indexes@[q] as int] == ix.accounts@[q].pubkey,
        decreases n - j,
    {
        match find_index(keys, &ix.accounts[j].pubkey) {
            Some(i) => account_indexes.push(i),
            None => return None,
        }
        j = j + 1;
    }
    Some(CompiledInstruction { program_id_index, account_indexes, data: ix.data.clone() })
}

/// How many leading entries have a class of at most `bound`; in an ordered
/// sequence these are exactly the first ones.
fn prefix_count(s: &Vec<KeyEntry>, payer: &Option<Pubkey>, bound: u8) -> (r: usize)
    requires
        ordered(s@, *payer),
    ensures
        r <= s@.len(),
        forall|j: int| 0 <= j < s@.len() ==> (j < r <==> rank(#[trigger] s@[j], *payer) <= bound),
{
    let n = s.len();
    let mut i: usize = 0;
    while i < n && rank_of(&s[i], payer) <= bound
        invariant
            i <= n == s@.len(),
            ordered(s@, *payer),
            forall|j: int| 0 <= j < i ==> rank(#[trigger] s@[j], *payer) <= bound,
        decreases n - i,
    {
        i = i + 1;
    }
    proof {
        assert forall|j: int| 0 <= j < s@.len() implies (j < i <==> rank(#[trigger] s@[j], *payer) <= bound) by {
            if j > i {
                assert(rank(s@[i as int], *payer) <= rank(s@[j], *payer));
            }
        }
    }
    i
}

/// Position class of a key among the static keys: 0 for the payer, then
/// writable signers, read-only signers, writable non-signers and read-only
/// non-signers.
pub open spec fn rank(e: KeyEntry, payer: Option<Pubkey>) -> int {
    if payer == Some(e.key) {
        0
    } else if e.meta.is_signer {
        if e.meta.is_writable { 1 } else { 2 }
    } else {
        if e.meta.is_writable { 3 } else { 4 }
    }
}

/// Strictly ascending by class, and by key bytes within a class.
pub open spec fn ordered(s: Seq<KeyEntry>, payer: Option<Pubkey>) -> bool {
    forall|i: int, j: int|
        0 <= i < j < s.len() ==> rank(#[trigger] s[i], payer) < rank(#[trigger] s[j], payer) || (rank(s[i], payer)
            == rank(s[j], payer) && key_lt(s[i].key, s[j].key))
}

fn rank_of(e: &KeyEntry, payer: &Option<Pubkey>) -> (r: u8)
    ensures
        r as int == rank(*e, *payer),
{
    match payer {
        Some(p) => {
            if p.same(&e.key) {
                return 0;
            }
        },
        None => {},
    }
    if e.meta.is_signer {
        if e.meta.is_writable { 1 } else { 2 }
    } else {
        if e.meta.is_writable { 3 } else { 4 }
    }
}

proof fn lemma_same_len(a: Seq<KeyEntry>, b: Seq<KeyEntry>, payer: Option<Pubkey>)
    requires
        ordered(a, payer),
        sorted(b),
        forall|e: KeyEntry| #[trigger] a.contains(e) <==> b.contains(e),
    ensures
        a.len() == b.len(),
{
    assert(a.no_duplicates()) by {
        assert forall|i: int, j: int| 0 <= i < a.len() && 0 <= j < a.len() && i != j implies a[i] != a[j] by {
            if i < j { assert(rank(a[i], payer) < rank(a[j], payer) || key_lt(a[i].key, a[j].key)); }
            else { assert(rank(a[j], payer) < rank(a[i], payer) || key_lt(a[j].key, a[i].key)); }
        }
    }
    assert(b.no_duplicates()) by {
        assert forall|i: int, j: int| 0 <= i < b.len() && 0 <= j < b.len() && i != j implies b[i] != b[j] by {
            if i < j { assert(key_lt(b[i].key, b[j].key)); } else { assert(key_lt(b[j].key, b[i].key)); }
        }
    }
    a.unique_seq_to_set();
    b.unique_seq_to_set();
    assert(a.to_set() =~= b.to_set());
}

/// Puts the entries in message order: the payer first, then writable
/// signers, read-only signers, writable non-signers and read-only
/// non-signers, each class ascending by key bytes.
fn order_static(entries: &Vec<KeyEntry>, payer: Option<Pubkey>) -> (r: Vec<KeyEntry>)
    requires
        sorted(entries@),
    ensures
        ordered(r@, payer),
        forall|e: KeyEntry| #[trigger] r@.contains(e) <==> entries@.contains(e),
        r@.len() == entries@.len(),
{
    let mut out: Vec<KeyEntry> = Vec::new();
    let n = entries.len();
    let mut c: u8 = 0;
    while c < 5
        invariant
            c <= 5,
            n == entries@.len(),
            sorted(entries@),
            ordered(out@, payer),
            forall|j: int| 0 <= j < out@.len() ==> rank(#[trigger] out@[j], payer) < c,
            forall|e: KeyEntry| #[trigger] out@.contains(e) <==> (entries@.contains(e) && rank(e, payer) < c),
        decreases 5 - c,
    {
        let ghost start = out@;
        let mut i: usize = 0;
        while i < n
            invariant
                c < 5,
                i <= n == entries@.len(),
                sorted(entries@),
                ordered(out@, payer),
                start.len() <= out@.len(),
                forall|j: int| 0 <= j < start.len() ==> out@[j] == start[j],
                forall|j: int| 0 <= j < start.len() ==> rank(#[trigger] start[j], payer) < c,
                forall|j: int| start.len() <= j < out@.len() ==> rank(#[trigger] out@[j], payer) == c
                    && (forall|q: int| i <= q < n ==> key_lt(out@[j].key, #[trigger] entries@[q].key)),
                forall|e: KeyEntry| #[trigger] start.contains(e) <==> (entries@.contains(e) && rank(e, payer) < c),
                forall|e: KeyEntry| #[trigger] out@.contains(e) <==> (start.contains(e) || exists|q: int|
                    0 <= q < i && entries@[q] == e && rank(e, payer) == c),
            decreases n - i,
        {
            let e = entries[i];
            if rank_of(&e, &payer) == c {
                let ghost before = out@;
                out.push(e);
                proof {
                    assert forall|j: int| 0 <= j < before.len() implies rank(#[trigger] out@[j], payer) < c || (rank(out@[j], payer) == c
                        && key_lt(out@[j].key, e.key)) by {
                        assert(out@[j] == before[j]);
                        if j < start.len() {
                            assert(before[j] == start[j]);
                        } else {
                            assert(entries@[i as int] == e);
                        }
                    }
                    assert(ordered(out@, payer)) by {
                        assert forall|a: int, b: int| 0 <= a < b < out@.len() implies rank(#[trigger] out@[a], payer) < rank(#[trigger] out@[b], payer)
                            || (rank(out@[a], payer) == rank(out@[b], payer) && key_lt(out@[a].key, out@[b].key)) by {
                            if b < before.len() {
                                assert(out@[a] == before[a] && out@[b] == before[b]);
                            }
                        }
                    }
                    assert forall|j: int| start.len() <= j < out@.len() implies rank(#[trigger] out@[j], payer) == c
                        && (forall|q: int| i + 1 <= q < n ==> key_lt(out@[j].key, #[trigger] entries@[q].key)) by {
                        if j < before.len() {
                            assert(out@[j] == before[j]);
                        } else {
                            assert(out@[j] == entries@[i as int]);
                            assert forall|q: int| i + 1 <= q < n implies key_lt(out@[j].key, #[trigger] entries@[q].key) by {
                                assert(key_lt(entries@[i as int].key, entries@[q].key));
                            }
                        }
                    }
                    assert forall|x: KeyEntry| #[trigger] out@.contains(x) <==> (start.contains(x) || exists|q: int|
                        0 <= q < i + 1 && entries@[q] == x && rank(x, payer) == c) by {
                        if out@.contains(x) {
                            let j = choose|j: int| 0 <= j < out@.len() && out@[j] == x;
                            if j < before.len() {
                                assert(before.contains(x));
                            } else {
                                assert(entries@[i as int] == x);
                            }
                        }
                        if start.contains(x) {
                            let j = choose|j: int| 0 <= j < start.len() && start[j] == x;
                            assert(out@[j] == x);
                        }
                        if exists|q: int| 0 <= q < i + 1 && entries@[q] == x && rank(x, payer) == c {
                            let q = choose|q: int| 0 <= q < i + 1 && entries@[q] == x && rank(x, payer) == c;
                            if q < i {
                                assert(before.contains(x));
                                let j = choose|j: int| 0 <= j < before.len() && before[j] == x;
                                assert(out@[j] == x);
                            } else {
                                assert(out@[before.len() as int] == x);
                            }
                        }
                    }
                }
            } else {
                proof {
                    assert forall|x: KeyEntry| #[trigger] out@.contains(x) <==> (start.contains(x) || exists|q: int|
                        0 <= q < i + 1 && entries@[q] == x && rank(x, payer) == c) by {
                        if exists|q: int| 0 <= q < i + 1 && entries@[q] == x && rank(x, payer) == c {
                            let q = choose|q: int| 0 <= q < i + 1 && entries@[q] == x && rank(x, payer) == c;
                            assert(q < i);
                        }
                    }
                }
            }
            i = i + 1;
        }
        proof {
            assert forall|j: int| 0 <= j < out@.len() implies rank(#[trigger] out@[j], payer) < c + 1 by {
                if j < start.len() {
                    assert(out@[j] == start[j]);
                }
            }
            assert forall|x: KeyEntry| #[trigger] out@.contains(x) <==> (entries@.contains(x) && rank(x, payer) < c + 1) by {
                if entries@.contains(x) && rank(x, payer) == c {
                    let q = choose|q: int| 0 <= q < n && entries@[q] == x;
                    assert(exists|q: int| 0 <= q < i && entries@[q] == x && rank(x, payer) == c);
                }
            }
        }
        c = c + 1;
    }
    proof {
        assert forall|x: KeyEntry| #[trigger] out@.contains(x) <==> entries@.contains(x) by {
            if entries@.contains(x) {
                assert(rank(x, payer) < 5);
            }
        }
        lemma_same_len(out@, entries@, payer);
    }
    out
}

/// `k` is one of the addresses of some table.
pub open spec fn in_tables(tables: Seq<AddressLookupTableAccount>, k: Pubkey) -> bool {
    exists|t: int, i: int| 0 <= t < tables.len() && 0 <= i < tables[t].addresses@.len() && tables[t].addresses@[i] == k
}

proof fn lemma_sub_has_key(a: Seq<KeyEntry>, b: Seq<KeyEntry>, k: Pubkey)
    requires
        forall|e: KeyEntry| #[trigger] a.contains(e) ==> b.contains(e),
        has_key(a, k),
    ensures
        has_key(b, k),
{
    let i = choose|i: int| 0 <= i < a.len() && (#[trigger] a[i]).key == k;
    assert(a.contains(a[i]));
    let j = choose|j: int| 0 <= j < b.len() && b[j] == a[i];
    assert(b[j].key == k);
}

proof fn lemma_sub_candidate(a: Seq<KeyEntry>, b: Seq<KeyEntry>, k: Pubkey, w: bool)
    requires
        forall|e: KeyEntry| #[trigger] a.contains(e) ==> b.contains(e),
        has_candidate(a, k, w),
    ensures
        has_candidate(b, k, w),
{
    let i = choose|i: int| 0 <= i < a.len() && (#[trigger] a[i]).key == k && candidate(a[i]) && a[i].meta.is_writable == w;
    assert(a.contains(a[i]));
    let j = choose|j: int| 0 <= j < b.len() && b[j] == a[i];
    assert(b[j].key == k);
}

proof fn lemma_drained_trans(
    o: Seq<KeyEntry>,
    c1: Seq<KeyEntry>,
    w1: Seq<Pubkey>,
    r1: Seq<Pubkey>,
    c2: Seq<KeyEntry>,
    w2: Seq<Pubkey>,
    r2: Seq<Pubkey>,
)
    requires
        drained(o, c1, w1, r1),
        drained(c1, c2, w2, r2),
    ensures
        drained(o, c2, w1 + w2, r1 + r2),
{
    let w = w1 + w2;
    let r = r1 + r2;
    assert forall|e: KeyEntry| #[trigger] o.contains(e) && !c2.contains(e) implies candidate(e) && (if e.meta.is_writable {
        w.contains(e.key)
    } else {
        r.contains(e.key)
    }) by {
        if c1.contains(e) {
            if e.meta.is_writable {
                let j = choose|j: int| 0 <= j < w2.len() && w2[j] == e.key;
                assert(w[w1.len() + j] == e.key);
            } else {
                let j = choose|j: int| 0 <= j < r2.len() && r2[j] == e.key;
                assert(r[r1.len() + j] == e.key);
            }
        } else {
            if e.meta.is_writable {
                let j = choose|j: int| 0 <= j < w1.len() && w1[j] == e.key;
                assert(w[j] == e.key);
            } else {
                let j = choose|j: int| 0 <= j < r1.len() && r1[j] == e.key;
                assert(r[j] == e.key);
            }
        }
    }
    assert forall|j: int| 0 <= j < w.len() implies has_candidate(o, #[trigger] w[j], true) && !has_key(c2, w[j]) by {
        if j < w1.len() {
            assert(w[j] == w1[j]);
            if has_key(c2, w[j]) { lemma_sub_has_key(c2, c1, w[j]); }
        } else {
            assert(w[j] == w2[j - w1.len()]);
            lemma_sub_candidate(c1, o, w[j], true);
        }
    }
    assert forall|j: int| 0 <= j < r.len() implies has_candidate(o, #[trigger] r[j], false) && !has_key(c2, r[j]) by {
        if j < r1.len() {
            assert(r[j] == r1[j]);
            if has_key(c2, r[j]) { lemma_sub_has_key(c2, c1, r[j]); }
        } else {
            assert(r[j] == r2[j - r1.len()]);
            lemma_sub_candidate(c1, o, r[j], false);
        }
    }
    assert(w.no_duplicates()) by {
        assert forall|a: int, b: int| 0 <= a < w.len() && 0 <= b < w.len() && a != b implies w[a] != w[b] by {
            if a < w1.len() && b >= w1.len() {
                assert(has_candidate(c1, w2[b - w1.len()], true));
                lemma_candidate_key(c1, w2[b - w1.len()], true);
            } else if b < w1.len() && a >= w1.len() {
                assert(has_candidate(c1, w2[a - w1.len()], true));
                lemma_candidate_key(c1, w2[a - w1.len()], true);
            } else if a < w1.len() {
                assert(w[a] == w1[a] && w[b] == w1[b]);
            } else {
                assert(w[a] == w2[a - w1.len()] && w[b] == w2[b - w1.len()]);
            }
        }
    }
    assert(r.no_duplicates()) by {
        assert forall|a: int, b: int| 0 <= a < r.len() && 0 <= b < r.len() && a != b implies r[a] != r[b] by {
            if a < r1.len() && b >= r1.len() {
                assert(has_candidate(c1, r2[b - r1.len()], false));
                lemma_candidate_key(c1, r2[b - r1.len()], false);
            } else if b < r1.len() && a >= r1.len() {
                assert(has_candidate(c1, r2[a - r1.len()], false));
                lemma_candidate_key(c1, r2[a - r1.len()], false);
            } else if a < r1.len() {
                assert(r[a] == r1[a] && r[b] == r1[b]);
            } else {
                assert(r[a] == r2[a - r1.len()] && r[b] == r2[b - r1.len()]);
            }
        }
    }
}

proof fn lemma_candidate_key(s: Seq<KeyEntry>, k: Pubkey, w: bool)
    requires
        has_candidate(s, k, w),
    ensures
        has_key(s, k),
{
    let i = choose|i: int| 0 <= i < s.len() && (#[trigger] s[i]).key == k && candidate(s[i]) && s[i].meta.is_writable == w;
    assert(s[i].key == k);
}

/// Class of `k` among the static keys, from the flags of its references.
pub open spec fn key_rank(refs: Seq<AccountMeta>, payer: Option<Pubkey>, k: Pubkey) -> int {
    rank(KeyEntry { key: k, meta: meta_of(refs, k) }, payer)
}

/// The static keys are strictly ascending by class, then by key bytes.
pub open spec fn keys_ordered(keys: Seq<Pubkey>, refs: Seq<AccountMeta>, payer: Option<Pubkey>) -> bool {
    forall|i: int, j: int|
        0 <= i < j < keys.len() ==> key_rank(refs, payer, #[trigger] keys[i]) < key_rank(refs, payer, #[trigger] keys[j])
            || (key_rank(refs, payer, keys[i]) == key_rank(refs, payer, keys[j]) && key_lt(keys[i], keys[j]))
}

/// The header counts say which static keys sign and which are writable.
pub open spec fn header_matches(m: VaultTransactionMessage, refs: Seq<AccountMeta>) -> bool {
    &&& m.num_writable_signers <= m.num_signers
    &&& m.num_signers + m.num_writable_non_signers <= m.account_keys@.len()
    &&& forall|i: int| 0 <= i < m.account_keys@.len() ==> (signs(refs, #[trigger] m.account_keys@[i]) <==> i < m.num_signers)
    &&& forall|i: int| 0 <= i < m.account_keys@.len() ==> (writes(refs, #[trigger] m.account_keys@[i]) <==> (i
        < m.num_writable_signers || (m.num_signers <= i < m.num_signers + m.num_writable_non_signers)))
}

/// What a successful compilation returns for these inputs.
pub open spec fn compiled_message(
    m: VaultTransactionMessage,
    ixs: Seq<Instruction>,
    payer: Option<Pubkey>,
    tables: Seq<AddressLookupTableAccount>,
) -> bool {
    let refs = refs_with_payer(ixs, payer);
    let keys = message_keys(m, refs, tables);
    &&& keys.no_duplicates()
    &&& keys_ordered(m.account_keys@, refs, payer)
    &&& forall|k: Pubkey| #[trigger] m.account_keys@.contains(k) <==> (referenced(refs, k) && (signs(refs, k) || !in_tables(tables, k)))
    &&& forall|k: Pubkey| #[trigger] loaded_keys(refs, tables, true).contains(k) <==> (referenced(refs, k)
        && !signs(refs, k) && writes(refs, k) && in_tables(tables, k))
    &&& forall|k: Pubkey| #[trigger] loaded_keys(refs, tables, false).contains(k) <==> (referenced(refs, k)
        && !signs(refs, k) && !writes(refs, k) && in_tables(tables, k))
    &&& m.address_table_lookups@.map_values(|l: MessageAddressTableLookup| lookup_view(l)) == lookup_plan(refs, tables, tables.len() as int)
    &&& header_matches(m, refs)
    &&& payer is Some ==> m.account_keys@.len() > 0 && m.account_keys@[0] == payer->0
    &&& ixs.len() <= 255
    &&& key_count(refs) <= 255
    &&& forall|i: int| 0 <= i < ixs.len() ==> (#[trigger] ixs[i]).accounts@.len() <= 255
    &&& !table_overflow(refs, tables)
    &&& m.instructions@.len() == ixs.len()
    &&& forall|i: int| 0 <= i < ixs.len() ==> compiles_to(#[trigger] m.instructions@[i], ixs[i], keys)
}

proof fn lemma_initial_free(orig: Seq<KeyEntry>, refs: Seq<AccountMeta>, tables: Seq<AddressLookupTableAccount>)
    requires
        table_of(orig, refs),
    ensures
        forall|k: Pubkey, w: bool| #[trigger] has_candidate(orig, k, w) <==> free_at(refs, tables, 0, k, w),
{
    assert forall|k: Pubkey, w: bool| #[trigger] has_candidate(orig, k, w) <==> free_at(refs, tables, 0, k, w) by {
        assert(!in_tables(tables.take(0), k));
        if has_candidate(orig, k, w) {
            let i = choose|i: int| 0 <= i < orig.len() && (#[trigger] orig[i]).key == k && candidate(orig[i]) && orig[i].meta.is_writable == w;
            assert(has_key(orig, k));
        }
        if cand_key(refs, k, w) {
            assert(has_key(orig, k));
            let i = choose|i: int| 0 <= i < orig.len() && (#[trigger] orig[i]).key == k;
            assert(orig[i].meta == meta_of(refs, k));
        }
    }
}

proof fn lemma_free_step(refs: Seq<AccountMeta>, tables: Seq<AddressLookupTableAccount>, t: int)
    requires
        0 <= t < tables.len(),
    ensures
        forall|k: Pubkey, w: bool| #[trigger] free_at(refs, tables, t + 1, k, w) <==> (free_at(refs, tables, t, k, w)
            && !occurs_before(tables[t].addresses@, tables[t].addresses@.len() as int, k)),
{
    let a = tables[t].addresses@;
    assert forall|k: Pubkey, w: bool| #[trigger] free_at(refs, tables, t + 1, k, w) <==> (free_at(refs, tables, t, k, w)
        && !occurs_before(a, a.len() as int, k)) by {
        let upto_next = tables.take(t + 1);
        let upto_here = tables.take(t);
        if in_tables(upto_next, k) {
            let (u, i) = choose|u: int, i: int| 0 <= u < upto_next.len() && 0 <= i < upto_next[u].addresses@.len() && upto_next[u].addresses@[i] == k;
            if u < t {
                assert(upto_here[u] == upto_next[u]);
            } else {
                assert(a[i] == k);
            }
        }
        if in_tables(upto_here, k) {
            let (u, i) = choose|u: int, i: int| 0 <= u < upto_here.len() && 0 <= i < upto_here[u].addresses@.len() && upto_here[u].addresses@[i] == k;
            assert(upto_next[u] == upto_here[u]);
        }
        if occurs_before(a, a.len() as int, k) {
            let i = choose|i: int| 0 <= i < a.len() && a[i] == k;
            assert(upto_next[t] == tables[t]);
        }
    }
}

proof fn lemma_picks_eq(cur: Seq<KeyEntry>, refs: Seq<AccountMeta>, tables: Seq<AddressLookupTableAccount>, t: int, n: int)
    requires
        0 <= t < tables.len(),
        n <= tables[t].addresses@.len(),
        forall|k: Pubkey, w: bool| #[trigger] has_candidate(cur, k, w) <==> free_at(refs, tables, t, k, w),
    ensures
        pick_idx(cur, tables[t].addresses@, n, true) == table_picks(refs, tables, t, n, true),
        pick_idx(cur, tables[t].addresses@, n, false) == table_picks(refs, tables, t, n, false),
    decreases n,
{
    if n > 0 {
        lemma_picks_eq(cur, refs, tables, t, n - 1);
        let k = tables[t].addresses@[n - 1];
        assert(has_candidate(cur, k, true) == free_at(refs, tables, t, k, true));
        assert(has_candidate(cur, k, false) == free_at(refs, tables, t, k, false));
    }
}

proof fn lemma_payer_refs(ixs: Seq<Instruction>, p: Pubkey)
    ensures
        referenced(refs_with_payer(ixs, Some(p)), p),
        signs(refs_with_payer(ixs, Some(p)), p),
        writes(refs_with_payer(ixs, Some(p)), p),
{
    let refs = refs_with_payer(ixs, Some(p));
    let n = refs.len() - 1;
    assert(refs[n].pubkey == p && refs[n].is_signer && refs[n].is_writable);
}

proof fn lemma_one_writability(o: Seq<KeyEntry>, k: Pubkey)
    requires
        sorted(o),
        has_candidate(o, k, true),
    ensures
        !has_candidate(o, k, false),
{
    let i = choose|i: int| 0 <= i < o.len() && (#[trigger] o[i]).key == k && candidate(o[i]) && o[i].meta.is_writable == true;
    if has_candidate(o, k, false) {
        let j = choose|j: int| 0 <= j < o.len() && (#[trigger] o[j]).key == k && candidate(o[j]) && o[j].meta.is_writable == false;
        if i < j { assert(key_lt(o[i].key, o[j].key)); } else { assert(key_lt(o[j].key, o[i].key)); }
    }
}

/// Appends a copy of `src` to `dst`.
fn append_keys(dst: &mut Vec<Pubkey>, src: &Vec<Pubkey>)
    ensures
        final(dst)@ == old(dst)@ + src@,
{
    let n = src.len();
    let mut i: usize = 0;
    while i < n
        invariant
            i <= n == src@.len(),
            dst@ == old(dst)@ + src@.take(i as int),
        decreases n - i,
    {
        dst.push(src[i]);
        proof {
            assert(src@.take(i + 1) =~= src@.take(i as int).push(src@[i as int]));
        }
        i = i + 1;
    }
    proof {
        assert(src@.take(n as int) =~= src@);
    }
}

proof fn lemma_ix_in_all(ixs: Seq<Instruction>, i: int, a: AccountMeta)
    requires
        0 <= i < ixs.len(),
        ix_refs(ixs[i]).contains(a),
    ensures
        all_refs(ixs).contains(a),
    decreases ixs.len(),
{
    let pre = all_refs(ixs.drop_last());
    let x = ix_refs(ixs.last());
    assert(all_refs(ixs) == pre + x);
    if i == ixs.len() - 1 {
        let j = choose|j: int| 0 <= j < x.len() && x[j] == a;
        assert((pre + x)[pre.len() + j] == a);
    } else {
        assert(ixs.drop_last()[i] == ixs[i]);
        lemma_ix_in_all(ixs.drop_last(), i, a);
        let j = choose|j: int| 0 <= j < pre.len() && pre[j] == a;
        assert((pre + x)[j] == a);
    }
}

proof fn lemma_ix_referenced(ixs: Seq<Instruction>, payer: Option<Pubkey>, i: int)
    requires
        0 <= i < ixs.len(),
    ensures
        referenced(refs_with_payer(ixs, payer), ixs[i].program_id),
        forall|j: int| 0 <= j < ixs[i].accounts@.len() ==> referenced(refs_with_payer(ixs, payer), (#[trigger] ixs[i].accounts@[j]).pubkey),
{
    let refs = refs_with_payer(ixs, payer);
    let all = all_refs(ixs);
    assert(forall|q: int| 0 <= q < all.len() ==> refs[q] == #[trigger] all[q]);
    let x = ix_refs(ixs[i]);
    assert(x[0].pubkey == ixs[i].program_id);
    lemma_ix_in_all(ixs, i, x[0]);
    let q = choose|q: int| 0 <= q < all.len() && all[q] == x[0];
    assert(refs[q].pubkey == ixs[i].program_id);
    assert forall|j: int| 0 <= j < ixs[i].accounts@.len() implies referenced(refs, (#[trigger] ixs[i].accounts@[j]).pubkey) by {
        assert(x[j + 1] == ixs[i].accounts@[j]);
        lemma_ix_in_all(ixs, i, x[j + 1]);
        let q = choose|q: int| 0 <= q < all.len() && all[q] == x[j + 1];
        assert(refs[q].pubkey == ixs[i].accounts@[j].pubkey);
    }
}

proof fn lemma_placement(
    refs: Seq<AccountMeta>,
    payer: Option<Pubkey>,
    tables: Seq<AddressLookupTableAccount>,
    orig: Seq<KeyEntry>,
    cur: Seq<KeyEntry>,
    oe: Seq<KeyEntry>,
    ak: Seq<Pubkey>,
    lw: Seq<Pubkey>,
    lr: Seq<Pubkey>,
    all: Seq<Pubkey>,
)
    requires
        table_of(orig, refs),
        drained(orig, cur, lw, lr),
        forall|j: int| 0 <= j < lw.len() ==> in_tables(tables, #[trigger] lw[j]),
        forall|j: int| 0 <= j < lr.len() ==> in_tables(tables, #[trigger] lr[j]),
        forall|q: int| 0 <= q < tables.len() ==> none_left(cur, (#[trigger] tables[q]).addresses@, tables[q].addresses@.len() as int),
        ordered(oe, payer),
        forall|e: KeyEntry| #[trigger] oe.contains(e) <==> cur.contains(e),
        ak.len() == oe.len(),
        forall|j: int| 0 <= j < oe.len() ==> ak[j] == (#[trigger] oe[j]).key,
        all == ak + lw + lr,
    ensures
        forall|j: int| 0 <= j < oe.len() ==> (#[trigger] oe[j]).meta == meta_of(refs, oe[j].key),
        keys_ordered(ak, refs, payer),
        all.no_duplicates(),
        forall|k: Pubkey| #[trigger] all.contains(k) <==> referenced(refs, k),
        forall|k: Pubkey| #[trigger] ak.contains(k) <==> (referenced(refs, k) && (signs(refs, k) || !in_tables(tables, k))),
        forall|k: Pubkey| #[trigger] lw.contains(k) <==> (referenced(refs, k) && !signs(refs, k) && writes(refs, k) && in_tables(tables, k)),
        forall|k: Pubkey| #[trigger] lr.contains(k) <==> (referenced(refs, k) && !signs(refs, k) && !writes(refs, k) && in_tables(tables, k)),
{
    let ne = oe.len();
    // every static entry keeps the flags of its references
    assert forall|j: int| 0 <= j < ne implies (#[trigger] oe[j]).meta == meta_of(refs, oe[j].key) by {
        let e = oe[j];
        assert(oe.contains(e));
        assert(cur.contains(e));
        assert(orig.contains(e));
        let x = choose|x: int| 0 <= x < orig.len() && orig[x] == e;
        assert(orig[x].meta == meta_of(refs, orig[x].key));
    }
    assert forall|j: int| 0 <= j < ne implies key_rank(refs, payer, #[trigger] ak[j]) == rank(oe[j], payer) by {
        assert(ak[j] == oe[j].key);
        assert((KeyEntry { key: ak[j], meta: meta_of(refs, ak[j]) }) == oe[j]);
    }
    assert(keys_ordered(ak, refs, payer)) by {
        assert forall|a: int, b: int| 0 <= a < b < ak.len() implies key_rank(refs, payer, #[trigger] ak[a]) < key_rank(refs, payer, #[trigger] ak[b])
            || (key_rank(refs, payer, ak[a]) == key_rank(refs, payer, ak[b]) && key_lt(ak[a], ak[b])) by {
            assert(rank(oe[a], payer) < rank(oe[b], payer) || (rank(oe[a], payer)
                == rank(oe[b], payer) && key_lt(oe[a].key, oe[b].key)));
        }
    }
    // a static key is the key of an entry left in the table
    assert forall|k: Pubkey| #[trigger] ak.contains(k) <==> has_key(cur, k) by {
        if ak.contains(k) {
            let j = choose|j: int| 0 <= j < ak.len() && ak[j] == k;
            assert(oe.contains(oe[j]));
            assert(cur.contains(oe[j]));
            let x = choose|x: int| 0 <= x < cur.len() && cur[x] == oe[j];
            assert(cur[x].key == k);
        }
        if has_key(cur, k) {
            let x = choose|x: int| 0 <= x < cur.len() && (#[trigger] cur[x]).key == k;
            assert(cur.contains(cur[x]));
            assert(oe.contains(cur[x]));
            let j = choose|j: int| 0 <= j < ne && oe[j] == cur[x];
            assert(ak[j] == k);
        }
    }
    assert(ak.no_duplicates()) by {
        assert forall|a: int, b: int| 0 <= a < ak.len() && 0 <= b < ak.len() && a != b implies ak[a] != ak[b] by {
            if a < b {
                assert(key_rank(refs, payer, ak[a]) < key_rank(refs, payer, ak[b]) || key_lt(ak[a], ak[b]));
            } else {
                assert(key_rank(refs, payer, ak[b]) < key_rank(refs, payer, ak[a]) || key_lt(ak[b], ak[a]));
            }
        }
    }
    assert(all == ak + lw + lr);
    assert(all.no_duplicates()) by {
        assert forall|a: int, b: int| 0 <= a < all.len() && 0 <= b < all.len() && a != b implies all[a] != all[b] by {
            let n1 = ak.len() as int;
            let n2 = n1 + lw.len();
            if a < n1 && b < n1 {
                assert(all[a] == ak[a] && all[b] == ak[b]);
            } else if n1 <= a < n2 && n1 <= b < n2 {
                assert(all[a] == lw[a - n1] && all[b] == lw[b - n1]);
            } else if a >= n2 && b >= n2 {
                assert(all[a] == lr[a - n2] && all[b] == lr[b - n2]);
            } else {
                let ka = all[a];
                let kb = all[b];
                if a < n1 { assert(ak.contains(ka)) by { assert(ak[a] == ka); } }
                if b < n1 { assert(ak.contains(kb)) by { assert(ak[b] == kb); } }
                if n1 <= a < n2 { assert(lw[a - n1] == ka); assert(!has_key(cur, ka)); assert(has_candidate(orig, ka, true)); }
                if n1 <= b < n2 { assert(lw[b - n1] == kb); assert(!has_key(cur, kb)); assert(has_candidate(orig, kb, true)); }
                if a >= n2 { assert(lr[a - n2] == ka); assert(!has_key(cur, ka)); assert(has_candidate(orig, ka, false)); }
                if b >= n2 { assert(lr[b - n2] == kb); assert(!has_key(cur, kb)); assert(has_candidate(orig, kb, false)); }
                if ka == kb && ((n1 <= a < n2 && b >= n2) || (n1 <= b < n2 && a >= n2)) {
                    lemma_one_writability(orig, ka);
                }
            }
        }
    }
    // where each referenced key ends up
    assert forall|k: Pubkey| referenced(refs, k) implies #[trigger] all.contains(k) && (ak.contains(k) <==> (signs(refs, k) || !in_tables(tables, k)))
        && (lw.contains(k) <==> (!signs(refs, k) && writes(refs, k) && in_tables(tables, k)))
        && (lr.contains(k) <==> (!signs(refs, k) && !writes(refs, k) && in_tables(tables, k))) by {
        let x = choose|x: int| 0 <= x < orig.len() && (#[trigger] orig[x]).key == k;
        let e = orig[x];
        assert(e.meta == meta_of(refs, k));
        assert(orig.contains(e));
        if cur.contains(e) {
            let y = choose|y: int| 0 <= y < cur.len() && cur[y] == e;
            assert(has_key(cur, k)) by { assert(cur[y].key == k); }
            assert(ak.contains(k));
            let j = choose|j: int| 0 <= j < ak.len() && ak[j] == k;
            assert(all[j] == k);
            if !signs(refs, k) && in_tables(tables, k) {
                let (tq, iq) = choose|tq: int, iq: int| 0 <= tq < tables.len() && 0 <= iq < tables[tq].addresses@.len() && tables[tq].addresses@[iq] == k;
                assert(none_left(cur, tables[tq].addresses@, tables[tq].addresses@.len() as int));
                assert(has_candidate(cur, tables[tq].addresses@[iq], e.meta.is_writable));
            }
            if lw.contains(k) {
                let j2 = choose|j2: int| 0 <= j2 < lw.len() && lw[j2] == k;
                assert(!has_key(cur, lw[j2]));
            }
            if lr.contains(k) {
                let j2 = choose|j2: int| 0 <= j2 < lr.len() && lr[j2] == k;
                assert(!has_key(cur, lr[j2]));
            }
        } else {
            assert(candidate(e));
            assert(!ak.contains(k));
            if e.meta.is_writable {
                assert(lw.contains(k));
                let j = choose|j: int| 0 <= j < lw.len() && lw[j] == k;
                assert(in_tables(tables, lw[j]));
                assert(all[ak.len() + j] == k);
                assert(has_candidate(orig, k, true)) by { assert(orig[x].key == k); }
                lemma_one_writability(orig, k);
                if lr.contains(k) {
                    let j2 = choose|j2: int| 0 <= j2 < lr.len() && lr[j2] == k;
                    assert(has_candidate(orig, lr[j2], false));
                }
            } else {
                assert(lr.contains(k));
                let j = choose|j: int| 0 <= j < lr.len() && lr[j] == k;
                assert(in_tables(tables, lr[j]));
                assert(all[ak.len() + lw.len() + j] == k);
                assert(has_candidate(orig, k, false)) by { assert(orig[x].key == k); }
                if lw.contains(k) {
                    let j2 = choose|j2: int| 0 <= j2 < lw.len() && lw[j2] == k;
                    assert(has_candidate(orig, lw[j2], true));
                    lemma_one_writability(orig, k);
                }
            }
        }
    }
    assert forall|k: Pubkey| #[trigger] all.contains(k) implies referenced(refs, k) by {
        let j = choose|j: int| 0 <= j < all.len() && all[j] == k;
        if j < ak.len() {
            assert(ak.contains(k)) by { assert(ak[j] == k); }
            lemma_sub_has_key(cur, orig, k);
        } else if j < ak.len() + lw.len() {
            assert(lw[j - ak.len()] == k);
            lemma_candidate_key(orig, k, true);
        } else {
            assert(lr[j - ak.len() - lw.len()] == k);
            lemma_candidate_key(orig, k, false);
        }
    }
    assert forall|k: Pubkey| #[trigger] ak.contains(k) implies referenced(refs, k) by {
        lemma_sub_has_key(cur, orig, k);
    }
    assert forall|k: Pubkey| #[trigger] lw.contains(k) implies referenced(refs, k) by {
        let j = choose|j: int| 0 <= j < lw.len() && lw[j] == k;
        lemma_candidate_key(orig, lw[j], true);
    }
    assert forall|k: Pubkey| #[trigger] lr.contains(k) implies referenced(refs, k) by {
        let j = choose|j: int| 0 <= j < lr.len() && lr[j] == k;
        lemma_candidate_key(orig, lr[j], false);
    }
    assert forall|k: Pubkey| #[trigger] ak.contains(k) <==> (referenced(refs, k) && (signs(refs, k) || !in_tables(tables, k))) by {
        if referenced(refs, k) {
            assert(all.contains(k));
        }
        if ak.contains(k) {
            lemma_sub_has_key(cur, orig, k);
            assert(all.contains(k));
        }
    }
    assert forall|k: Pubkey| #[trigger] lw.contains(k) <==> (referenced(refs, k) && !signs(refs, k) && writes(refs, k) && in_tables(tables, k)) by {
        if referenced(refs, k) {
            assert(all.contains(k));
        }
        if lw.contains(k) {
            let j = choose|j: int| 0 <= j < lw.len() && lw[j] == k;
            lemma_candidate_key(orig, lw[j], true);
            assert(all.contains(k));
        }
    }
    assert forall|k: Pubkey| #[trigger] lr.contains(k) <==> (referenced(refs, k) && !signs(refs, k) && !writes(refs, k) && in_tables(tables, k)) by {
        if referenced(refs, k) {
            assert(all.contains(k));
        }
        if lr.contains(k) {
            let j = choose|j: int| 0 <= j < lr.len() && lr[j] == k;
            lemma_candidate_key(orig, lr[j], false);
            assert(all.contains(k));
        }
    }
}

/// How many distinct keys the references name.
pub open spec fn key_count(refs: Seq<AccountMeta>) -> nat {
    refs.map_values(|a: AccountMeta| a.pubkey).to_set().len()
}

proof fn lemma_key_count(refs: Seq<AccountMeta>, all: Seq<Pubkey>)
    requires
        all.no_duplicates(),
        forall|k: Pubkey| #[trigger] all.contains(k) <==> referenced(refs, k),
    ensures
        all.len() == key_count(refs),
{
    let ks = refs.map_values(|a: AccountMeta| a.pubkey);
    assert forall|k: Pubkey| #[trigger] ks.contains(k) <==> referenced(refs, k) by {
        if ks.contains(k) {
            let i = choose|i: int| 0 <= i < ks.len() && ks[i] == k;
            assert(refs[i].pubkey == k);
        }
        if referenced(refs, k) {
            let i = choose|i: int| 0 <= i < refs.len() && (#[trigger] refs[i]).pubkey == k;
            assert(ks[i] == k);
        }
    }
    all.unique_seq_to_set();
    assert(all.to_set() =~= ks.to_set());
}

proof fn lemma_header(oe: Seq<KeyEntry>, payer: Option<Pubkey>, refs: Seq<AccountMeta>, ak: Seq<Pubkey>, c1: int, c2: int, c3: int)
    requires
        ordered(oe, payer),
        ak.len() == oe.len(),
        forall|j: int| 0 <= j < oe.len() ==> ak[j] == (#[trigger] oe[j]).key,
        forall|j: int| 0 <= j < oe.len() ==> (#[trigger] oe[j]).meta == meta_of(refs, oe[j].key),
        payer is Some ==> signs(refs, payer->0) && writes(refs, payer->0),
        0 <= c1 <= oe.len(),
        0 <= c2 <= oe.len(),
        0 <= c3 <= oe.len(),
        forall|j: int| 0 <= j < oe.len() ==> (j < c1 <==> rank(#[trigger] oe[j], payer) <= 1),
        forall|j: int| 0 <= j < oe.len() ==> (j < c2 <==> rank(#[trigger] oe[j], payer) <= 2),
        forall|j: int| 0 <= j < oe.len() ==> (j < c3 <==> rank(#[trigger] oe[j], payer) <= 3),
    ensures
        c1 <= c2 <= c3,
        forall|i: int| 0 <= i < ak.len() ==> (signs(refs, #[trigger] ak[i]) <==> i < c2),
        forall|i: int| 0 <= i < ak.len() ==> (writes(refs, #[trigger] ak[i]) <==> (i < c1 || (c2 <= i < c3))),
        payer is Some && ak.contains(payer->0) ==> ak[0] == payer->0,
{
    if c2 < c1 {
        assert(rank(oe[c2], payer) <= 1);
    }
    if c3 < c2 {
        assert(rank(oe[c3], payer) <= 2);
    }
    assert forall|i: int| 0 <= i < ak.len() implies (signs(refs, #[trigger] ak[i]) <==> i < c2)
        && (writes(refs, ak[i]) <==> (i < c1 || (c2 <= i < c3))) by {
        assert(oe[i].meta == meta_of(refs, ak[i]));
    }
    if payer is Some && ak.contains(payer->0) {
        let j = choose|j: int| 0 <= j < ak.len() && ak[j] == payer->0;
        assert(rank(oe[j], payer) == 0);
        if j > 0 {
            assert(rank(oe[0], payer) < rank(oe[j], payer) || (rank(oe[0], payer) == rank(oe[j], payer) && key_lt(oe[0].key, oe[j].key)));
        }
    }
}

impl VaultTransactionMessage {
    /// Compiles `instructions` into a message for the multisig program to
    /// execute. Keys that neither sign nor are invoked move to the first
    /// lookup table that holds them; program ids count as not invoked, since
    /// the multisig program calls them later. The payer, if any, is the first
    /// static key.
    pub fn try_compile(
        payer: Option<Pubkey>,
        instructions: &[Instruction],
        address_lookup_table_accounts: &[AddressLookupTableAccount],
    ) -> (r: Result<VaultTransactionMessage, Error>)
        ensures
            match r {
                Ok(m) => compiled_message(m, instructions@, payer, address_lookup_table_accounts@),
                Err(Error::InvalidAddressLookupTableAccount) => instructions@.len() <= 255
                    && table_overflow(refs_with_payer(instructions@, payer), address_lookup_table_accounts@),
                Err(Error::InvalidTransactionMessage) => (instructions@.len() > 255 || key_count(refs_with_payer(instructions@, payer)) > 255
                    || exists|i: int| 0 <= i < instructions@.len() && (#[trigger] instructions@[i]).accounts@.len() > 255)
                    && (instructions@.len() > 255 || !table_overflow(refs_with_payer(instructions@, payer), address_lookup_table_accounts@)),
            },
    {
        let tables = address_lookup_table_accounts;
        if instructions.len() > 255 {
            return Err(Error::InvalidTransactionMessage);
        }
        let ghost refs = refs_with_payer(instructions@, payer);
        let mut keys = CompiledKeys::compile(instructions, payer);
        let ghost orig = keys.entries@;
        let mut lookups: Vec<MessageAddressTableLookup> = Vec::new();
        let mut loaded_w: Vec<Pubkey> = Vec::new();
        let mut loaded_r: Vec<Pubkey> = Vec::new();
        proof {
            assert(drained(orig, orig, loaded_w@, loaded_r@));
            lemma_initial_free(orig, refs, tables@);
            assert(lookups@.map_values(|l: MessageAddressTableLookup| lookup_view(l)) =~= lookup_plan(refs, tables@, 0));
        }
        let nt = tables.len();
        let mut t: usize = 0;
        while t < nt
            invariant
                t <= nt == tables@.len(),
                refs == refs_with_payer(instructions@, payer),
                tables@ == address_lookup_table_accounts@,
                instructions@.len() <= 255,
                table_of(orig, refs),
                keys.payer == payer,
                drained(orig, keys.entries@, loaded_w@, loaded_r@),
                loaded_w@ == plan_loaded(refs, tables@, t as int, true),
                loaded_r@ == plan_loaded(refs, tables@, t as int, false),
                lookups@.map_values(|l: MessageAddressTableLookup| lookup_view(l)) == lookup_plan(refs, tables@, t as int),
                forall|k: Pubkey, w: bool| #[trigger] has_candidate(keys.entries@, k, w) <==> free_at(refs, tables@, t as int, k, w),
                forall|q: int| 0 <= q < t ==> !(#[trigger] overflow_at(refs, tables@, q)),
                forall|j: int| 0 <= j < loaded_w@.len() ==> in_tables(tables@, #[trigger] loaded_w@[j]),
                forall|j: int| 0 <= j < loaded_r@.len() ==> in_tables(tables@, #[trigger] loaded_r@[j]),
                forall|q: int| 0 <= q < t ==> none_left(keys.entries@, (#[trigger] tables@[q]).addresses@, tables@[q].addresses@.len() as int),
            decreases nt - t,
        {
            let ghost c1 = keys.entries@;
            let ghost w1 = loaded_w@;
            let ghost r1 = loaded_r@;
            let ghost ls1 = lookups@;
            match keys.try_drain_table(&tables[t].addresses) {
                None => {
                    proof {
                        let tt = t as int;
                        let ii = choose|i: int| 256 <= i < tables@[tt].addresses@.len() && first_in(tables@[tt].addresses@, i)
                            && (has_candidate(c1, #[trigger] tables@[tt].addresses@[i], true) || has_candidate(c1, tables@[tt].addresses@[i], false));
                        let k = tables@[tt].addresses@[ii];
                        assert(free_at(refs, tables@, tt, k, true) || free_at(refs, tables@, tt, k, false));
                        assert(overflow_at(refs, tables@, tt));
                        assert(table_overflow(refs, tables@));
                    }
                    return Err(Error::InvalidAddressLookupTableAccount);
                },
                Some(d) => {
                    proof {
                        lemma_drained_trans(orig, c1, w1, r1, keys.entries@, d.writable_keys@, d.readonly_keys@);
                        assert forall|q: int| 0 <= q < t + 1 implies none_left(keys.entries@, (#[trigger] tables@[q]).addresses@, tables@[q].addresses@.len() as int) by {
                            if q < t {
                                assert forall|i: int| 0 <= i < tables@[q].addresses@.len() implies !has_candidate(keys.entries@, #[trigger] tables@[q].addresses@[i], true)
                                    && !has_candidate(keys.entries@, tables@[q].addresses@[i], false) by {
                                    let k = tables@[q].addresses@[i];
                                    if has_candidate(keys.entries@, k, true) { lemma_sub_candidate(keys.entries@, c1, k, true); }
                                    if has_candidate(keys.entries@, k, false) { lemma_sub_candidate(keys.entries@, c1, k, false); }
                                }
                            }
                        }
                        assert forall|j: int| 0 <= j < d.writable_keys@.len() implies in_tables(tables@, #[trigger] d.writable_keys@[j]) by {
                            assert(tables@[t as int].addresses@[d.writable_indexes@[j] as int] == d.writable_keys@[j]);
                        }
                        assert forall|j: int| 0 <= j < d.readonly_keys@.len() implies in_tables(tables@, #[trigger] d.readonly_keys@[j]) by {
                            assert(tables@[t as int].addresses@[d.readonly_indexes@[j] as int] == d.readonly_keys@[j]);
                        }
                    }
                    proof {
                        let tt = t as int;
                        let a = tables@[tt].addresses@;
                        lemma_picks_eq(c1, refs, tables@, tt, a.len() as int);
                        lemma_free_step(refs, tables@, tt);
                        assert(!overflow_at(refs, tables@, tt)) by {
                            if overflow_at(refs, tables@, tt) {
                                let ii = choose|i: int| 256 <= i < a.len() && first_in(a, i) && (free_at(refs, tables@, tt, #[trigger] a[i], true)
                                    || free_at(refs, tables@, tt, a[i], false));
                                assert(first_in(a, ii) && (has_candidate(c1, a[ii], true) || has_candidate(c1, a[ii], false)));
                            }
                        }
                        assert(d.writable_keys@ =~= picks(refs, tables@, tt, true).map_values(|i: int| a[i])) by {
                            assert(d.writable_indexes@.map_values(|b: u8| b as int).len() == d.writable_indexes@.len());
                            assert forall|j: int| 0 <= j < d.writable_keys@.len() implies d.writable_keys@[j] == picks(refs, tables@, tt, true).map_values(|i: int| a[i])[j] by {
                                assert(d.writable_indexes@.map_values(|b: u8| b as int)[j] == d.writable_indexes@[j] as int);
                            }
                        }
                        assert(d.readonly_keys@ =~= picks(refs, tables@, tt, false).map_values(|i: int| a[i])) by {
                            assert(d.readonly_indexes@.map_values(|b: u8| b as int).len() == d.readonly_indexes@.len());
                            assert forall|j: int| 0 <= j < d.readonly_keys@.len() implies d.readonly_keys@[j] == picks(refs, tables@, tt, false).map_values(|i: int| a[i])[j] by {
                                assert(d.readonly_indexes@.map_values(|b: u8| b as int)[j] == d.readonly_indexes@[j] as int);
                            }
                        }
                        assert(plan_loaded(refs, tables@, tt + 1, true) == w1 + d.writable_keys@);
                        assert(plan_loaded(refs, tables@, tt + 1, false) == r1 + d.readonly_keys@);
                    }
                    let ghost dw = d.writable_keys@;
                    let ghost dr = d.readonly_keys@;
                    let mut d = d;
                    if d.writable_indexes.len() > 0 || d.readonly_indexes.len() > 0 {
                        let l = MessageAddressTableLookup {
                            account_key: tables[t].key,
                            writable_indexes: d.writable_indexes,
                            readonly_indexes: d.readonly_indexes,
                        };
                        lookups.push(l);
                        proof {
                            assert(lookups@.map_values(|l: MessageAddressTableLookup| lookup_view(l)) =~= ls1.map_values(
                                |l: MessageAddressTableLookup| lookup_view(l)).push(lookup_view(l)));
                        }
                        loaded_w.append(&mut d.writable_keys);
                        loaded_r.append(&mut d.readonly_keys);
                    } else {
                        proof {
                            assert(w1 + d.writable_keys@ =~= w1);
                            assert(r1 + d.readonly_keys@ =~= r1);
                        }
                    }
                    proof {
                        assert forall|j: int| 0 <= j < loaded_w@.len() implies in_tables(tables@, #[trigger] loaded_w@[j]) by {
                            if j >= w1.len() {
                                assert(loaded_w@[j] == dw[j - w1.len()]);
                            }
                        }
                        assert forall|j: int| 0 <= j < loaded_r@.len() implies in_tables(tables@, #[trigger] loaded_r@[j]) by {
                            if j >= r1.len() {
                                assert(loaded_r@[j] == dr[j - r1.len()]);
                            }
                        }
                    }
                },
            }
            t = t + 1;
        }
        proof {
            assert(!table_overflow(refs, tables@)) by {
                if table_overflow(refs, tables@) {
                    let q = choose|q: int| 0 <= q < tables@.len() && #[trigger] overflow_at(refs, tables@, q);
                }
            }
        }
        let ghost cur = keys.entries@;
        let ordered_entries = order_static(&keys.entries, payer);
        let ne = ordered_entries.len();
        let mut account_keys: Vec<Pubkey> = Vec::new();
        let mut i: usize = 0;
        while i < ne
            invariant
                i <= ne == ordered_entries@.len(),
                account_keys@.len() == i,
                forall|j: int| 0 <= j < i ==> account_keys@[j] == (#[trigger] ordered_entries@[j]).key,
            decreases ne - i,
        {
            account_keys.push(ordered_entries[i].key);
            i = i + 1;
        }
        let mut all: Vec<Pubkey> = Vec::new();
        append_keys(&mut all, &account_keys);
        append_keys(&mut all, &loaded_w);
        append_keys(&mut all, &loaded_r);
        let ghost lw = loaded_w@;
        let ghost lr = loaded_r@;
        let ghost ak = account_keys@;
        proof {
            lemma_placement(refs, payer, tables@, orig, cur, ordered_entries@, ak, lw, lr, all@);
        }
        if all.len() > 255 {
            proof {
                lemma_key_count(refs, all@);
            }
            return Err(Error::InvalidTransactionMessage);
        }
        let c1 = prefix_count(&ordered_entries, &payer, 1);
        let c2 = prefix_count(&ordered_entries, &payer, 2);
        let c3 = prefix_count(&ordered_entries, &payer, 3);
        proof {
            if payer is Some {
                lemma_payer_refs(instructions@, payer->0);
            }
            lemma_header(ordered_entries@, payer, refs, ak, c1 as int, c2 as int, c3 as int);
        }
        let mut compiled: Vec<CompiledInstruction> = Vec::new();
        let ni = instructions.len();
        let mut q: usize = 0;
        while q < ni
            invariant
                q <= ni == instructions@.len(),
                all@.len() <= 255,
                refs == refs_with_payer(instructions@, payer),
                !table_overflow(refs, address_lookup_table_accounts@),
                forall|k: Pubkey| #[trigger] all@.contains(k) <==> referenced(refs, k),
                compiled@.len() == q,
                forall|j: int| 0 <= j < q ==> compiles_to(#[trigger] compiled@[j], instructions@[j], all@),
                forall|j: int| 0 <= j < q ==> (#[trigger] instructions@[j]).accounts@.len() <= 255,
            decreases ni - q,
        {
            match compile_instruction(&instructions[q], &all) {
                Some(c) => compiled.push(c),
                None => {
                    proof {
                        lemma_ix_referenced(instructions@, payer, q as int);
                    }
                    return Err(Error::InvalidTransactionMessage);
                },
            }
            q = q + 1;
        }
        let m = VaultTransactionMessage {
            num_signers: c2 as u8,
            num_writable_signers: c1 as u8,
            num_writable_non_signers: (c3 - c2) as u8,
            account_keys,
            instructions: compiled,
            address_table_lookups: lookups,
        };
        proof {
            lemma_key_count(refs, all@);
            assert(message_keys(m, refs, tables@) == all@);
            if payer is Some {
                lemma_payer_refs(instructions@, payer->0);
                assert(ak.contains(payer->0));
            }
        }
        Ok(m)
    }
}

/// The program reads index `idx` of a message as a signer.
pub open spec fn signer_at(m: VaultTransactionMessage, idx: int) -> bool {
    idx < m.num_signers
}

/// The program reads index `idx` of a message as writable: by the header
/// among the static keys, by the lookup side among the loaded ones.
pub open spec fn writable_at(m: VaultTransactionMessage, refs: Seq<AccountMeta>, tables: Seq<AddressLookupTableAccount>, idx: int) -> bool {
    let n = m.account_keys@.len();
    if idx < n {
        idx < m.num_writable_signers || (m.num_signers <= idx < m.num_signers + m.num_writable_non_signers)
    } else {
        idx < n + loaded_keys(refs, tables, true).len()
    }
}

/// The account reference that the program reads at index `idx`.
pub open spec fn decoded_ref(m: VaultTransactionMessage, refs: Seq<AccountMeta>, tables: Seq<AddressLookupTableAccount>, idx: int) -> AccountMeta {
    AccountMeta {
        pubkey: message_keys(m, refs, tables)[idx],
        is_signer: signer_at(m, idx),
        is_writable: writable_at(m, refs, tables, idx),
    }
}

/// Decoding a compiled message gives back each instruction: its program id,
/// its accounts in order, each with the flags that all references to that
/// key give it, and its data unchanged. Where every reference to a key
/// carries the same flags, the decoded accounts are the input accounts.
pub proof fn lemma_round_trip(
    m: VaultTransactionMessage,
    ixs: Seq<Instruction>,
    payer: Option<Pubkey>,
    tables: Seq<AddressLookupTableAccount>,
    i: int,
)
    requires
        compiled_message(m, ixs, payer, tables),
        0 <= i < ixs.len(),
    ensures
        message_keys(m, refs_with_payer(ixs, payer), tables)[m.instructions@[i].program_id_index as int] == ixs[i].program_id,
        m.instructions@[i].data@ == ixs[i].data@,
        m.instructions@[i].account_indexes@.len() == ixs[i].accounts@.len(),
        forall|j: int| 0 <= j < ixs[i].accounts@.len() ==> {
            let a = (#[trigger] ixs[i].accounts@[j]);
            let refs = refs_with_payer(ixs, payer);
            decoded_ref(m, refs_with_payer(ixs, payer), tables, m.instructions@[i].account_indexes@[j] as int) == (AccountMeta {
                pubkey: a.pubkey,
                is_signer: signs(refs, a.pubkey),
                is_writable: writes(refs, a.pubkey),
            })
        },
        (forall|j: int| 0 <= j < ixs[i].accounts@.len() ==> {
            let a = (#[trigger] ixs[i].accounts@[j]);
            a.is_signer == signs(refs_with_payer(ixs, payer), a.pubkey) && a.is_writable == writes(refs_with_payer(ixs, payer), a.pubkey)
        }) ==> forall|j: int| 0 <= j < ixs[i].accounts@.len() ==> decoded_ref(m, refs_with_payer(ixs, payer), tables, m.instructions@[i].account_indexes@[j] as int)
            == #[trigger] ixs[i].accounts@[j],
{
    let refs = refs_with_payer(ixs, payer);
    let keys = message_keys(m, refs_with_payer(ixs, payer), tables);
    let c = m.instructions@[i];
    let n = m.account_keys@.len();
    let lw = loaded_keys(refs, tables, true);
    let lr = loaded_keys(refs, tables, false);
    assert(compiles_to(c, ixs[i], keys));
    assert forall|j: int| 0 <= j < ixs[i].accounts@.len() implies {
        let a = (#[trigger] ixs[i].accounts@[j]);
        decoded_ref(m, refs_with_payer(ixs, payer), tables, c.account_indexes@[j] as int) == (AccountMeta {
            pubkey: a.pubkey,
            is_signer: signs(refs, a.pubkey),
            is_writable: writes(refs, a.pubkey),
        })
    } by {
        let idx = c.account_indexes@[j] as int;
        let k = keys[idx];
        if idx < n {
            assert(keys[idx] == m.account_keys@[idx]);
        } else if idx < n + lw.len() {
            assert(keys[idx] == lw[idx - n]);
            assert(lw.contains(k));
        } else {
            assert(keys[idx] == lr[idx - n - lw.len()]);
            assert(lr.contains(k));
        }
    }
}

/// `x` comes strictly before `y` among the static keys.
pub open spec fn key_before(refs: Seq<AccountMeta>, payer: Option<Pubkey>, x: Pubkey, y: Pubkey) -> bool {
    key_rank(refs, payer, x) < key_rank(refs, payer, y) || (key_rank(refs, payer, x) == key_rank(refs, payer, y) && key_lt(x, y))
}

proof fn lemma_ordered_unique(a: Seq<Pubkey>, b: Seq<Pubkey>, refs: Seq<AccountMeta>, payer: Option<Pubkey>)
    requires
        keys_ordered(a, refs, payer),
        keys_ordered(b, refs, payer),
        forall|k: Pubkey| #[trigger] a.contains(k) <==> b.contains(k),
    ensures
        a == b,
    decreases a.len(),
{
    if a.len() == 0 {
        if b.len() > 0 {
            assert(b.contains(b[0]));
            assert(a.contains(b[0]));
        }
        assert(a =~= b);
    } else {
        assert(a.contains(a[0]));
        assert(b.len() > 0);
        assert(b.contains(b[0]));
        assert(a.contains(b[0]));
        let x = a[0];
        let y = b[0];
        let p = choose|p: int| 0 <= p < b.len() && b[p] == x;
        let q = choose|q: int| 0 <= q < a.len() && a[q] == y;
        if p > 0 && q > 0 {
            assert(key_before(refs, payer, y, x));
            assert(key_before(refs, payer, x, y));
        }
        assert(x == y);
        let a2 = a.drop_first();
        let b2 = b.drop_first();
        assert(keys_ordered(a2, refs, payer)) by {
            assert forall|i: int, j: int| 0 <= i < j < a2.len() implies key_before(refs, payer, #[trigger] a2[i], #[trigger] a2[j]) by {
                assert(a2[i] == a[i + 1] && a2[j] == a[j + 1]);
            }
        }
        assert(keys_ordered(b2, refs, payer)) by {
            assert forall|i: int, j: int| 0 <= i < j < b2.len() implies key_before(refs, payer, #[trigger] b2[i], #[trigger] b2[j]) by {
                assert(b2[i] == b[i + 1] && b2[j] == b[j + 1]);
            }
        }
        assert forall|k: Pubkey| #[trigger] a2.contains(k) <==> b2.contains(k) by {
            if a2.contains(k) {
                let i = choose|i: int| 0 <= i < a2.len() && a2[i] == k;
                assert(a[i + 1] == k);
                assert(key_before(refs, payer, a[0], a[i + 1]));
                assert(a.contains(k));
                let j = choose|j: int| 0 <= j < b.len() && b[j] == k;
                assert(j != 0);
                assert(b2[j - 1] == k);
            }
            if b2.contains(k) {
                let i = choose|i: int| 0 <= i < b2.len() && b2[i] == k;
                assert(b[i + 1] == k);
                assert(key_before(refs, payer, b[0], b[i + 1]));
                assert(b.contains(k));
                assert(a.contains(k));
                let j = choose|j: int| 0 <= j < a.len() && a[j] == k;
                assert(j != 0);
                assert(a2[j - 1] == k);
            }
        }
        lemma_ordered_unique(a2, b2, refs, payer);
        assert(a =~= b) by {
            assert forall|i: int| 0 <= i < a.len() implies a[i] == b[i] by {
                if i > 0 {
                    assert(a[i] == a2[i - 1] && b[i] == b2[i - 1]);
                }
            }
        }
    }
}

proof fn lemma_no_table_picks(refs: Seq<AccountMeta>, tables: Seq<AddressLookupTableAccount>, t: int, n: int, w: bool)
    requires
        0 <= t < tables.len(),
        n <= tables[t].addresses@.len(),
        forall|k: Pubkey| #[trigger] in_tables(tables, k) ==> !referenced(refs, k),
    ensures
        table_picks(refs, tables, t, n, w).len() == 0,
    decreases n,
{
    if n > 0 {
        lemma_no_table_picks(refs, tables, t, n - 1, w);
        assert(in_tables(tables, tables[t].addresses@[n - 1]));
    }
}

proof fn lemma_no_picks(refs: Seq<AccountMeta>, tables: Seq<AddressLookupTableAccount>, n: int)
    requires
        n <= tables.len(),
        forall|k: Pubkey| #[trigger] in_tables(tables, k) ==> !referenced(refs, k),
    ensures
        lookup_plan(refs, tables, n).len() == 0,
        plan_loaded(refs, tables, n, true).len() == 0,
        plan_loaded(refs, tables, n, false).len() == 0,
    decreases n,
{
    if n > 0 {
        lemma_no_picks(refs, tables, n - 1);
        let a = tables[n - 1].addresses@;
        lemma_no_table_picks(refs, tables, n - 1, a.len() as int, true);
        lemma_no_table_picks(refs, tables, n - 1, a.len() as int, false);
    }
}


/// Tables that hold none of the referenced keys change nothing: the message
/// compiled with them has no lookups and equals the message compiled
/// without tables, key for key and index for index.
pub proof fn lemma_disjoint_tables(
    m1: VaultTransactionMessage,
    m2: VaultTransactionMessage,
    ixs: Seq<Instruction>,
    payer: Option<Pubkey>,
    tables: Seq<AddressLookupTableAccount>,
)
    requires
        compiled_message(m1, ixs, payer, Seq::empty()),
        compiled_message(m2, ixs, payer, tables),
        forall|k: Pubkey| #[trigger] in_tables(tables, k) ==> !referenced(refs_with_payer(ixs, payer), k),
    ensures
        m1.address_table_lookups@.len() == 0,
        m2.address_table_lookups@.len() == 0,
        m1.account_keys@ == m2.account_keys@,
        m1.num_signers == m2.num_signers,
        m1.num_writable_signers == m2.num_writable_signers,
        m1.num_writable_non_signers == m2.num_writable_non_signers,
        m1.instructions@.len() == m2.instructions@.len(),
        forall|i: int| 0 <= i < m1.instructions@.len() ==> {
            &&& (#[trigger] m1.instructions@[i]).program_id_index == m2.instructions@[i].program_id_index
            &&& m1.instructions@[i].account_indexes@ == m2.instructions@[i].account_indexes@
            &&& m1.instructions@[i].data@ == m2.instructions@[i].data@
        },
{
    let refs = refs_with_payer(ixs, payer);
    let e = Seq::<AddressLookupTableAccount>::empty();
    lemma_no_picks(refs, tables, tables.len() as int);
    assert(m1.address_table_lookups@.map_values(|l: MessageAddressTableLookup| lookup_view(l)).len() == 0);
    assert(m2.address_table_lookups@.map_values(|l: MessageAddressTableLookup| lookup_view(l)).len() == 0);
    let a = m1.account_keys@;
    let b = m2.account_keys@;
    assert forall|k: Pubkey| #[trigger] a.contains(k) <==> b.contains(k) by {
        assert(!in_tables(e, k));
    }
    lemma_ordered_unique(a, b, refs, payer);
    let n = a.len();
    assert(message_keys(m1, refs, e) =~= a);
    assert(message_keys(m2, refs, tables) =~= a);
    // the header is fixed by which keys sign and which are writable
    if m1.num_signers < m2.num_signers {
        assert(signs(refs, b[m1.num_signers as int]));
    }
    if m2.num_signers < m1.num_signers {
        assert(signs(refs, a[m2.num_signers as int]));
    }
    if m1.num_writable_signers < m2.num_writable_signers {
        assert(writes(refs, b[m1.num_writable_signers as int]));
    }
    if m2.num_writable_signers < m1.num_writable_signers {
        assert(writes(refs, a[m2.num_writable_signers as int]));
    }
    if m1.num_writable_non_signers < m2.num_writable_non_signers {
        assert(writes(refs, b[m1.num_signers + m1.num_writable_non_signers]));
    }
    if m2.num_writable_non_signers < m1.num_writable_non_signers {
        assert(writes(refs, a[m2.num_signers + m2.num_writable_non_signers]));
    }
    assert forall|i: int| 0 <= i < m1.instructions@.len() implies {
        &&& (#[trigger] m1.instructions@[i]).program_id_index == m2.instructions@[i].program_id_index
        &&& m1.instructions@[i].account_indexes@ == m2.instructions@[i].account_indexes@
        &&& m1.instructions@[i].data@ == m2.instructions@[i].data@
    } by {
        let c1 = m1.instructions@[i];
        let c2 = m2.instructions@[i];
        assert(compiles_to(c1, ixs[i], a));
        assert(compiles_to(c2, ixs[i], a));
        assert(a.no_duplicates());
        assert(c1.account_indexes@ =~= c2.account_indexes@) by {
            assert forall|j: int| 0 <= j < c1.account_indexes@.len() implies c1.account_indexes@[j] == c2.account_indexes@[j] by {
                assert(a[c1.account_indexes@[j] as int] == a[c2.account_indexes@[j] as int]);
            }
        }
    }
}

/// How many writable (`w`) or read-only indexes the lookups hold in all.
pub open spec fn index_total(v: Seq<(Pubkey, Seq<int>, Seq<int>)>, w: bool) -> int
    decreases v.len(),
{
    if v.len() == 0 {
        0
    } else {
        index_total(v.drop_last(), w) + if w { v.last().1.len() } else { v.last().2.len() }
    }
}

proof fn lemma_plan_total(refs: Seq<AccountMeta>, tables: Seq<AddressLookupTableAccount>, n: int, w: bool)
    requires
        n <= tables.len(),
    ensures
        index_total(lookup_plan(refs, tables, n), w) == plan_loaded(refs, tables, n, w).len(),
    decreases n,
{
    if n > 0 {
        lemma_plan_total(refs, tables, n - 1, w);
        let p = lookup_plan(refs, tables, n - 1);
        let x = (tables[n - 1].key, picks(refs, tables, n - 1, true), picks(refs, tables, n - 1, false));
        assert(p.push(x).drop_last() =~= p);
    }
}

/// The distinct writable keys of the references, the payer included.
pub open spec fn writable_keys(refs: Seq<AccountMeta>) -> Set<Pubkey> {
    Set::new(|k: Pubkey| referenced(refs, k) && writes(refs, k))
}

/// The distinct signing keys of the references, the payer included.
pub open spec fn signer_keys(refs: Seq<AccountMeta>) -> Set<Pubkey> {
    Set::new(|k: Pubkey| referenced(refs, k) && signs(refs, k))
}

/// Compilation keeps count of writable keys and of signers: the distinct
/// writable keys are the writable static keys that the header counts plus
/// the writable indexes of all lookups, and the distinct signers are
/// exactly the signers that the header counts, none of them loaded from a
/// table.
pub proof fn lemma_conservation(
    m: VaultTransactionMessage,
    ixs: Seq<Instruction>,
    payer: Option<Pubkey>,
    tables: Seq<AddressLookupTableAccount>,
)
    requires
        compiled_message(m, ixs, payer, tables),
    ensures
        writable_keys(refs_with_payer(ixs, payer)).len() == m.num_writable_signers + m.num_writable_non_signers
            + index_total(m.address_table_lookups@.map_values(|l: MessageAddressTableLookup| lookup_view(l)), true),
        signer_keys(refs_with_payer(ixs, payer)).len() == m.num_signers,
        forall|k: Pubkey| #[trigger] loaded_keys(refs_with_payer(ixs, payer), tables, true).contains(k) ==> !signs(refs_with_payer(ixs, payer), k),
        forall|k: Pubkey| #[trigger] loaded_keys(refs_with_payer(ixs, payer), tables, false).contains(k) ==> !signs(refs_with_payer(ixs, payer), k),
{
    let refs = refs_with_payer(ixs, payer);
    let a = m.account_keys@;
    let lw = loaded_keys(refs_with_payer(ixs, payer), tables, true);
    let lr = loaded_keys(refs_with_payer(ixs, payer), tables, false);
    let ns = m.num_signers as int;
    let nws = m.num_writable_signers as int;
    let nwn = m.num_writable_non_signers as int;
    let all = message_keys(m, refs, tables);
    lemma_plan_total(refs, tables, tables.len() as int, true);
    let sw = a.subrange(0, nws) + a.subrange(ns, ns + nwn) + lw;
    assert(sw.no_duplicates()) by {
        assert forall|i: int, j: int| 0 <= i < sw.len() && 0 <= j < sw.len() && i != j implies sw[i] != sw[j] by {
            let pi = if i < nws { i } else if i < nws + nwn { i - nws + ns } else { a.len() + i - nws - nwn };
            let pj = if j < nws { j } else if j < nws + nwn { j - nws + ns } else { a.len() + j - nws - nwn };
            assert(sw[i] == all[pi]);
            assert(sw[j] == all[pj]);
        }
    }
    assert forall|k: Pubkey| #[trigger] sw.contains(k) <==> writable_keys(refs).contains(k) by {
        if sw.contains(k) {
            let i = choose|i: int| 0 <= i < sw.len() && sw[i] == k;
            if i < nws {
                assert(a[i] == k);
                assert(a.contains(k));
            } else if i < nws + nwn {
                assert(a[i - nws + ns] == k);
                assert(a.contains(k));
            } else {
                assert(lw[i - nws - nwn] == k);
                assert(lw.contains(k));
            }
        }
        if referenced(refs, k) && writes(refs, k) {
            if a.contains(k) {
                let i = choose|i: int| 0 <= i < a.len() && a[i] == k;
                if i < nws {
                    assert(sw[i] == k);
                } else {
                    assert(sw[i - ns + nws] == k);
                }
            } else {
                assert(lw.contains(k));
                let i = choose|i: int| 0 <= i < lw.len() && lw[i] == k;
                assert(sw[nws + nwn + i] == k);
            }
        }
    }
    sw.unique_seq_to_set();
    assert(sw.to_set() =~= writable_keys(refs));
    let ss = a.subrange(0, ns);
    assert(ss.no_duplicates()) by {
        assert forall|i: int, j: int| 0 <= i < ss.len() && 0 <= j < ss.len() && i != j implies ss[i] != ss[j] by {
            assert(ss[i] == all[i] && ss[j] == all[j]);
        }
    }
    assert forall|k: Pubkey| #[trigger] ss.contains(k) <==> signer_keys(refs).contains(k) by {
        if ss.contains(k) {
            let i = choose|i: int| 0 <= i < ss.len() && ss[i] == k;
            assert(a[i] == k);
            assert(a.contains(k));
        }
        if referenced(refs, k) && signs(refs, k) {
            assert(a.contains(k));
            let i = choose|i: int| 0 <= i < a.len() && a[i] == k;
            assert(ss[i] == k);
        }
    }
    ss.unique_seq_to_set();
    assert(ss.to_set() =~= signer_keys(refs));
}

/// Compilation is deterministic: two messages compiled from the same
/// instructions, payer and tables are the same message, field for field.
pub proof fn lemma_deterministic(
    m1: VaultTransactionMessage,
    m2: VaultTransactionMessage,
    ixs: Seq<Instruction>,
    payer: Option<Pubkey>,
    tables: Seq<AddressLookupTableAccount>,
)
    requires
        compiled_message(m1, ixs, payer, tables),
        compiled_message(m2, ixs, payer, tables),
    ensures
        m1.num_signers == m2.num_signers,
        m1.num_writable_signers == m2.num_writable_signers,
        m1.num_writable_non_signers == m2.num_writable_non_signers,
        m1.account_keys@ == m2.account_keys@,
        m1.address_table_lookups@.len() == m2.address_table_lookups@.len(),
        forall|i: int| 0 <= i < m1.address_table_lookups@.len() ==> {
            &&& (#[trigger] m1.address_table_lookups@[i]).account_key == m2.address_table_lookups@[i].account_key
            &&& m1.address_table_lookups@[i].writable_indexes@ == m2.address_table_lookups@[i].writable_indexes@
            &&& m1.address_table_lookups@[i].readonly_indexes@ == m2.address_table_lookups@[i].readonly_indexes@
        },
        m1.instructions@.len() == m2.instructions@.len(),
        forall|i: int| 0 <= i < m1.instructions@.len() ==> {
            &&& (#[trigger] m1.instructions@[i]).program_id_index == m2.instructions@[i].program_id_index
            &&& m1.instructions@[i].account_indexes@ == m2.instructions@[i].account_indexes@
            &&& m1.instructions@[i].data@ == m2.instructions@[i].data@
        },
{
    let refs = refs_with_payer(ixs, payer);
    let a = m1.account_keys@;
    let b = m2.account_keys@;
    lemma_ordered_unique(a, b, refs, payer);
    if m1.num_signers < m2.num_signers {
        assert(signs(refs, b[m1.num_signers as int]));
    }
    if m2.num_signers < m1.num_signers {
        assert(signs(refs, a[m2.num_signers as int]));
    }
    if m1.num_writable_signers < m2.num_writable_signers {
        assert(writes(refs, b[m1.num_writable_signers as int]));
    }
    if m2.num_writable_signers < m1.num_writable_signers {
        assert(writes(refs, a[m2.num_writable_signers as int]));
    }
    if m1.num_writable_non_signers < m2.num_writable_non_signers {
        assert(writes(refs, b[m1.num_signers + m1.num_writable_non_signers]));
    }
    if m2.num_writable_non_signers < m1.num_writable_non_signers {
        assert(writes(refs, a[m2.num_signers + m2.num_writable_non_signers]));
    }
    let v1 = m1.address_table_lookups@.map_values(|l: MessageAddressTableLookup| lookup_view(l));
    let v2 = m2.address_table_lookups@.map_values(|l: MessageAddressTableLookup| lookup_view(l));
    assert(v1 == v2);
    assert(v1.len() == m1.address_table_lookups@.len() && v2.len() == m2.address_table_lookups@.len());
    assert forall|i: int| 0 <= i < m1.address_table_lookups@.len() implies {
        &&& (#[trigger] m1.address_table_lookups@[i]).account_key == m2.address_table_lookups@[i].account_key
        &&& m1.address_table_lookups@[i].writable_indexes@ == m2.address_table_lookups@[i].writable_indexes@
        &&& m1.address_table_lookups@[i].readonly_indexes@ == m2.address_table_lookups@[i].readonly_indexes@
    } by {
        let l1 = m1.address_table_lookups@[i];
        let l2 = m2.address_table_lookups@[i];
        assert(v1[i] == lookup_view(l1));
        assert(v2[i] == lookup_view(l2));
        assert(lookup_view(l1) == lookup_view(l2));
        let w1 = lookup_view(l1).1;
        let w2 = lookup_view(l2).1;
        assert(w1 == w2);
        assert(w1.len() == l1.writable_indexes@.len());
        assert(w2.len() == l2.writable_indexes@.len());
        assert(l1.writable_indexes@ =~= l2.writable_indexes@) by {
            assert forall|j: int| 0 <= j < l1.writable_indexes@.len() implies l1.writable_indexes@[j] == l2.writable_indexes@[j] by {
                assert(w1[j] == l1.writable_indexes@[j] as int);
                assert(w2[j] == l2.writable_indexes@[j] as int);
            }
        }
        let r1 = lookup_view(l1).2;
        let r2 = lookup_view(l2).2;
        assert(r1 == r2);
        assert(r1.len() == l1.readonly_indexes@.len());
        assert(r2.len() == l2.readonly_indexes@.len());
        assert(l1.readonly_indexes@ =~= l2.readonly_indexes@) by {
            assert forall|j: int| 0 <= j < l1.readonly_indexes@.len() implies l1.readonly_indexes@[j] == l2.readonly_indexes@[j] by {
                assert(r1[j] == l1.readonly_indexes@[j] as int);
                assert(r2[j] == l2.readonly_indexes@[j] as int);
            }
        }
    }
    let keys = message_keys(m1, refs, tables);
    assert(message_keys(m2, refs, tables) == keys);
    assert forall|i: int| 0 <= i < m1.instructions@.len() implies {
        &&& (#[trigger] m1.instructions@[i]).program_id_index == m2.instructions@[i].program_id_index
        &&& m1.instructions@[i].account_indexes@ == m2.instructions@[i].account_indexes@
        &&& m1.instructions@[i].data@ == m2.instructions@[i].data@
    } by {
        let c1 = m1.instructions@[i];
        let c2 = m2.instructions@[i];
        assert(compiles_to(c1, ixs[i], keys));
        assert(compiles_to(c2, ixs[i], keys));
        assert(c1.account_indexes@ =~= c2.account_indexes@) by {
            assert forall|j: int| 0 <= j < c1.account_indexes@.len() implies c1.account_indexes@[j] == c2.account_indexes@[j] by {
                assert(keys[c1.account_indexes@[j] as int] == keys[c2.account_indexes@[j] as int]);
            }
        }
    }
}

/// Every key has the same flags under both lists of references.
pub open spec fn same_flags(r1: Seq<AccountMeta>, r2: Seq<AccountMeta>) -> bool {
    forall|k: Pubkey| #[trigger] meta_of(r1, k) == meta_of(r2, k) && referenced(r1, k) == referenced(r2, k)
}

proof fn lemma_table_picks_same(r1: Seq<AccountMeta>, r2: Seq<AccountMeta>, tables: Seq<AddressLookupTableAccount>, t: int, n: int, w: bool)
    requires
        same_flags(r1, r2),
    ensures
        table_picks(r1, tables, t, n, w) == table_picks(r2, tables, t, n, w),
    decreases n,
{
    if n > 0 {
        lemma_table_picks_same(r1, r2, tables, t, n - 1, w);
        let k = tables[t].addresses@[n - 1];
        assert(meta_of(r1, k) == meta_of(r2, k));
    }
}

proof fn lemma_plan_same(r1: Seq<AccountMeta>, r2: Seq<AccountMeta>, tables: Seq<AddressLookupTableAccount>, n: int)
    requires
        same_flags(r1, r2),
    ensures
        lookup_plan(r1, tables, n) == lookup_plan(r2, tables, n),
        plan_loaded(r1, tables, n, true) == plan_loaded(r2, tables, n, true),
        plan_loaded(r1, tables, n, false) == plan_loaded(r2, tables, n, false),
    decreases n,
{
    if n > 0 {
        lemma_plan_same(r1, r2, tables, n - 1);
        let len = tables[n - 1].addresses@.len() as int;
        lemma_table_picks_same(r1, r2, tables, n - 1, len, true);
        lemma_table_picks_same(r1, r2, tables, n - 1, len, false);
    }
}

/// The order of the instructions does not matter beyond their compiled
/// forms: two instruction lists whose references give every key the same
/// flags, as any reordering of one list does, compile to the same header,
/// the same static keys and the same lookups.
pub proof fn lemma_order_independent(
    m1: VaultTransactionMessage,
    m2: VaultTransactionMessage,
    ixs1: Seq<Instruction>,
    ixs2: Seq<Instruction>,
    payer: Option<Pubkey>,
    tables: Seq<AddressLookupTableAccount>,
)
    requires
        compiled_message(m1, ixs1, payer, tables),
        compiled_message(m2, ixs2, payer, tables),
        same_flags(refs_with_payer(ixs1, payer), refs_with_payer(ixs2, payer)),
    ensures
        m1.num_signers == m2.num_signers,
        m1.num_writable_signers == m2.num_writable_signers,
        m1.num_writable_non_signers == m2.num_writable_non_signers,
        m1.account_keys@ == m2.account_keys@,
        m1.address_table_lookups@.map_values(|l: MessageAddressTableLookup| lookup_view(l))
            == m2.address_table_lookups@.map_values(|l: MessageAddressTableLookup| lookup_view(l)),
{
    let r1 = refs_with_payer(ixs1, payer);
    let r2 = refs_with_payer(ixs2, payer);
    lemma_plan_same(r1, r2, tables, tables.len() as int);
    let a = m1.account_keys@;
    let b = m2.account_keys@;
    assert forall|k: Pubkey| #[trigger] a.contains(k) <==> b.contains(k) by {
        assert(meta_of(r1, k) == meta_of(r2, k));
    }
    assert(keys_ordered(b, r1, payer)) by {
        assert forall|i: int, j: int| 0 <= i < j < b.len() implies key_before(r1, payer, #[trigger] b[i], #[trigger] b[j]) by {
            assert(meta_of(r1, b[i]) == meta_of(r2, b[i]));
            assert(meta_of(r1, b[j]) == meta_of(r2, b[j]));
            assert(key_before(r2, payer, b[i], b[j]));
        }
    }
    lemma_ordered_unique(a, b, r1, payer);
    assert forall|i: int| 0 <= i < a.len() implies signs(r1, a[i]) == signs(r2, #[trigger] a[i]) && writes(r1, a[i]) == writes(r2, a[i]) by {
        assert(meta_of(r1, a[i]) == meta_of(r2, a[i]));
    }
    if m1.num_signers < m2.num_signers {
        assert(signs(r2, b[m1.num_signers as int]));
    }
    if m2.num_signers < m1.num_signers {
        assert(signs(r1, a[m2.num_signers as int]));
    }
    if m1.num_writable_signers < m2.num_writable_signers {
        assert(writes(r2, b[m1.num_writable_signers as int]));
    }
    if m2.num_writable_signers < m1.num_writable_signers {
        assert(writes(r1, a[m2.num_writable_signers as int]));
    }
    if m1.num_writable_non_signers < m2.num_writable_non_signers {
        assert(writes(r2, b[m1.num_signers + m1.num_writable_non_signers]));
    }
    if m2.num_writable_non_signers < m1.num_writable_non_signers {
        assert(writes(r1, a[m2.num_signers + m2.num_writable_non_signers]));
    }
}

} // verus!
