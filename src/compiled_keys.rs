use vstd::prelude::*;

use crate::instruction::{AccountMeta, Instruction};
use crate::pubkey::{key_lt, Pubkey};

verus! {

/// Access flags gathered for one key over a whole instruction list.
#[derive(Clone, Copy, Debug, PartialEq, Eq, Structural)]
pub struct KeyMeta {
    pub is_signer: bool,
    pub is_writable: bool,
    pub is_invoked: bool,
}

/// One key of the table with its gathered flags.
#[derive(Clone, Copy, Debug, PartialEq, Eq, Structural)]
pub struct KeyEntry {
    pub key: Pubkey,
    pub meta: KeyMeta,
}

/// The keys that a list of instructions references, ascending by bytes, each
/// with the flags of all its uses; and the payer, if one was given.
#[derive(Clone, Debug)]
pub struct CompiledKeys {
    pub payer: Option<Pubkey>,
    pub entries: Vec<KeyEntry>,
}

/// The references that one instruction makes: its program id, read-only and
/// unsigned, then its accounts in order. A program id is not marked as
/// invoked: the multisig program calls it later, so it may come from a table.
pub open spec fn ix_refs(ix: Instruction) -> Seq<AccountMeta> {
    seq![AccountMeta { pubkey: ix.program_id, is_signer: false, is_writable: false }] + ix.accounts@
}

/// All references of an instruction list, in order.
pub open spec fn all_refs(ixs: Seq<Instruction>) -> Seq<AccountMeta>
    decreases ixs.len(),
{
    if ixs.len() == 0 {
        Seq::empty()
    } else {
        all_refs(ixs.drop_last()) + ix_refs(ixs.last())
    }
}

/// All references of an instruction list, and last the payer as a writable
/// signer.
pub open spec fn refs_with_payer(ixs: Seq<Instruction>, payer: Option<Pubkey>) -> Seq<AccountMeta> {
    match payer {
        Some(p) => all_refs(ixs).push(AccountMeta { pubkey: p, is_signer: true, is_writable: true }),
        None => all_refs(ixs),
    }
}

/// Some reference names `k`.
pub open spec fn referenced(refs: Seq<AccountMeta>, k: Pubkey) -> bool {
    exists|i: int| 0 <= i < refs.len() && (#[trigger] refs[i]).pubkey == k
}

/// Some reference names `k` as a signer.
pub open spec fn signs(refs: Seq<AccountMeta>, k: Pubkey) -> bool {
    exists|i: int| 0 <= i < refs.len() && (#[trigger] refs[i]).pubkey == k && refs[i].is_signer
}

/// Some reference names `k` as writable.
pub open spec fn writes(refs: Seq<AccountMeta>, k: Pubkey) -> bool {
    exists|i: int| 0 <= i < refs.len() && (#[trigger] refs[i]).pubkey == k && refs[i].is_writable
}

/// The flags that the references give `k`.
pub open spec fn meta_of(refs: Seq<AccountMeta>, k: Pubkey) -> KeyMeta {
    KeyMeta { is_signer: signs(refs, k), is_writable: writes(refs, k), is_invoked: false }
}

/// Entries strictly ascending by key, hence without repeats.
pub open spec fn sorted(entries: Seq<KeyEntry>) -> bool {
    forall|i: int, j: int|
        0 <= i < j < entries.len() ==> key_lt(#[trigger] entries[i].key, #[trigger] entries[j].key)
}

/// Some entry holds `k`.
pub open spec fn has_key(entries: Seq<KeyEntry>, k: Pubkey) -> bool {
    exists|i: int| 0 <= i < entries.len() && (#[trigger] entries[i]).key == k
}

/// The entries are the table of `refs`: sorted, one per referenced key, each
/// with the flags of all its references.
pub open spec fn table_of(entries: Seq<KeyEntry>, refs: Seq<AccountMeta>) -> bool {
    &&& sorted(entries)
    &&& forall|k: Pubkey| has_key(entries, k) <==> referenced(refs, k)
    &&& forall|i: int| 0 <= i < entries.len() ==> (#[trigger] entries[i]).meta == meta_of(refs, entries[i].key)
}

proof fn lemma_push_refs(refs: Seq<AccountMeta>, a: AccountMeta, k: Pubkey)
    ensures
        referenced(refs.push(a), k) == (referenced(refs, k) || a.pubkey == k),
        signs(refs.push(a), k) == (signs(refs, k) || (a.pubkey == k && a.is_signer)),
        writes(refs.push(a), k) == (writes(refs, k) || (a.pubkey == k && a.is_writable)),
{
    let r2 = refs.push(a);
    assert(r2[refs.len() as int] == a);
    if referenced(refs, k) {
        let i = choose|i: int| 0 <= i < refs.len() && (#[trigger] refs[i]).pubkey == k;
        assert(r2[i] == refs[i]);
    }
    if signs(refs, k) {
        let i = choose|i: int| 0 <= i < refs.len() && (#[trigger] refs[i]).pubkey == k && refs[i].is_signer;
        assert(r2[i] == refs[i]);
    }
    if writes(refs, k) {
        let i = choose|i: int| 0 <= i < refs.len() && (#[trigger] refs[i]).pubkey == k && refs[i].is_writable;
        assert(r2[i] == refs[i]);
    }
    if referenced(r2, k) {
        let i = choose|i: int| 0 <= i < r2.len() && (#[trigger] r2[i]).pubkey == k;
        if i < refs.len() {
            assert(r2[i] == refs[i]);
        }
    }
    if signs(r2, k) {
        let i = choose|i: int| 0 <= i < r2.len() && (#[trigger] r2[i]).pubkey == k && r2[i].is_signer;
        if i < refs.len() {
            assert(r2[i] == refs[i]);
        }
    }
    if writes(r2, k) {
        let i = choose|i: int| 0 <= i < r2.len() && (#[trigger] r2[i]).pubkey == k && r2[i].is_writable;
        if i < refs.len() {
            assert(r2[i] == refs[i]);
        }
    }
}

/// Adds one reference to a table.
fn upsert(entries: &mut Vec<KeyEntry>, a: AccountMeta, Ghost(refs): Ghost<Seq<AccountMeta>>)
    requires
        table_of(old(entries)@, refs),
    ensures
        table_of(final(entries)@, refs.push(a)),
{
    let ghost r2 = refs.push(a);
    proof {
        assert forall|k: Pubkey| #[trigger] meta_of(r2, k) == meta_of(r2, k) by {
            lemma_push_refs(refs, a, k);
        }
    }
    let n = entries.len();
    let mut p: usize = 0;
    while p < n && entries[p].key.less_than(&a.pubkey)
        invariant
            p <= n == entries.len(),
            entries@ == old(entries)@,
            forall|i: int| 0 <= i < p ==> key_lt(#[trigger] entries@[i].key, a.pubkey),
        decreases n - p,
    {
        p = p + 1;
    }
    if p < n && entries[p].key.same(&a.pubkey) {
        let old_meta = entries[p].meta;
        let e = KeyEntry {
            key: a.pubkey,
            meta: KeyMeta {
                is_signer: old_meta.is_signer || a.is_signer,
                is_writable: old_meta.is_writable || a.is_writable,
                is_invoked: false,
            },
        };
        entries.set(p, e);
        proof {
            assert forall|k: Pubkey| has_key(entries@, k) <==> referenced(r2, k) by {
                lemma_push_refs(refs, a, k);
                if has_key(old(entries)@, k) {
                    let i = choose|i: int| 0 <= i < old(entries)@.len() && (#[trigger] old(entries)@[i]).key == k;
                    assert(entries@[i].key == k);
                }
                if has_key(entries@, k) {
                    let i = choose|i: int| 0 <= i < entries@.len() && (#[trigger] entries@[i]).key == k;
                    assert(old(entries)@[i].key == k);
                }
            }
            assert forall|i: int| 0 <= i < entries@.len() implies (#[trigger] entries@[i]).meta == meta_of(r2, entries@[i].key) by {
                lemma_push_refs(refs, a, entries@[i].key);
                if i != p {
                    assert(entries@[i] == old(entries)@[i]);
                    assert(old(entries)@[i].meta == meta_of(refs, old(entries)@[i].key));
                }
            }
        }
    } else {
        let e = KeyEntry {
            key: a.pubkey,
            meta: KeyMeta { is_signer: a.is_signer, is_writable: a.is_writable, is_invoked: false },
        };
        entries.insert(p, e);
        proof {
            assert(!has_key(old(entries)@, a.pubkey)) by {
                if has_key(old(entries)@, a.pubkey) {
                    let i = choose|i: int| 0 <= i < old(entries)@.len() && (#[trigger] old(entries)@[i]).key == a.pubkey;
                    if i < p {
                    } else if i > p {
                        assert(key_lt(old(entries)@[p as int].key, old(entries)@[i].key));
                    }
                }
            }
            assert forall|i: int, j: int| 0 <= i < j < entries@.len() implies key_lt(#[trigger] entries@[i].key, #[trigger] entries@[j].key) by {
                if i < p && j > p {
                    assert(entries@[i] == old(entries)@[i]);
                    assert(entries@[j] == old(entries)@[j - 1]);
                    assert(!key_lt(old(entries)@[p as int].key, a.pubkey));
                    if j - 1 > p {
                        assert(key_lt(old(entries)@[p as int].key, old(entries)@[j - 1].key));
                    }
                } else if i == p && j > p {
                    assert(entries@[j] == old(entries)@[j - 1]);
                    assert(!key_lt(old(entries)@[p as int].key, a.pubkey));
                    if j - 1 > p {
                        assert(key_lt(old(entries)@[p as int].key, old(entries)@[j - 1].key));
                    }
                } else if i > p {
                    assert(entries@[i] == old(entries)@[i - 1]);
                    assert(entries@[j] == old(entries)@[j - 1]);
                } else {
                    assert(entries@[i] == old(entries)@[i]);
                }
            }
            assert forall|k: Pubkey| has_key(entries@, k) <==> referenced(r2, k) by {
                lemma_push_refs(refs, a, k);
                if has_key(old(entries)@, k) {
                    let i = choose|i: int| 0 <= i < old(entries)@.len() && (#[trigger] old(entries)@[i]).key == k;
                    if i < p {
                        assert(entries@[i].key == k);
                    } else {
                        assert(entries@[i + 1].key == k);
                    }
                }
                if k == a.pubkey {
                    assert(entries@[p as int].key == k);
                }
                if has_key(entries@, k) {
                    let i = choose|i: int| 0 <= i < entries@.len() && (#[trigger] entries@[i]).key == k;
                    if i < p {
                        assert(old(entries)@[i].key == k);
                    } else if i > p {
                        assert(old(entries)@[i - 1].key == k);
                    }
                }
            }
            assert forall|i: int| 0 <= i < entries@.len() implies (#[trigger] entries@[i]).meta == meta_of(r2, entries@[i].key) by {
                lemma_push_refs(refs, a, entries@[i].key);
                if i < p {
                    assert(entries@[i] == old(entries)@[i]);
                    assert(old(entries)@[i].meta == meta_of(refs, old(entries)@[i].key));
                    assert(key_lt(old(entries)@[i].key, a.pubkey));
                } else if i > p {
                    assert(entries@[i] == old(entries)@[i - 1]);
                    assert(old(entries)@[i - 1].meta == meta_of(refs, old(entries)@[i - 1].key));
                    assert(has_key(old(entries)@, old(entries)@[i - 1].key));
                } else {
                    assert(!referenced(refs, a.pubkey));
                    assert(!signs(refs, a.pubkey));
                    assert(!writes(refs, a.pubkey));
                }
            }
        }
    }
}

/// Lists the references of `instructions` in order, then the payer.
fn collect_refs(instructions: &[Instruction], payer: Option<Pubkey>) -> (r: Vec<AccountMeta>)
    ensures
        r@ == refs_with_payer(instructions@, payer),
{
    let mut out: Vec<AccountMeta> = Vec::new();
    let n = instructions.len();
    let mut i: usize = 0;
    while i < n
        invariant
            i <= n == instructions@.len(),
            out@ == all_refs(instructions@.take(i as int)),
        decreases n - i,
    {
        let ix = &instructions[i];
        let ghost before = out@;
        out.push(AccountMeta { pubkey: ix.program_id, is_signer: false, is_writable: false });
        let m = ix.accounts.len();
        let mut j: usize = 0;
        while j < m
            invariant
                j <= m == ix.accounts@.len(),
                out@ == before + seq![AccountMeta { pubkey: ix.program_id, is_signer: false, is_writable: false }]
                    + ix.accounts@.take(j as int),
            decreases m - j,
        {
            out.push(ix.accounts[j]);
            proof {
                assert(ix.accounts@.take(j + 1) =~= ix.accounts@.take(j as int).push(ix.accounts@[j as int]));
            }
            j = j + 1;
        }
        proof {
            assert(ix.accounts@.take(m as int) =~= ix.accounts@);
            assert(instructions@.take(i + 1).drop_last() =~= instructions@.take(i as int));
            assert(instructions@.take(i + 1).last() == instructions@[i as int]);
            assert(out@ =~= all_refs(instructions@.take(i + 1)));
        }
        i = i + 1;
    }
    proof {
        assert(instructions@.take(n as int) =~= instructions@);
    }
    if let Some(p) = payer {
        out.push(AccountMeta { pubkey: p, is_signer: true, is_writable: true });
    }
    out
}

impl CompiledKeys {
    /// Gathers the keys that `instructions` reference, with the flags of all
    /// their uses, sorted by bytes. A payer is added as a writable signer.
    pub fn compile(instructions: &[Instruction], payer: Option<Pubkey>) -> (r: CompiledKeys)
        ensures
            r.payer == payer,
            table_of(r.entries@, refs_with_payer(instructions@, payer)),
    {
        let refs = collect_refs(instructions, payer);
        let mut entries: Vec<KeyEntry> = Vec::new();
        let n = refs.len();
        let mut i: usize = 0;
        proof {
            assert(refs@.take(0) =~= Seq::<AccountMeta>::empty());
        }
        while i < n
            invariant
                i <= n == refs@.len(),
                table_of(entries@, refs@.take(i as int)),
            decreases n - i,
        {
            proof {
                assert(refs@.take(i + 1) =~= refs@.take(i as int).push(refs@[i as int]));
            }
            upsert(&mut entries, refs[i], Ghost(refs@.take(i as int)));
            i = i + 1;
        }
        proof {
            assert(refs@.take(n as int) =~= refs@);
        }
        CompiledKeys { payer, entries }
    }
}

/// The entry may move to a lookup table: it neither signs nor is invoked.
pub open spec fn candidate(e: KeyEntry) -> bool {
    !e.meta.is_signer && !e.meta.is_invoked
}

/// Some entry with key `k` is a candidate with the given writability.
pub open spec fn has_candidate(s: Seq<KeyEntry>, k: Pubkey, writable: bool) -> bool {
    exists|i: int| 0 <= i < s.len() && (#[trigger] s[i]).key == k && candidate(s[i]) && s[i].meta.is_writable == writable
}

/// `cur` is what is left of `old` once the keys `wk` (writable) and `rk`
/// (read-only) have been moved to lookup tables.
pub open spec fn drained(old: Seq<KeyEntry>, cur: Seq<KeyEntry>, wk: Seq<Pubkey>, rk: Seq<Pubkey>) -> bool {
    &&& sorted(cur)
    &&& forall|e: KeyEntry| #[trigger] cur.contains(e) ==> old.contains(e)
    &&& forall|e: KeyEntry| #[trigger] old.contains(e) && !cur.contains(e) ==> candidate(e) && (if e.meta.is_writable {
        wk.contains(e.key)
    } else {
        rk.contains(e.key)
    })
    &&& forall|j: int| 0 <= j < wk.len() ==> has_candidate(old, #[trigger] wk[j], true) && !has_key(cur, wk[j])
    &&& forall|j: int| 0 <= j < rk.len() ==> has_candidate(old, #[trigger] rk[j], false) && !has_key(cur, rk[j])
    &&& wk.no_duplicates()
    &&& rk.no_duplicates()
}

proof fn lemma_remove(s: Seq<KeyEntry>, p: int)
    requires
        sorted(s),
        0 <= p < s.len(),
    ensures
        sorted(s.remove(p)),
        forall|e: KeyEntry| #[trigger] s.remove(p).contains(e) <==> (s.contains(e) && e != s[p]),
        forall|k: Pubkey| #[trigger] has_key(s.remove(p), k) <==> (has_key(s, k) && k != s[p].key),
{
    let t = s.remove(p);
    s.remove_ensures(p);
    assert forall|i: int, j: int| 0 <= i < j < t.len() implies key_lt(#[trigger] t[i].key, #[trigger] t[j].key) by {
        let ii = if i < p { i } else { i + 1 };
        let jj = if j < p { j } else { j + 1 };
        assert(t[i] == s[ii] && t[j] == s[jj]);
    }
    assert forall|e: KeyEntry| #[trigger] t.contains(e) <==> (s.contains(e) && e != s[p]) by {
        if t.contains(e) {
            let i = choose|i: int| 0 <= i < t.len() && t[i] == e;
            let ii = if i < p { i } else { i + 1 };
            assert(s[ii] == e);
            if ii < p { assert(key_lt(s[ii].key, s[p].key)); } else { assert(key_lt(s[p].key, s[ii].key)); }
        }
        if s.contains(e) && e != s[p] {
            let i = choose|i: int| 0 <= i < s.len() && s[i] == e;
            if i < p { assert(t[i] == e); } else { assert(t[i - 1] == e); }
        }
    }
    assert forall|k: Pubkey| #[trigger] has_key(t, k) <==> (has_key(s, k) && k != s[p].key) by {
        if has_key(t, k) {
            let i = choose|i: int| 0 <= i < t.len() && (#[trigger] t[i]).key == k;
            let ii = if i < p { i } else { i + 1 };
            assert(s[ii].key == k);
            if ii < p { assert(key_lt(s[ii].key, s[p].key)); } else { assert(key_lt(s[p].key, s[ii].key)); }
        }
        if has_key(s, k) && k != s[p].key {
            let i = choose|i: int| 0 <= i < s.len() && (#[trigger] s[i]).key == k;
            if i < p { assert(t[i].key == k); } else { assert(t[i - 1].key == k); }
        }
    }
}

/// Finds the position of `k` among the entries.
fn find_key(entries: &Vec<KeyEntry>, k: &Pubkey) -> (r: Option<usize>)
    ensures
        match r {
            Some(p) => p < entries@.len() && entries@[p as int].key == *k,
            None => !has_key(entries@, *k),
        },
{
    let n = entries.len();
    let mut i: usize = 0;
    while i < n
        invariant
            i <= n == entries@.len(),
            forall|j: int| 0 <= j < i ==> (#[trigger] entries@[j]).key != *k,
        decreases n - i,
    {
        if entries[i].key.same(k) {
            return Some(i);
        }
        i = i + 1;
    }
    None
}

/// Index `i` is the first place where its address occurs.
pub open spec fn first_in(a: Seq<Pubkey>, i: int) -> bool {
    forall|j: int| 0 <= j < i ==> a[j] != a[i]
}

/// `k` occurs among the first `n` addresses.
pub open spec fn occurs_before(a: Seq<Pubkey>, n: int, k: Pubkey) -> bool {
    exists|j: int| 0 <= j < n && a[j] == k
}

/// The indexes among the first `n` addresses that a table takes from the
/// candidates of `s` with the given writability: the first place of each
/// such key, ascending.
pub open spec fn pick_idx(s: Seq<KeyEntry>, a: Seq<Pubkey>, n: int, w: bool) -> Seq<int>
    decreases n,
{
    if n <= 0 {
        Seq::empty()
    } else if has_candidate(s, a[n - 1], w) && first_in(a, n - 1) {
        pick_idx(s, a, n - 1, w).push(n - 1)
    } else {
        pick_idx(s, a, n - 1, w)
    }
}

proof fn lemma_remove_candidate(s: Seq<KeyEntry>, p: int)
    requires
        sorted(s),
        0 <= p < s.len(),
    ensures
        forall|x: Pubkey, w: bool| #[trigger] has_candidate(s.remove(p), x, w) <==> (has_candidate(s, x, w) && x != s[p].key),
{
    let t = s.remove(p);
    s.remove_ensures(p);
    assert forall|x: Pubkey, w: bool| #[trigger] has_candidate(t, x, w) <==> (has_candidate(s, x, w) && x != s[p].key) by {
        if has_candidate(t, x, w) {
            let i = choose|i: int| 0 <= i < t.len() && (#[trigger] t[i]).key == x && candidate(t[i]) && t[i].meta.is_writable == w;
            let ii = if i < p { i } else { i + 1 };
            assert(s[ii] == t[i]);
            if ii < p { assert(key_lt(s[ii].key, s[p].key)); } else { assert(key_lt(s[p].key, s[ii].key)); }
        }
        if has_candidate(s, x, w) && x != s[p].key {
            let i = choose|i: int| 0 <= i < s.len() && (#[trigger] s[i]).key == x && candidate(s[i]) && s[i].meta.is_writable == w;
            if i < p { assert(t[i] == s[i]); } else { assert(t[i - 1] == s[i]); }
        }
    }
}

proof fn lemma_occurs_step(a: Seq<Pubkey>, i: int)
    requires
        0 <= i < a.len(),
    ensures
        forall|x: Pubkey| #[trigger] occurs_before(a, i + 1, x) == (occurs_before(a, i, x) || a[i] == x),
        first_in(a, i) == !occurs_before(a, i, a[i]),
{
    assert forall|x: Pubkey| #[trigger] occurs_before(a, i + 1, x) == (occurs_before(a, i, x) || a[i] == x) by {
        if occurs_before(a, i + 1, x) && a[i] != x {
            let j = choose|j: int| 0 <= j < i + 1 && a[j] == x;
            assert(j < i);
        }
        if a[i] == x {
            assert(a[i] == x);
        }
    }
    if !first_in(a, i) {
        let j = choose|j: int| 0 <= j < i && a[j] == a[i];
        assert(occurs_before(a, i, a[i]));
    }
}

proof fn lemma_candidate_unique(s: Seq<KeyEntry>, p: int)
    requires
        sorted(s),
        0 <= p < s.len(),
        candidate(s[p]),
    ensures
        forall|w: bool| #[trigger] has_candidate(s, s[p].key, w) <==> w == s[p].meta.is_writable,
{
    assert forall|w: bool| #[trigger] has_candidate(s, s[p].key, w) <==> w == s[p].meta.is_writable by {
        if has_candidate(s, s[p].key, w) {
            let q = choose|q: int| 0 <= q < s.len() && (#[trigger] s[q]).key == s[p].key && candidate(s[q]) && s[q].meta.is_writable == w;
            if q < p { assert(key_lt(s[q].key, s[p].key)); }
            if q > p { assert(key_lt(s[p].key, s[q].key)); }
        }
        if w == s[p].meta.is_writable {
            assert(s[p].key == s[p].key);
        }
    }
}

/// The indexes and keys that one lookup table takes over.
pub struct TableDrain {
    pub writable_indexes: Vec<u8>,
    pub readonly_indexes: Vec<u8>,
    pub writable_keys: Vec<Pubkey>,
    pub readonly_keys: Vec<Pubkey>,
}

/// The drain's indexes name its keys in `addresses`, ascending.
pub open spec fn drain_matches(d: TableDrain, addresses: Seq<Pubkey>) -> bool {
    &&& d.writable_indexes@.len() == d.writable_keys@.len()
    &&& d.readonly_indexes@.len() == d.readonly_keys@.len()
    &&& forall|j: int| 0 <= j < d.writable_indexes@.len() ==> (#[trigger] d.writable_indexes@[j]) < addresses.len()
        && addresses[d.writable_indexes@[j] as int] == d.writable_keys@[j]
    &&& forall|j: int| 0 <= j < d.readonly_indexes@.len() ==> (#[trigger] d.readonly_indexes@[j]) < addresses.len()
        && addresses[d.readonly_indexes@[j] as int] == d.readonly_keys@[j]
}

/// No candidate of `s` is among the first `n` addresses.
pub open spec fn none_left(s: Seq<KeyEntry>, addresses: Seq<Pubkey>, n: int) -> bool {
    forall|i: int| 0 <= i < n ==> !has_candidate(s, #[trigger] addresses[i], true)
        && !has_candidate(s, addresses[i], false)
}

proof fn lemma_candidate_in(s: Seq<KeyEntry>, k: Pubkey, w: bool)
    requires
        has_candidate(s, k, w),
    ensures
        has_key(s, k),
{
    let i = choose|i: int| 0 <= i < s.len() && (#[trigger] s[i]).key == k && candidate(s[i]) && s[i].meta.is_writable == w;
    assert(s[i].key == k);
}

impl CompiledKeys {
    /// Moves to `addresses` every key of the table that may live there,
    /// walking the addresses by ascending index. Fails when such a key first
    /// appears past index 255.
    pub fn try_drain_table(&mut self, addresses: &Vec<Pubkey>) -> (r: Option<TableDrain>)
        requires
            sorted(old(self).entries@),
        ensures
            final(self).payer == old(self).payer,
            match r {
                Some(d) => {
                    &&& drained(old(self).entries@, final(self).entries@, d.writable_keys@, d.readonly_keys@)
                    &&& drain_matches(d, addresses@)
                    &&& none_left(final(self).entries@, addresses@, addresses@.len() as int)
                    &&& d.writable_indexes@.map_values(|b: u8| b as int) == pick_idx(old(self).entries@, addresses@, addresses@.len() as int, true)
                    &&& d.readonly_indexes@.map_values(|b: u8| b as int) == pick_idx(old(self).entries@, addresses@, addresses@.len() as int, false)
                    &&& forall|x: Pubkey, w: bool| #[trigger] has_candidate(final(self).entries@, x, w) <==> (has_candidate(old(self).entries@, x, w)
                        && !occurs_before(addresses@, addresses@.len() as int, x))
                    &&& forall|i: int| 256 <= i < addresses@.len() ==> !(first_in(addresses@, i) && (has_candidate(old(self).entries@, #[trigger] addresses@[i], true)
                        || has_candidate(old(self).entries@, addresses@[i], false)))
                },
                None => exists|i: int|
                    256 <= i < addresses@.len() && first_in(addresses@, i) && (has_candidate(old(self).entries@, #[trigger] addresses@[i], true)
                        || has_candidate(old(self).entries@, addresses@[i], false)),
            },
    {
        let ghost old_entries = self.entries@;
        let mut d = TableDrain {
            writable_indexes: Vec::new(),
            readonly_indexes: Vec::new(),
            writable_keys: Vec::new(),
            readonly_keys: Vec::new(),
        };
        let n = addresses.len();
        let mut i: usize = 0;
        while i < n
            invariant
                i <= n == addresses@.len(),
                self.payer == old(self).payer,
                old_entries == old(self).entries@,
                sorted(old_entries),
                drained(old_entries, self.entries@, d.writable_keys@, d.readonly_keys@),
                drain_matches(d, addresses@),
                none_left(self.entries@, addresses@, i as int),
                d.writable_indexes@.map_values(|b: u8| b as int) == pick_idx(old_entries, addresses@, i as int, true),
                d.readonly_indexes@.map_values(|b: u8| b as int) == pick_idx(old_entries, addresses@, i as int, false),
                forall|x: Pubkey, w: bool| #[trigger] has_candidate(self.entries@, x, w) <==> (has_candidate(old_entries, x, w)
                    && !occurs_before(addresses@, i as int, x)),
                forall|q: int| 256 <= q < i ==> !(first_in(addresses@, q) && (has_candidate(old_entries, #[trigger] addresses@[q], true)
                    || has_candidate(old_entries, addresses@[q], false))),
            decreases n - i,
        {
            let k = addresses[i];
            let ghost cur0 = self.entries@;
            let ghost wi0 = d.writable_indexes@;
            let ghost ri0 = d.readonly_indexes@;
            proof {
                lemma_occurs_step(addresses@, i as int);
            }
            match find_key(&self.entries, &k) {
                Some(p) => {
                    let e = self.entries[p];
                    if !e.meta.is_signer && !e.meta.is_invoked {
                        if i > 255 {
                            proof {
                                assert(old_entries.contains(e) ==> has_candidate(old_entries, addresses@[i as int], e.meta.is_writable)) by {
                                    if old_entries.contains(e) {
                                        let q = choose|q: int| 0 <= q < old_entries.len() && old_entries[q] == e;
                                        assert(old_entries[q].key == addresses@[i as int]);
                                    }
                                }
                                assert(self.entries@.contains(e)) by {
                                    assert(self.entries@[p as int] == e);
                                }
                                assert(has_candidate(cur0, k, e.meta.is_writable)) by {
                                    assert(cur0[p as int] == e);
                                }
                                assert(first_in(addresses@, i as int));
                            }
                            return None;
                        }
                        let ghost cur = self.entries@;
                        proof {
                            lemma_remove(cur, p as int);
                            assert(cur.contains(e)) by {
                                assert(cur[p as int] == e);
                            }
                            assert(old_entries.contains(e));
                            let q = choose|q: int| 0 <= q < old_entries.len() && old_entries[q] == e;
                            assert(old_entries[q].key == k);
                            assert(has_candidate(old_entries, k, e.meta.is_writable));
                            lemma_remove_candidate(cur, p as int);
                            lemma_candidate_unique(cur, p as int);
                        }
                        self.entries.remove(p);
                        if e.meta.is_writable {
                            let ghost wk = d.writable_keys@;
                            proof {
                                assert(!wk.contains(k)) by {
                                    if wk.contains(k) {
                                        let j = choose|j: int| 0 <= j < wk.len() && wk[j] == k;
                                        assert(!has_key(cur, wk[j]));
                                        assert(cur[p as int].key == k);
                                    }
                                }
                            }
                            d.writable_indexes.push(i as u8);
                            d.writable_keys.push(k);
                            proof {
                                assert forall|j: int| 0 <= j < d.writable_keys@.len() implies has_candidate(old_entries, #[trigger] d.writable_keys@[j], true)
                                    && !has_key(self.entries@, d.writable_keys@[j]) by {
                                    if j < wk.len() {
                                        assert(d.writable_keys@[j] == wk[j]);
                                    }
                                }
                                assert forall|x: KeyEntry| #[trigger] old_entries.contains(x) && !self.entries@.contains(x) implies candidate(x) && (if x.meta.is_writable {
                                    d.writable_keys@.contains(x.key)
                                } else {
                                    d.readonly_keys@.contains(x.key)
                                }) by {
                                    if x == e {
                                        assert(d.writable_keys@[wk.len() as int] == k);
                                    } else {
                                        if wk.contains(x.key) {
                                            let j = choose|j: int| 0 <= j < wk.len() && wk[j] == x.key;
                                            assert(d.writable_keys@[j] == x.key);
                                        }
                                    }
                                }
                            }
                        } else {
                            let ghost rk = d.readonly_keys@;
                            proof {
                                assert(!rk.contains(k)) by {
                                    if rk.contains(k) {
                                        let j = choose|j: int| 0 <= j < rk.len() && rk[j] == k;
                                        assert(!has_key(cur, rk[j]));
                                        assert(cur[p as int].key == k);
                                    }
                                }
                            }
                            d.readonly_indexes.push(i as u8);
                            d.readonly_keys.push(k);
                            proof {
                                assert forall|j: int| 0 <= j < d.readonly_keys@.len() implies has_candidate(old_entries, #[trigger] d.readonly_keys@[j], false)
                                    && !has_key(self.entries@, d.readonly_keys@[j]) by {
                                    if j < rk.len() {
                                        assert(d.readonly_keys@[j] == rk[j]);
                                    }
                                }
                                assert forall|x: KeyEntry| #[trigger] old_entries.contains(x) && !self.entries@.contains(x) implies candidate(x) && (if x.meta.is_writable {
                                    d.writable_keys@.contains(x.key)
                                } else {
                                    d.readonly_keys@.contains(x.key)
                                }) by {
                                    if x == e {
                                        assert(d.readonly_keys@[rk.len() as int] == k);
                                    } else {
                                        if rk.contains(x.key) {
                                            let j = choose|j: int| 0 <= j < rk.len() && rk[j] == x.key;
                                            assert(d.readonly_keys@[j] == x.key);
                                        }
                                    }
                                }
                            }
                        }
                        proof {
                            assert forall|ii: int| 0 <= ii < i + 1 implies !has_candidate(self.entries@, #[trigger] addresses@[ii], true)
                                && !has_candidate(self.entries@, addresses@[ii], false) by {
                                if has_candidate(self.entries@, addresses@[ii], true) {
                                    lemma_candidate_in(self.entries@, addresses@[ii], true);
                                    let q = choose|q: int| 0 <= q < self.entries@.len() && (#[trigger] self.entries@[q]).key == addresses@[ii] && candidate(self.entries@[q]) && self.entries@[q].meta.is_writable == true;
                                    assert(cur.contains(self.entries@[q])) by { assert(self.entries@.contains(self.entries@[q])); }
                                    let q2 = choose|q2: int| 0 <= q2 < cur.len() && cur[q2] == self.entries@[q];
                                    assert(has_candidate(cur, addresses@[ii], true));
                                }
                                if has_candidate(self.entries@, addresses@[ii], false) {
                                    lemma_candidate_in(self.entries@, addresses@[ii], false);
                                    let q = choose|q: int| 0 <= q < self.entries@.len() && (#[trigger] self.entries@[q]).key == addresses@[ii] && candidate(self.entries@[q]) && self.entries@[q].meta.is_writable == false;
                                    assert(cur.contains(self.entries@[q])) by { assert(self.entries@.contains(self.entries@[q])); }
                                    let q2 = choose|q2: int| 0 <= q2 < cur.len() && cur[q2] == self.entries@[q];
                                    assert(has_candidate(cur, addresses@[ii], false));
                                }
                            }
                        }
                    } else {
                        proof {
                            assert(!has_candidate(self.entries@, k, true) && !has_candidate(self.entries@, k, false)) by {
                                if has_candidate(self.entries@, k, true) || has_candidate(self.entries@, k, false) {
                                    let q = choose|q: int| 0 <= q < self.entries@.len() && (#[trigger] self.entries@[q]).key == k && candidate(self.entries@[q]);
                                    if q < p { assert(key_lt(self.entries@[q].key, self.entries@[p as int].key)); }
                                    if q > p { assert(key_lt(self.entries@[p as int].key, self.entries@[q].key)); }
                                }
                            }
                        }
                    }
                },
                None => {
                    proof {
                        if has_candidate(self.entries@, k, true) { lemma_candidate_in(self.entries@, k, true); }
                        if has_candidate(self.entries@, k, false) { lemma_candidate_in(self.entries@, k, false); }
                    }
                },
            }
            proof {
                assert forall|x: Pubkey, w: bool| #[trigger] has_candidate(self.entries@, x, w) <==> (has_candidate(old_entries, x, w)
                    && !occurs_before(addresses@, i + 1, x)) by {
                    assert(has_candidate(cur0, x, w) <==> (has_candidate(old_entries, x, w) && !occurs_before(addresses@, i as int, x)));
                }
                assert(has_candidate(cur0, k, true) == (has_candidate(old_entries, k, true) && first_in(addresses@, i as int)));
                assert(has_candidate(cur0, k, false) == (has_candidate(old_entries, k, false) && first_in(addresses@, i as int)));
                assert(d.writable_indexes@.map_values(|b: u8| b as int) =~= pick_idx(old_entries, addresses@, i + 1, true));
                assert(d.readonly_indexes@.map_values(|b: u8| b as int) =~= pick_idx(old_entries, addresses@, i + 1, false));
            }
            i = i + 1;
        }
        Some(d)
    }
}

} // verus!
