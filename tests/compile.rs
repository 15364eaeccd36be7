use squads_multisig::instruction::{AccountMeta, AddressLookupTableAccount, Instruction};
use squads_multisig::pubkey::Pubkey;
use squads_multisig::vault_transaction::{Error, VaultTransactionMessage};

fn key(n: u128) -> Pubkey {
    Pubkey::new(0, n)
}

fn transfer(p: Pubkey, a: Pubkey, b: Pubkey) -> Instruction {
    Instruction {
        program_id: p,
        accounts: vec![AccountMeta::new(a, true), AccountMeta::new(b, false)],
        data: vec![2, 0, 0, 0, 64, 66, 15, 0, 0, 0, 0, 0],
    }
}

fn table(k: Pubkey, addresses: Vec<Pubkey>) -> AddressLookupTableAccount {
    AddressLookupTableAccount { key: k, addresses }
}

fn header(m: &VaultTransactionMessage) -> (u8, u8, u8) {
    (m.num_signers, m.num_writable_signers, m.num_writable_non_signers)
}

#[test]
fn empty_instruction_list_without_payer() {
    let m = VaultTransactionMessage::try_compile(None, &[], &[]).unwrap();
    assert!(m.account_keys.is_empty());
    assert!(m.instructions.is_empty());
    assert!(m.address_table_lookups.is_empty());
    assert_eq!(header(&m), (0, 0, 0));
}

#[test]
fn single_transfer_without_tables() {
    let (p, a, b) = (key(30), key(10), key(20));
    let m = VaultTransactionMessage::try_compile(None, &[transfer(p, a, b)], &[]).unwrap();
    assert_eq!(header(&m), (1, 1, 1));
    assert_eq!(m.account_keys, vec![a, b, p]);
    assert_eq!(m.instructions.len(), 1);
    assert_eq!(m.instructions[0].program_id_index, 2);
    assert_eq!(m.instructions[0].account_indexes, vec![0, 1]);
    assert_eq!(m.instructions[0].data, transfer(p, a, b).data);
    assert!(m.address_table_lookups.is_empty());
}

#[test]
fn program_id_sorts_by_class_not_bytes() {
    // the program id has the smallest bytes but is a read-only non-signer
    let (p, a, b) = (key(1), key(10), key(20));
    let m = VaultTransactionMessage::try_compile(None, &[transfer(p, a, b)], &[]).unwrap();
    assert_eq!(m.account_keys, vec![a, b, p]);
}

#[test]
fn payer_already_signer_changes_nothing() {
    let (p, a, b) = (key(30), key(10), key(20));
    let ixs = [transfer(p, a, b)];
    let without = VaultTransactionMessage::try_compile(None, &ixs, &[]).unwrap();
    let with = VaultTransactionMessage::try_compile(Some(a), &ixs, &[]).unwrap();
    assert_eq!(header(&with), header(&without));
    assert_eq!(with.account_keys, without.account_keys);
    assert_eq!(with.instructions[0].program_id_index, without.instructions[0].program_id_index);
    assert_eq!(with.instructions[0].account_indexes, without.instructions[0].account_indexes);
}

#[test]
fn new_payer_goes_first() {
    let (p, a, b, q) = (key(30), key(10), key(20), key(40));
    let m = VaultTransactionMessage::try_compile(Some(q), &[transfer(p, a, b)], &[]).unwrap();
    assert_eq!(m.account_keys, vec![q, a, b, p]);
    assert_eq!(header(&m), (2, 2, 1));
    assert_eq!(m.instructions[0].program_id_index, 3);
    assert_eq!(m.instructions[0].account_indexes, vec![1, 2]);
}

#[test]
fn payer_with_larger_bytes_still_first() {
    let (p, a, b) = (key(30), key(10), key(20));
    let q = Pubkey::new(u128::MAX, u128::MAX);
    let m = VaultTransactionMessage::try_compile(Some(q), &[transfer(p, a, b)], &[]).unwrap();
    assert_eq!(m.account_keys[0], q);
    assert!(m.num_writable_signers >= 1);
}

#[test]
fn table_relocates_program_id() {
    let (p, a, b) = (key(30), key(10), key(20));
    let (x, y, t) = (key(90), key(91), key(500));
    let m = VaultTransactionMessage::try_compile(None, &[transfer(p, a, b)], &[table(t, vec![x, p, y])]).unwrap();
    assert_eq!(m.account_keys, vec![a, b]);
    assert_eq!(header(&m), (1, 1, 1));
    assert_eq!(m.address_table_lookups.len(), 1);
    assert_eq!(m.address_table_lookups[0].account_key, t);
    assert!(m.address_table_lookups[0].writable_indexes.is_empty());
    assert_eq!(m.address_table_lookups[0].readonly_indexes, vec![1]);
    assert_eq!(m.instructions[0].program_id_index, 2);
    assert_eq!(m.instructions[0].account_indexes, vec![0, 1]);
}

#[test]
fn table_cannot_relocate_signer() {
    let (p, s, b) = (key(30), key(10), key(20));
    let t = key(500);
    let m = VaultTransactionMessage::try_compile(None, &[transfer(p, s, b)], &[table(t, vec![s])]).unwrap();
    assert_eq!(m.account_keys, vec![s, b, p]);
    assert!(m.address_table_lookups.is_empty());
}

#[test]
fn writable_non_signer_moves_to_writable_indexes() {
    let (p, a, b) = (key(30), key(10), key(20));
    let t = key(500);
    let m = VaultTransactionMessage::try_compile(None, &[transfer(p, a, b)], &[table(t, vec![key(7), b, p])]).unwrap();
    assert_eq!(m.account_keys, vec![a]);
    assert_eq!(header(&m), (1, 1, 0));
    let l = &m.address_table_lookups[0];
    assert_eq!(l.writable_indexes, vec![1]);
    assert_eq!(l.readonly_indexes, vec![2]);
    // static a, then loaded writable b, then loaded read-only p
    assert_eq!(m.instructions[0].program_id_index, 2);
    assert_eq!(m.instructions[0].account_indexes, vec![0, 1]);
}

#[test]
fn first_table_wins_and_unused_tables_are_dropped() {
    let (p, a, b) = (key(30), key(10), key(20));
    let tables = [table(key(500), vec![key(1)]), table(key(501), vec![p]), table(key(502), vec![p, b])];
    let m = VaultTransactionMessage::try_compile(None, &[transfer(p, a, b)], &tables).unwrap();
    assert_eq!(m.address_table_lookups.len(), 2);
    assert_eq!(m.address_table_lookups[0].account_key, key(501));
    assert_eq!(m.address_table_lookups[0].readonly_indexes, vec![0]);
    assert_eq!(m.address_table_lookups[1].account_key, key(502));
    assert_eq!(m.address_table_lookups[1].writable_indexes, vec![1]);
    assert!(m.address_table_lookups[1].readonly_indexes.is_empty());
    // writable loads come before read-only loads, whatever the table order
    assert_eq!(m.account_keys, vec![a]);
    assert_eq!(m.instructions[0].account_indexes, vec![0, 1]);
    assert_eq!(m.instructions[0].program_id_index, 2);
}

#[test]
fn disjoint_tables_equal_no_tables() {
    let (p, a, b) = (key(30), key(10), key(20));
    let ixs = [transfer(p, a, b)];
    let plain = VaultTransactionMessage::try_compile(None, &ixs, &[]).unwrap();
    let with = VaultTransactionMessage::try_compile(None, &ixs, &[table(key(500), vec![key(1), key(2)])]).unwrap();
    assert_eq!(header(&with), header(&plain));
    assert_eq!(with.account_keys, plain.account_keys);
    assert!(with.address_table_lookups.is_empty());
    assert_eq!(with.instructions[0].program_id_index, plain.instructions[0].program_id_index);
    assert_eq!(with.instructions[0].account_indexes, plain.instructions[0].account_indexes);
}

#[test]
fn too_many_keys_fails() {
    let accounts: Vec<AccountMeta> = (0..256u128).map(|i| AccountMeta::new_readonly(key(1000 + i), false)).collect();
    let ix = Instruction { program_id: key(1), accounts, data: vec![] };
    let r = VaultTransactionMessage::try_compile(None, &[ix], &[]);
    assert_eq!(r.err(), Some(Error::InvalidTransactionMessage));
}

#[test]
fn too_many_accounts_in_one_instruction_fails() {
    let accounts: Vec<AccountMeta> = (0..256).map(|_| AccountMeta::new_readonly(key(5), false)).collect();
    let ix = Instruction { program_id: key(1), accounts, data: vec![] };
    let r = VaultTransactionMessage::try_compile(None, &[ix], &[]);
    assert_eq!(r.err(), Some(Error::InvalidTransactionMessage));
}

#[test]
fn too_many_instructions_fails() {
    let ixs: Vec<Instruction> = (0..256).map(|_| Instruction { program_id: key(1), accounts: vec![], data: vec![] }).collect();
    let r = VaultTransactionMessage::try_compile(None, &ixs, &[]);
    assert_eq!(r.err(), Some(Error::InvalidTransactionMessage));
}

#[test]
fn table_index_past_a_byte_fails() {
    let (p, a, b) = (key(30), key(10), key(20));
    let mut addresses: Vec<Pubkey> = (0..256u128).map(|i| key(5000 + i)).collect();
    addresses.push(p);
    let r = VaultTransactionMessage::try_compile(None, &[transfer(p, a, b)], &[table(key(500), addresses)]);
    assert_eq!(r.err(), Some(Error::InvalidAddressLookupTableAccount));
}

#[test]
fn table_index_past_a_byte_is_fine_for_signers() {
    let (p, a, b) = (key(30), key(10), key(20));
    let mut addresses: Vec<Pubkey> = (0..256u128).map(|i| key(5000 + i)).collect();
    addresses.push(a);
    let r = VaultTransactionMessage::try_compile(None, &[transfer(p, a, b)], &[table(key(500), addresses)]);
    assert!(r.is_ok());
}

#[test]
fn repeated_table_adds_no_lookup() {
    let (p, a, b) = (key(30), key(10), key(20));
    let t = table(key(500), vec![p, b]);
    let m = VaultTransactionMessage::try_compile(None, &[transfer(p, a, b)], &[t.clone(), t]).unwrap();
    assert_eq!(m.address_table_lookups.len(), 1);
    assert_eq!(m.address_table_lookups[0].account_key, key(500));
    assert_eq!(m.address_table_lookups[0].writable_indexes, vec![1]);
    assert_eq!(m.address_table_lookups[0].readonly_indexes, vec![0]);
    assert_eq!(m.account_keys, vec![a]);
}

#[test]
fn key_first_in_a_table_past_a_byte_fails_even_if_later_table_has_it() {
    let (p, a, b) = (key(30), key(10), key(20));
    let mut addresses: Vec<Pubkey> = (0..256u128).map(|i| key(5000 + i)).collect();
    addresses.push(p);
    let tables = [table(key(500), addresses), table(key(501), vec![p])];
    let r = VaultTransactionMessage::try_compile(None, &[transfer(p, a, b)], &tables);
    assert_eq!(r.err(), Some(Error::InvalidAddressLookupTableAccount));
}

#[test]
fn key_taken_early_is_not_an_overflow_later() {
    let (p, a, b) = (key(30), key(10), key(20));
    let mut addresses: Vec<Pubkey> = (0..256u128).map(|i| key(5000 + i)).collect();
    addresses.push(p);
    let tables = [table(key(501), vec![p]), table(key(500), addresses)];
    let m = VaultTransactionMessage::try_compile(None, &[transfer(p, a, b)], &tables).unwrap();
    assert_eq!(m.address_table_lookups.len(), 1);
    assert_eq!(m.address_table_lookups[0].account_key, key(501));
    assert_eq!(m.address_table_lookups[0].readonly_indexes, vec![0]);
}

#[test]
fn duplicate_address_in_a_table_uses_its_first_index() {
    let (p, a, b) = (key(30), key(10), key(20));
    let m = VaultTransactionMessage::try_compile(None, &[transfer(p, a, b)], &[table(key(500), vec![key(1), p, p])]).unwrap();
    assert_eq!(m.address_table_lookups[0].readonly_indexes, vec![1]);
}

#[test]
fn flags_accumulate_and_buckets_order() {
    let prog = key(100);
    let (ws, rs, wn, rn) = (key(40), key(30), key(20), key(10));
    let ix1 = Instruction {
        program_id: prog,
        accounts: vec![
            AccountMeta::new_readonly(rn, false),
            AccountMeta::new_readonly(wn, false),
            AccountMeta::new_readonly(rs, true),
            AccountMeta::new_readonly(ws, false),
        ],
        data: vec![1],
    };
    let ix2 = Instruction {
        program_id: prog,
        accounts: vec![AccountMeta::new(wn, false), AccountMeta::new(ws, true)],
        data: vec![2, 3],
    };
    let m = VaultTransactionMessage::try_compile(None, &[ix1, ix2], &[]).unwrap();
    assert_eq!(m.account_keys, vec![ws, rs, wn, rn, prog]);
    assert_eq!(header(&m), (2, 1, 1));
    assert_eq!(m.instructions.len(), 2);
    assert_eq!(m.instructions[0].program_id_index, 4);
    assert_eq!(m.instructions[0].account_indexes, vec![3, 2, 1, 0]);
    assert_eq!(m.instructions[0].data, vec![1]);
    assert_eq!(m.instructions[1].account_indexes, vec![2, 0]);
    assert_eq!(m.instructions[1].data, vec![2, 3]);
}

#[test]
fn keys_within_a_class_ascend_by_bytes() {
    let prog = key(100);
    let (k1, k2, k3) = (Pubkey::new(2, 0), Pubkey::new(1, 9), Pubkey::new(1, 3));
    let ix = Instruction {
        program_id: prog,
        accounts: vec![AccountMeta::new(k1, false), AccountMeta::new(k2, false), AccountMeta::new(k3, false)],
        data: vec![],
    };
    let m = VaultTransactionMessage::try_compile(None, &[ix], &[]).unwrap();
    assert_eq!(m.account_keys, vec![k3, k2, k1, prog]);
    let mut seen = m.account_keys.clone();
    seen.dedup();
    assert_eq!(seen.len(), m.account_keys.len());
}

#[test]
fn compile_error_messages() {
    assert_eq!(Error::InvalidAddressLookupTableAccount.message(), "Invalid AddressLookupTableAccount");
    assert_eq!(Error::InvalidTransactionMessage.message(), "Invalid TransactionMessage");
}

fn decode(m: &VaultTransactionMessage, tables: &[AddressLookupTableAccount]) -> Vec<Instruction> {
    let find = |k: Pubkey| tables.iter().find(|t| t.key == k).unwrap();
    let mut keys = m.account_keys.clone();
    for l in &m.address_table_lookups {
        keys.extend(l.writable_indexes.iter().map(|i| find(l.account_key).addresses[*i as usize]));
    }
    let loaded_writable_end = keys.len();
    for l in &m.address_table_lookups {
        keys.extend(l.readonly_indexes.iter().map(|i| find(l.account_key).addresses[*i as usize]));
    }
    let n = m.account_keys.len();
    let (ns, nws, nwn) = (m.num_signers as usize, m.num_writable_signers as usize, m.num_writable_non_signers as usize);
    let writable = |i: usize| if i < n { i < nws || (ns <= i && i < ns + nwn) } else { i < loaded_writable_end };
    m.instructions
        .iter()
        .map(|c| Instruction {
            program_id: keys[c.program_id_index as usize],
            accounts: c
                .account_indexes
                .iter()
                .map(|i| AccountMeta { pubkey: keys[*i as usize], is_signer: (*i as usize) < ns, is_writable: writable(*i as usize) })
                .collect(),
            data: c.data.clone(),
        })
        .collect()
}

fn sample() -> (Vec<Instruction>, Vec<AddressLookupTableAccount>) {
    let (prog_a, prog_b) = (key(100), key(101));
    let (s, w1, w2, r1) = (key(1), key(2), key(3), key(4));
    let ixs = vec![
        Instruction {
            program_id: prog_a,
            accounts: vec![AccountMeta::new(s, true), AccountMeta::new(w1, false), AccountMeta::new_readonly(r1, false)],
            data: vec![9, 8, 7],
        },
        Instruction {
            program_id: prog_b,
            accounts: vec![AccountMeta::new(w2, false), AccountMeta::new_readonly(s, true), AccountMeta::new(w1, false)],
            data: vec![],
        },
    ];
    let tables = vec![table(key(900), vec![w2, prog_a, s]), table(key(901), vec![r1, key(55), w1])];
    (ixs, tables)
}

#[test]
fn decoding_gives_back_the_instructions() {
    let (ixs, tables) = sample();
    let payer = key(50);
    let m = VaultTransactionMessage::try_compile(Some(payer), &ixs, &tables).unwrap();
    let decoded = decode(&m, &tables);
    assert_eq!(decoded.len(), ixs.len());
    for (d, ix) in decoded.iter().zip(ixs.iter()) {
        assert_eq!(d.program_id, ix.program_id);
        assert_eq!(d.data, ix.data);
        assert_eq!(d.accounts.len(), ix.accounts.len());
    }
    assert_eq!(decoded[0].accounts, ixs[0].accounts);
    // the signer is read-only in the second instruction but writable in the
    // first: the message carries one set of flags per key
    assert_eq!(decoded[1].accounts[0], ixs[1].accounts[0]);
    assert_eq!(decoded[1].accounts[1], AccountMeta::new(key(1), true));
    assert_eq!(decoded[1].accounts[2], ixs[1].accounts[2]);
}

#[test]
fn writable_and_signer_counts_are_kept() {
    let (ixs, tables) = sample();
    let payer = key(50);
    let m = VaultTransactionMessage::try_compile(Some(payer), &ixs, &tables).unwrap();
    // writable: payer, s, w1, w2; signers: payer, s
    let loaded_writable: usize = m.address_table_lookups.iter().map(|l| l.writable_indexes.len()).sum();
    assert_eq!(m.num_writable_signers as usize + m.num_writable_non_signers as usize + loaded_writable, 4);
    assert_eq!(m.num_signers, 2);
    assert_eq!(m.account_keys, vec![payer, key(1), key(101)]);
    assert_eq!(m.address_table_lookups.len(), 2);
    assert_eq!(m.address_table_lookups[0].writable_indexes, vec![0]);
    assert_eq!(m.address_table_lookups[0].readonly_indexes, vec![1]);
    assert_eq!(m.address_table_lookups[1].writable_indexes, vec![2]);
    assert_eq!(m.address_table_lookups[1].readonly_indexes, vec![0]);
    for k in &m.account_keys {
        for l in &m.address_table_lookups {
            let t = tables.iter().find(|t| t.key == l.account_key).unwrap();
            for i in l.writable_indexes.iter().chain(l.readonly_indexes.iter()) {
                assert_ne!(t.addresses[*i as usize], *k);
            }
        }
    }
}

#[test]
fn reordering_instructions_keeps_header_keys_and_lookups() {
    let (ixs, tables) = sample();
    let reversed: Vec<Instruction> = ixs.iter().rev().cloned().collect();
    let m1 = VaultTransactionMessage::try_compile(Some(key(50)), &ixs, &tables).unwrap();
    let m2 = VaultTransactionMessage::try_compile(Some(key(50)), &reversed, &tables).unwrap();
    assert_eq!(header(&m1), header(&m2));
    assert_eq!(m1.account_keys, m2.account_keys);
    assert_eq!(m1.address_table_lookups.len(), m2.address_table_lookups.len());
    for (a, b) in m1.address_table_lookups.iter().zip(m2.address_table_lookups.iter()) {
        assert_eq!(a.account_key, b.account_key);
        assert_eq!(a.writable_indexes, b.writable_indexes);
        assert_eq!(a.readonly_indexes, b.readonly_indexes);
    }
    assert_eq!(m1.instructions[0].account_indexes, m2.instructions[1].account_indexes);
    assert_eq!(m1.instructions[1].program_id_index, m2.instructions[0].program_id_index);
}
