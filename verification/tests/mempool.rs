//! The mempool on serialized transactions, with a small wire format, hash and
//! parser standing in for those of the chain.

use moonblokz_mempool::{
    crc32_ieee, entry_bytes, is_own_transaction, transaction_expiry_sequence, AddResult, BlockView,
    IndexEntry, Mempool, TransactionBody, TransactionInput, TransactionOutput, TransactionView,
    NO_EXPIRY_SEQUENCE,
};

const TEST_COMPACT_BYTES: usize = 1024;
const TEST_MAX_ENTRIES: usize = 8;
type TestMempool = Mempool<TEST_COMPACT_BYTES, TEST_MAX_ENTRIES>;

const NODE_TRANSFER_SIZE: usize = 101;
const REGISTRATION_SIZE: usize = 189;

const TAG_NODE_TRANSFER: u8 = 1;
const TAG_REGISTRATION: u8 = 2;
const TAG_COMPLEX: u8 = 3;

const KIND_BALANCE: u8 = 0;
const KIND_UTXO: u8 = 1;

fn u32_at(bytes: &[u8], at: usize) -> u32 {
    let mut field = [0u8; 4];
    field.copy_from_slice(&bytes[at..at + 4]);
    u32::from_le_bytes(field)
}

fn u64_at(bytes: &[u8], at: usize) -> u64 {
    let mut field = [0u8; 8];
    field.copy_from_slice(&bytes[at..at + 8]);
    u64::from_le_bytes(field)
}

/// tag, vote, anchor, initializer, receiver, amount, fee, comment, signature
fn sample_node_transfer_with_anchor_and_fee(
    vote: u32,
    anchor_sequence: u32,
    initializer: u32,
    amount: u64,
    fee: u32,
) -> Vec<u8> {
    let mut bytes = vec![TAG_NODE_TRANSFER];
    bytes.extend_from_slice(&vote.to_le_bytes());
    bytes.extend_from_slice(&anchor_sequence.to_le_bytes());
    bytes.extend_from_slice(&initializer.to_le_bytes());
    bytes.extend_from_slice(&0u32.to_le_bytes());
    bytes.extend_from_slice(&amount.to_le_bytes());
    bytes.extend_from_slice(&fee.to_le_bytes());
    bytes.extend_from_slice(&0u64.to_le_bytes());
    bytes.extend_from_slice(&[0xAA; 64]);
    assert_eq!(bytes.len(), NODE_TRANSFER_SIZE);
    bytes
}

fn sample_node_transfer(vote: u32, initializer: u32, amount: u64) -> Vec<u8> {
    sample_node_transfer_with_fee(vote, initializer, amount, 1)
}

fn sample_node_transfer_with_fee(vote: u32, initializer: u32, amount: u64, fee: u32) -> Vec<u8> {
    sample_node_transfer_with_anchor_and_fee(vote, 0, initializer, amount, fee)
}

fn sample_node_transfer_with_anchor(
    vote: u32,
    anchor_sequence: u32,
    initializer: u32,
    amount: u64,
) -> Vec<u8> {
    sample_node_transfer_with_anchor_and_fee(vote, anchor_sequence, initializer, amount, 1)
}

/// tag, vote, initializer, new node, price, fee, key, two signatures
fn sample_registration_with_fee(new_node_id: u32, fee: u64) -> Vec<u8> {
    let mut bytes = vec![TAG_REGISTRATION];
    bytes.extend_from_slice(&0u32.to_le_bytes());
    bytes.extend_from_slice(&0u32.to_le_bytes());
    bytes.extend_from_slice(&new_node_id.to_le_bytes());
    bytes.extend_from_slice(&100u64.to_le_bytes());
    bytes.extend_from_slice(&fee.to_le_bytes());
    bytes.extend_from_slice(&[0xBB; 32]);
    bytes.extend_from_slice(&[0xCC; 64]);
    bytes.extend_from_slice(&[0xCC; 64]);
    assert_eq!(bytes.len(), REGISTRATION_SIZE);
    bytes
}

fn sample_registration(new_node_id: u32) -> Vec<u8> {
    sample_registration_with_fee(new_node_id, 1)
}

/// A complex transaction under construction.
struct ComplexTransaction {
    vote: u32,
    inputs: Vec<Vec<u8>>,
    outputs: Vec<Vec<u8>>,
}

impl ComplexTransaction {
    fn new(vote: u32) -> Self {
        ComplexTransaction { vote, inputs: Vec::new(), outputs: Vec::new() }
    }

    fn add_balance_input(
        &mut self,
        anchor: u32,
        initializer: u32,
        amount: u64,
        comment: u64,
        sig: &[u8; 64],
    ) -> Result<(), ()> {
        let mut item = vec![KIND_BALANCE];
        item.extend_from_slice(&anchor.to_le_bytes());
        item.extend_from_slice(&initializer.to_le_bytes());
        item.extend_from_slice(&amount.to_le_bytes());
        item.extend_from_slice(&comment.to_le_bytes());
        item.extend_from_slice(sig);
        push_item(&mut self.inputs, item)
    }

    fn add_utxo_input(
        &mut self,
        hash: &[u8; 32],
        output: u8,
        sig: &[u8; 64],
    ) -> Result<(), ()> {
        let mut item = vec![KIND_UTXO];
        item.extend_from_slice(hash);
        item.push(output);
        item.extend_from_slice(sig);
        push_item(&mut self.inputs, item)
    }

    fn add_balance_output(&mut self, receiver: u32, amount: u64) -> Result<(), ()> {
        let mut item = vec![KIND_BALANCE];
        item.extend_from_slice(&receiver.to_le_bytes());
        item.extend_from_slice(&amount.to_le_bytes());
        push_item(&mut self.outputs, item)
    }

    fn add_utxo_output(&mut self, key_hash: &[u8; 32], amount: u64) -> Result<(), ()> {
        let mut item = vec![KIND_UTXO];
        item.extend_from_slice(key_hash);
        item.extend_from_slice(&amount.to_le_bytes());
        push_item(&mut self.outputs, item)
    }

    fn to_bytes(&self) -> Vec<u8> {
        let mut bytes = vec![TAG_COMPLEX];
        bytes.extend_from_slice(&self.vote.to_le_bytes());
        bytes.push(self.inputs.len() as u8);
        bytes.push(self.outputs.len() as u8);
        for item in &self.inputs {
            bytes.extend_from_slice(item);
        }
        for item in &self.outputs {
            bytes.extend_from_slice(item);
        }
        bytes
    }
}

/// Counts are one byte, so a list takes at most 255 items.
fn push_item(items: &mut Vec<Vec<u8>>, item: Vec<u8>) -> Result<(), ()> {
    if items.len() < u8::MAX as usize {
        items.push(item);
        Ok(())
    } else {
        Err(())
    }
}

fn decode_complex(bytes: &[u8]) -> Option<TransactionBody> {
    if bytes.len() < 7 {
        return None;
    }
    let mut inputs = Vec::new();
    let mut outputs = Vec::new();
    let mut at = 7;
    for _ in 0..bytes[5] {
        match *bytes.get(at)? {
            KIND_BALANCE if at + 89 <= bytes.len() => {
                inputs.push(TransactionInput::Balance {
                    anchor_sequence: u32_at(bytes, at + 1),
                    initializer: u32_at(bytes, at + 5),
                });
                at += 89;
            }
            KIND_UTXO if at + 98 <= bytes.len() => {
                inputs.push(TransactionInput::Utxo);
                at += 98;
            }
            _ => return None,
        }
    }
    for _ in 0..bytes[6] {
        match *bytes.get(at)? {
            KIND_BALANCE if at + 13 <= bytes.len() => {
                outputs.push(TransactionOutput::Balance { receiver: u32_at(bytes, at + 1) });
                at += 13;
            }
            KIND_UTXO if at + 41 <= bytes.len() => {
                outputs.push(TransactionOutput::Utxo);
                at += 41;
            }
            _ => return None,
        }
    }
    if at == bytes.len() {
        Some(TransactionBody::Complex { inputs, outputs })
    } else {
        None
    }
}

fn decode(bytes: &[u8]) -> Option<TransactionBody> {
    match *bytes.first()? {
        TAG_NODE_TRANSFER if bytes.len() == NODE_TRANSFER_SIZE => {
            Some(TransactionBody::NodeTransfer {
                anchor_sequence: u32_at(bytes, 5),
                initializer: u32_at(bytes, 9),
                amount: u64_at(bytes, 17),
            })
        }
        TAG_REGISTRATION if bytes.len() == REGISTRATION_SIZE => {
            Some(TransactionBody::Registration {
                initializer: u32_at(bytes, 5),
                registration_price: u64_at(bytes, 13),
            })
        }
        TAG_COMPLEX => decode_complex(bytes),
        _ => None,
    }
}

fn view(bytes: &[u8]) -> TransactionView<'_> {
    TransactionView { bytes, body: decode(bytes).unwrap() }
}

fn calculate_hash(bytes: &[u8]) -> [u8; 32] {
    let mut digest = [0u8; 32];
    for lane in 0..4usize {
        let mut state: u64 = 0xCBF2_9CE4_8422_2325 ^ (lane as u64);
        for &b in bytes {
            state = (state ^ (b as u64)).wrapping_mul(0x0000_0100_0000_01B3);
        }
        digest[lane * 8..lane * 8 + 8].copy_from_slice(&state.to_le_bytes());
    }
    digest
}

/// A 32-byte string whose CRC-32 is `crc`: the division is run backwards from
/// the wanted register, and the last four bytes make up the difference.
fn digest_with_crc32(crc: u32) -> [u8; 32] {
    let mut digest = [0u8; 32];
    let reached = !crc32_ieee(&digest[..28]);
    let mut register = !crc;
    for _ in 0..32 {
        register = if register >> 31 != 0 {
            ((register ^ 0xEDB8_8320) << 1) | 1
        } else {
            register << 1
        };
    }
    digest[28..].copy_from_slice(&(register ^ reached).to_le_bytes());
    assert_eq!(crc32_ieee(&digest), crc);
    digest
}

fn test_fee(bytes: &[u8]) -> u64 {
    match bytes[0] {
        TAG_NODE_TRANSFER => u32_at(bytes, 25) as u64,
        TAG_REGISTRATION => u64_at(bytes, 21),
        _ => 0,
    }
}

fn try_add_test_tx<const C: usize, const E: usize>(
    mp: &mut Mempool<C, E>,
    bytes: &[u8],
    is_deferred: bool,
) -> AddResult {
    mp.try_add(view(bytes), test_fee(bytes), is_deferred, calculate_hash)
}

fn transaction_block_view<'a>(txs: &'a [&'a [u8]]) -> BlockView<'a> {
    BlockView { transactions: Some(txs) }
}

fn first_entry<const C: usize, const E: usize>(mp: &Mempool<C, E>) -> IndexEntry {
    *mp.index().iter().find_map(|entry| entry.as_ref()).unwrap()
}

fn entry_of<const C: usize, const E: usize>(
    mp: &Mempool<C, E>,
    bytes: &[u8],
) -> Option<IndexEntry> {
    mp.index().iter().find_map(|entry| {
        let entry = entry.as_ref()?;
        (entry_bytes(mp, entry) == bytes).then_some(*entry)
    })
}

fn eligible<const C: usize, const E: usize>(mp: &Mempool<C, E>) -> Vec<Vec<u8>> {
    let mut iter = mp.eligible_iter(decode);
    let mut found = Vec::new();
    while let Some(tx) = iter.next() {
        found.push(tx.bytes.to_vec());
    }
    found
}

fn top<const C: usize, const E: usize>(mp: &Mempool<C, E>, n: usize) -> Vec<(Vec<u8>, u64)> {
    let mut iter = mp.top_n_for_exchange(n, decode);
    let mut found = Vec::new();
    while let Some((tx, fee)) = iter.next() {
        found.push((tx.bytes.to_vec(), fee));
    }
    found
}

/// Occupied entries form a gap-free region whose total length equals
/// `byte_usage`.
fn check_invariant<const C: usize, const E: usize>(mp: &Mempool<C, E>) {
    let total_bytes: u32 =
        mp.index().iter().filter_map(|e| e.as_ref()).map(|e| e.length as u32).sum();
    assert_eq!(total_bytes, mp.byte_usage() as u32);

    let mut intervals: Vec<(u16, u16)> =
        mp.index().iter().filter_map(|e| e.as_ref()).map(|e| (e.start, e.length)).collect();
    intervals.sort();
    assert_eq!(intervals.len(), mp.entry_count() as usize);
    if !intervals.is_empty() {
        assert_eq!(intervals[0].0, 0, "first entry must start at offset 0");
    }
    for i in 1..intervals.len() {
        assert_eq!(
            intervals[i - 1].0 + intervals[i - 1].1,
            intervals[i].0,
            "gap or overlap between entries {} and {}",
            i - 1,
            i
        );
    }
    assert!(mp.compact_buffer()[mp.byte_usage() as usize..].iter().all(|byte| *byte == 0));
}

#[test]
fn new_empty_state() {
    let mp = TestMempool::new(0x1234, 42);
    assert_eq!(mp.entry_count(), 0);
    assert_eq!(mp.byte_usage(), 0);
    assert!(mp.index().iter().all(|e| e.is_none()));
}

#[test]
fn try_add_admits_when_space_available() {
    let mut mp = TestMempool::new(0x1234, 42);
    let nt = sample_node_transfer(0, 1, 100);
    match try_add_test_tx(&mut mp, &nt, false) {
        AddResult::Admitted => {}
        AddResult::Rejected => panic!("first add must succeed on empty mempool"),
    }
    assert_eq!(mp.entry_count(), 1);
    assert!(mp.byte_usage() > 0);
    assert_eq!(mp.byte_usage() as usize, NODE_TRANSFER_SIZE);
}

#[test]
fn try_add_rejects_on_index_full() {
    let mut mp = TestMempool::new(0x1234, 42);
    let nt = sample_node_transfer(0, 1, 100);
    for _ in 0..TEST_MAX_ENTRIES {
        assert!(matches!(try_add_test_tx(&mut mp, &nt, false), AddResult::Admitted));
    }
    assert!(matches!(try_add_test_tx(&mut mp, &nt, false), AddResult::Rejected));
    assert_eq!(mp.entry_count() as usize, TEST_MAX_ENTRIES);
}

#[test]
fn try_add_rejects_on_buffer_overflow() {
    const TINY: usize = 200;
    let mut mp: Mempool<TINY, 8> = Mempool::new(0x1234, 42);
    let nt = sample_node_transfer(0, 1, 100);
    assert!(matches!(try_add_test_tx(&mut mp, &nt, false), AddResult::Admitted));
    assert!(matches!(try_add_test_tx(&mut mp, &nt, false), AddResult::Rejected));
    assert_eq!(mp.entry_count(), 1);
}

#[test]
fn get_by_hash_returns_borrowed_view() {
    let mut mp = TestMempool::new(0x1234, 42);
    let nt = sample_node_transfer(0, 7, 1234);
    let hash = calculate_hash(&nt);
    assert!(matches!(try_add_test_tx(&mut mp, &nt, false), AddResult::Admitted));

    let found = mp
        .get_by_hash(&hash, calculate_hash, decode)
        .expect("just-added tx must be findable");
    assert_eq!(found.bytes, &nt[..]);
    let buffer_start = mp.compact_buffer().as_ptr() as usize;
    let buffer_end = buffer_start + TEST_COMPACT_BYTES;
    let view_ptr = found.bytes.as_ptr() as usize;
    assert!(view_ptr >= buffer_start && view_ptr < buffer_end);
}

#[test]
fn contains_returns_false_for_absent() {
    let mp = TestMempool::new(0x1234, 42);
    let fake_hash = [0u8; 32];
    assert!(!mp.contains(&fake_hash, calculate_hash));
}

#[test]
fn confirm_by_block_acceptance_compacts() {
    let mut mp = TestMempool::new(0x1234, 42);
    let nts = [
        sample_node_transfer(1, 1, 100),
        sample_node_transfer(2, 2, 200),
        sample_node_transfer(3, 3, 300),
    ];
    let mut hashes = [[0u8; 32]; 3];
    for i in 0..3 {
        hashes[i] = calculate_hash(&nts[i]);
        assert!(matches!(try_add_test_tx(&mut mp, &nts[i], false), AddResult::Admitted));
    }
    assert_eq!(mp.entry_count(), 3);

    mp.confirm_by_block_acceptance(&transaction_block_view(&[&nts[1]]));

    assert_eq!(mp.entry_count(), 2);
    let single_tx_len = nts[0].len() as u16;
    assert_eq!(mp.byte_usage(), single_tx_len * 2);
    assert!(mp.contains(&hashes[0], calculate_hash));
    assert!(!mp.contains(&hashes[1], calculate_hash));
    assert!(mp.contains(&hashes[2], calculate_hash));
}

#[test]
fn confirm_by_block_acceptance_compacts_multiple_gaps_and_clears_tail() {
    let mut mp = TestMempool::new(0x1234, 42);
    let nt_a = sample_node_transfer(1, 42, 100);
    let reg_b = sample_registration_with_fee(7, 2);
    let nt_c = sample_node_transfer(3, 3, 300);
    let reg_d = sample_registration_with_fee(8, 4);

    assert!(matches!(
        mp.try_add(view(&nt_a), 11, false, calculate_hash),
        AddResult::Admitted
    ));
    assert!(matches!(
        mp.try_add(view(&reg_b), 22, true, calculate_hash),
        AddResult::Admitted
    ));
    assert!(matches!(
        mp.try_add(view(&nt_c), 33, false, calculate_hash),
        AddResult::Admitted
    ));
    assert!(matches!(
        mp.try_add(view(&reg_d), 44, true, calculate_hash),
        AddResult::Admitted
    ));
    let old_byte_usage = mp.byte_usage() as usize;

    mp.confirm_by_block_acceptance(&transaction_block_view(&[&reg_b, &reg_d]));

    check_invariant(&mp);
    assert_eq!(mp.entry_count(), 2);
    assert_eq!(mp.byte_usage() as usize, nt_a.len() + nt_c.len());

    let a_len = nt_a.len();
    let c_len = nt_c.len();
    assert_eq!(&mp.compact_buffer()[..a_len], &nt_a[..]);
    assert_eq!(&mp.compact_buffer()[a_len..a_len + c_len], &nt_c[..]);
    assert!(mp.compact_buffer()[mp.byte_usage() as usize..old_byte_usage]
        .iter()
        .all(|byte| *byte == 0));

    let entry_a = entry_of(&mp, &nt_a).expect("surviving A entry must remain indexed");
    let entry_c = entry_of(&mp, &nt_c).expect("surviving C entry must remain indexed");
    assert_eq!(entry_a.transaction_fee, 11);
    assert!(entry_a.is_own);
    assert!(!entry_a.is_deferred);
    assert_eq!(entry_c.transaction_fee, 33);
    assert!(!entry_c.is_own);
    assert!(!entry_c.is_deferred);
}

#[test]
fn confirm_by_block_acceptance_all_removed_clears_index_and_buffer() {
    let mut mp = TestMempool::new(0x1234, 42);
    let nt_a = sample_node_transfer(1, 1, 100);
    let nt_b = sample_node_transfer(2, 2, 200);
    assert!(matches!(try_add_test_tx(&mut mp, &nt_a, false), AddResult::Admitted));
    assert!(matches!(try_add_test_tx(&mut mp, &nt_b, false), AddResult::Admitted));
    let old_byte_usage = mp.byte_usage() as usize;

    mp.confirm_by_block_acceptance(&transaction_block_view(&[&nt_a, &nt_b]));

    check_invariant(&mp);
    assert_eq!(mp.entry_count(), 0);
    assert_eq!(mp.byte_usage(), 0);
    assert!(mp.index().iter().all(|entry| entry.is_none()));
    assert!(mp.compact_buffer()[..old_byte_usage].iter().all(|byte| *byte == 0));
}

#[test]
fn contiguous_storage_invariant_after_arbitrary_ops() {
    let mut mp = TestMempool::new(0x1234, 42);
    let nt_a = sample_node_transfer(1, 1, 100);
    let nt_b = sample_node_transfer(2, 2, 200);
    let nt_c = sample_node_transfer(3, 3, 300);

    assert!(matches!(try_add_test_tx(&mut mp, &nt_a, false), AddResult::Admitted));
    check_invariant(&mp);
    assert!(matches!(try_add_test_tx(&mut mp, &nt_b, false), AddResult::Admitted));
    check_invariant(&mp);
    mp.confirm_by_block_acceptance(&transaction_block_view(&[&nt_a]));
    check_invariant(&mp);
    assert!(matches!(try_add_test_tx(&mut mp, &nt_c, false), AddResult::Admitted));
    check_invariant(&mp);
}

#[test]
fn own_classification_follows_resolved_complex_policy() {
    const OWN_NODE_ID: u32 = 7;
    let sig = [0xDD; 64];
    let hash = [0xEE; 32];

    let mut own_by_balance_input = ComplexTransaction::new(1);
    assert!(own_by_balance_input.add_balance_input(0, OWN_NODE_ID, 50, 0, &sig).is_ok());
    let bytes = own_by_balance_input.to_bytes();
    assert!(is_own_transaction(&view(&bytes), OWN_NODE_ID));
    assert_eq!(transaction_expiry_sequence(&view(&bytes)), 0);

    let mut own_by_balance_output = ComplexTransaction::new(1);
    assert!(own_by_balance_output.add_utxo_input(&hash, 0, &sig).is_ok());
    assert!(own_by_balance_output.add_balance_output(OWN_NODE_ID, 50).is_ok());
    let bytes = own_by_balance_output.to_bytes();
    assert!(is_own_transaction(&view(&bytes), OWN_NODE_ID));
    assert_eq!(transaction_expiry_sequence(&view(&bytes)), NO_EXPIRY_SEQUENCE);

    let mut zero_input_output_to_own = ComplexTransaction::new(1);
    assert!(zero_input_output_to_own.add_balance_output(OWN_NODE_ID, 50).is_ok());
    let bytes = zero_input_output_to_own.to_bytes();
    assert!(!is_own_transaction(&view(&bytes), OWN_NODE_ID));
    assert_eq!(transaction_expiry_sequence(&view(&bytes)), NO_EXPIRY_SEQUENCE);

    let mut utxo_only = ComplexTransaction::new(1);
    assert!(utxo_only.add_utxo_input(&hash, 0, &sig).is_ok());
    assert!(utxo_only.add_utxo_output(&hash, 50).is_ok());
    let bytes = utxo_only.to_bytes();
    assert!(!is_own_transaction(&view(&bytes), OWN_NODE_ID));
    assert_eq!(transaction_expiry_sequence(&view(&bytes)), NO_EXPIRY_SEQUENCE);
}

#[test]
fn expiry_sequence_follows_anchor_dependencies() {
    let nt = sample_node_transfer_with_anchor(0, 33, 1, 100);
    assert_eq!(transaction_expiry_sequence(&view(&nt)), 33);

    let reg = sample_registration(7);
    assert_eq!(transaction_expiry_sequence(&view(&reg)), NO_EXPIRY_SEQUENCE);

    let sig = [0xDD; 64];
    let mut complex = ComplexTransaction::new(1);
    assert!(complex.add_balance_input(42, 1, 50, 0, &sig).is_ok());
    assert!(complex.add_balance_input(7, 2, 25, 0, &sig).is_ok());
    let bytes = complex.to_bytes();
    assert_eq!(transaction_expiry_sequence(&view(&bytes)), 7);
}

#[test]
fn try_add_records_expiry_sequence() {
    let mut mp = TestMempool::new(0x1234, 42);
    let nt = sample_node_transfer_with_anchor(11, 22, 42, 100);
    assert!(matches!(try_add_test_tx(&mut mp, &nt, false), AddResult::Admitted));
    assert_eq!(first_entry(&mp).expiry_sequence, 22);
}

#[test]
fn try_add_records_hash_crc32() {
    let mut mp = TestMempool::new(0x1234, 42);
    let nt = sample_node_transfer_with_anchor(11, 22, 42, 100);
    assert!(matches!(try_add_test_tx(&mut mp, &nt, false), AddResult::Admitted));
    let entry = first_entry(&mp);
    assert_eq!(entry.hash_crc32, crc32_ieee(&calculate_hash(&nt)));
    assert_ne!(entry.hash_crc32, crc32_ieee(&nt));
}

#[test]
fn try_add_records_supplied_transaction_fee_and_top_n_returns_it() {
    let mut mp = TestMempool::new(0x1234, 42);
    let nt = sample_node_transfer_with_fee(0, 5, 100, 1);
    assert!(matches!(
        mp.try_add(view(&nt), 77, false, calculate_hash),
        AddResult::Admitted
    ));
    assert_eq!(first_entry(&mp).transaction_fee, 77);

    // Eligibility goes by the supplied fee, not by the one in the bytes (1).
    mp.recheck_eligibility(|_| 101, decode);
    assert!(first_entry(&mp).is_deferred);
    mp.recheck_eligibility(|_| 177, decode);
    assert!(!first_entry(&mp).is_deferred);

    let (tx, fee) = mp.top_n_for_exchange(1, decode).next().unwrap();
    assert_eq!(tx.bytes, &nt[..]);
    assert_eq!(fee, 77);
}

#[test]
fn try_add_records_own_classification() {
    let mut mp = TestMempool::new(0x1234, 42);
    let own = sample_node_transfer(0, 42, 100);
    let non_own = sample_node_transfer(0, 7, 100);
    assert!(matches!(try_add_test_tx(&mut mp, &own, false), AddResult::Admitted));
    assert!(matches!(try_add_test_tx(&mut mp, &non_own, false), AddResult::Admitted));

    let own_count = mp
        .index()
        .iter()
        .filter_map(|entry| entry.as_ref())
        .filter(|entry| entry.is_own)
        .count();
    assert_eq!(own_count, 1);
}

#[test]
fn recheck_eligibility_flips_deferred_flag() {
    let mut mp = TestMempool::new(0x1234, 42);
    let nt = sample_node_transfer(0, 5, 1000);
    assert!(matches!(try_add_test_tx(&mut mp, &nt, false), AddResult::Admitted));

    mp.recheck_eligibility(|_| 0u64, decode);
    assert!(first_entry(&mp).is_deferred);
    mp.recheck_eligibility(|_| u64::MAX, decode);
    assert!(!first_entry(&mp).is_deferred);
}

#[test]
fn eligible_iter_filters_deferred() {
    let mut mp = TestMempool::new(0x1234, 42);
    let nt_a = sample_node_transfer(1, 1, 100);
    let nt_b = sample_node_transfer(2, 2, 200);
    assert!(matches!(try_add_test_tx(&mut mp, &nt_a, false), AddResult::Admitted));
    assert!(matches!(try_add_test_tx(&mut mp, &nt_b, true), AddResult::Admitted));

    let eligible_count = eligible(&mp).len();
    assert_eq!(eligible_count, 1);
    assert_eq!(eligible(&mp)[0], nt_a);
}

#[test]
fn top_n_for_exchange_no_alloc_no_mutation() {
    let mut mp = TestMempool::new(0x1234, 42);
    let nt = sample_node_transfer(1, 1, 100);
    for _ in 0..5 {
        try_add_test_tx(&mut mp, &nt, false);
    }
    let before = mp.entry_count();
    let yielded: usize = top(&mp, 3).len();
    assert!(yielded <= 3);
    assert_eq!(yielded, 3);
    assert_eq!(mp.entry_count(), before, "iterator must not mutate state");
}

#[test]
fn top_n_for_exchange_orders_by_fee_per_byte() {
    let mut mp = TestMempool::new(0x1234, 42);
    let higher_rate = sample_node_transfer_with_fee(1, 7, 100, 600); // 600 / 101
    let lower_rate = sample_registration_with_fee(2, 1000); // 1000 / 189

    // The lower rate goes first, so slot order would be wrong.
    assert!(matches!(try_add_test_tx(&mut mp, &lower_rate, false), AddResult::Admitted));
    assert!(matches!(try_add_test_tx(&mut mp, &higher_rate, false), AddResult::Admitted));

    let mut top = mp.top_n_for_exchange(2, decode);
    let (tx, fee) = top.next().unwrap();
    assert_eq!(tx.bytes, &higher_rate[..]);
    assert_eq!(fee, 600);
    let (tx, fee) = top.next().unwrap();
    assert_eq!(tx.bytes, &lower_rate[..]);
    assert_eq!(fee, 1000);
    assert!(top.next().is_none());
}

#[test]
fn top_n_for_exchange_prefers_own_on_equal_fee_per_byte() {
    let mut mp = TestMempool::new(0x1234, 42);
    let other = sample_node_transfer_with_fee(1, 7, 100, 5);
    let own = sample_node_transfer_with_fee(2, 42, 100, 5);
    assert!(matches!(try_add_test_tx(&mut mp, &other, false), AddResult::Admitted));
    assert!(matches!(try_add_test_tx(&mut mp, &own, false), AddResult::Admitted));

    let mut top = mp.top_n_for_exchange(2, decode);
    let (tx, fee) = top.next().unwrap();
    assert_eq!(tx.bytes, &own[..]);
    assert_eq!(fee, 5);
    let (tx, fee) = top.next().unwrap();
    assert_eq!(tx.bytes, &other[..]);
    assert_eq!(fee, 5);
}

#[test]
fn top_n_for_exchange_uses_hash_crc32_tie_break() {
    let mut mp = TestMempool::new(0x1234, 42);
    let higher_crc = sample_node_transfer_with_fee(1, 7, 100, 5);
    let lower_crc = sample_node_transfer_with_fee(2, 7, 100, 5);

    // Hashes with chosen fingerprints make the order exact.
    assert!(matches!(
        mp.try_add(view(&higher_crc), 5, false, |_: &[u8]| digest_with_crc32(20)),
        AddResult::Admitted
    ));
    assert!(matches!(
        mp.try_add(view(&lower_crc), 5, false, |_: &[u8]| digest_with_crc32(10)),
        AddResult::Admitted
    ));
    assert_eq!(entry_of(&mp, &higher_crc).unwrap().hash_crc32, 20);
    assert_eq!(entry_of(&mp, &lower_crc).unwrap().hash_crc32, 10);

    let mut top = mp.top_n_for_exchange(2, decode);
    let (tx, fee) = top.next().unwrap();
    assert_eq!(tx.bytes, &lower_crc[..]);
    assert_eq!(fee, 5);
    let (tx, fee) = top.next().unwrap();
    assert_eq!(tx.bytes, &higher_crc[..]);
    assert_eq!(fee, 5);
}

#[test]
fn top_n_for_exchange_uses_lexicographic_bytes_on_hash_crc32_tie() {
    let mut mp = TestMempool::new(0x1234, 42);
    let lex_larger = sample_node_transfer_with_fee(2, 7, 100, 5);
    let lex_smaller = sample_node_transfer_with_fee(1, 7, 100, 5);
    assert!(lex_smaller < lex_larger);

    // Equal fingerprints leave the order to the bytes.
    assert!(matches!(
        mp.try_add(view(&lex_larger), 5, false, |_: &[u8]| digest_with_crc32(0)),
        AddResult::Admitted
    ));
    assert!(matches!(
        mp.try_add(view(&lex_smaller), 5, false, |_: &[u8]| digest_with_crc32(0)),
        AddResult::Admitted
    ));
    assert_eq!(entry_of(&mp, &lex_larger).unwrap().hash_crc32, 0);
    assert_eq!(entry_of(&mp, &lex_smaller).unwrap().hash_crc32, 0);

    let mut top = mp.top_n_for_exchange(2, decode);
    let (tx, fee) = top.next().unwrap();
    assert_eq!(tx.bytes, &lex_smaller[..]);
    assert_eq!(fee, 5);
    let (tx, fee) = top.next().unwrap();
    assert_eq!(tx.bytes, &lex_larger[..]);
    assert_eq!(fee, 5);
}

#[test]
fn registration_eligibility_check() {
    let mut mp = TestMempool::new(0x1234, 42);
    let reg = sample_registration(7);
    assert!(matches!(try_add_test_tx(&mut mp, &reg, false), AddResult::Admitted));

    mp.recheck_eligibility(|_| 50u64, decode);
    assert!(first_entry(&mp).is_deferred);
    mp.recheck_eligibility(|_| 200u64, decode);
    assert!(!first_entry(&mp).is_deferred);
}
