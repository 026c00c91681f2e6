//! Edge cases and laws of the mempool on small concrete values.
//!
//! A transaction is a tag byte followed by free bytes. The tag says what parsing
//! gives: `t` a node transfer, `r` a registration, `c` a complex transaction,
//! `u` a transaction of another kind, anything else does not parse.

use moonblokz_mempool::bytes::{bytes_equal, bytes_precede};
use moonblokz_mempool::{
    crc32_ieee, entry_bytes, find_free_slot, is_own_transaction, priority_precedes,
    transaction_expiry_sequence, AddResult, BlockView, IndexEntry, Mempool, TransactionBody,
    TransactionInput, TransactionOutput, TransactionView, NO_EXPIRY_SEQUENCE,
};
use rand_xoshiro::rand_core::{RngCore, SeedableRng};
use rand_xoshiro::Xoshiro256PlusPlus;

type Small = Mempool<40, 4>;

fn decode(bytes: &[u8]) -> Option<TransactionBody> {
    match bytes.first() {
        Some(b't') => Some(TransactionBody::NodeTransfer {
            anchor_sequence: 9,
            initializer: bytes[1] as u32,
            amount: 100,
        }),
        Some(b'r') => Some(TransactionBody::Registration {
            initializer: bytes[1] as u32,
            registration_price: u64::MAX - 5,
        }),
        Some(b'c') => Some(TransactionBody::Complex {
            inputs: vec![
                TransactionInput::Utxo,
                TransactionInput::Balance { anchor_sequence: 30, initializer: bytes[1] as u32 },
                TransactionInput::Balance { anchor_sequence: 20, initializer: 1 },
            ],
            outputs: Vec::new(),
        }),
        Some(b'u') => Some(TransactionBody::Unrecognized),
        _ => None,
    }
}

fn hash(bytes: &[u8]) -> [u8; 32] {
    let mut digest = [0u8; 32];
    for (i, &b) in bytes.iter().enumerate() {
        digest[i % 31] ^= b.rotate_left((i / 31) as u32);
    }
    digest[31] = bytes.len() as u8;
    digest
}

fn view(bytes: &[u8]) -> TransactionView<'_> {
    TransactionView { bytes, body: decode(bytes).unwrap_or(TransactionBody::Unrecognized) }
}

fn add<const C: usize, const E: usize>(
    mp: &mut Mempool<C, E>,
    bytes: &[u8],
    fee: u64,
    is_deferred: bool,
) -> bool {
    matches!(mp.try_add(view(bytes), fee, is_deferred, hash), AddResult::Admitted)
}

fn block<'a>(txs: &'a [&'a [u8]]) -> BlockView<'a> {
    BlockView { transactions: Some(txs) }
}

fn slots<const C: usize, const E: usize>(mp: &Mempool<C, E>) -> Vec<Option<Vec<u8>>> {
    mp.index()
        .iter()
        .map(|entry| entry.as_ref().map(|entry| entry_bytes(mp, entry).to_vec()))
        .collect()
}

fn stored<const C: usize, const E: usize>(mp: &Mempool<C, E>) -> Vec<u8> {
    mp.compact_buffer()[..mp.byte_usage() as usize].to_vec()
}

fn flags<const C: usize, const E: usize>(mp: &Mempool<C, E>) -> Vec<bool> {
    mp.index().iter().filter_map(|entry| entry.as_ref()).map(|entry| entry.is_deferred).collect()
}

fn top<const C: usize, const E: usize>(mp: &Mempool<C, E>, n: usize) -> Vec<(Vec<u8>, u64)> {
    let mut iter = mp.top_n_for_exchange(n, decode);
    let mut found = Vec::new();
    while let Some((tx, fee)) = iter.next() {
        found.push((tx.bytes.to_vec(), fee));
    }
    found
}

fn entry(length: u16, hash_crc32: u32, transaction_fee: u64, is_own: bool) -> IndexEntry {
    IndexEntry {
        start: 0,
        length,
        hash_crc32,
        transaction_fee,
        expiry_sequence: 0,
        is_deferred: false,
        is_own,
    }
}

#[test]
fn crc32_has_the_standard_check_values() {
    assert_eq!(crc32_ieee(b"123456789"), 0xCBF4_3926);
    assert_eq!(crc32_ieee(b""), 0);
    assert_eq!(crc32_ieee(b"a"), 0xE8B7_BE43);
    assert_eq!(crc32_ieee(&[0u8; 32]), 0x190A_55AD);
}

#[test]
fn byte_strings_compare_lexicographically() {
    assert!(bytes_equal(b"", b""));
    assert!(bytes_equal(b"ab", b"ab"));
    assert!(!bytes_equal(b"ab", b"abc"));
    assert!(!bytes_equal(b"ab", b"ac"));
    assert!(bytes_precede(b"", b"a"));
    assert!(bytes_precede(b"ab", b"abc"));
    assert!(bytes_precede(b"abz", b"b"));
    assert!(!bytes_precede(b"b", b"abz"));
    assert!(!bytes_precede(b"ab", b"ab"));
    assert!(!bytes_precede(b"abc", b"ab"));
}

#[test]
fn first_free_slot_is_found() {
    let e = entry(1, 0, 0, false);
    assert_eq!(find_free_slot(&[Some(e), None, Some(e), None]), Some(1));
    assert_eq!(find_free_slot(&[Some(e), Some(e)]), None);
    assert_eq!(find_free_slot::<0>(&[]), None);
}

#[test]
fn generator_is_seeded_with_the_seed() {
    let mp = Small::new(0x1234, 42);
    let mut carried = mp.prng().clone();
    let mut expected = Xoshiro256PlusPlus::seed_from_u64(0x1234);
    let mut other = Xoshiro256PlusPlus::seed_from_u64(0x1235);
    let drawn = carried.next_u64();
    assert_eq!(drawn, expected.next_u64());
    assert_ne!(drawn, other.next_u64());
}

#[test]
fn generator_is_carried_through_operations() {
    let mut mp = Small::new(7, 42);
    assert!(add(&mut mp, b"t1", 1, false));
    mp.recheck_eligibility(|_| 0, decode);
    mp.confirm_by_block_acceptance(&block(&[b"t1"]));
    assert!(*mp.prng() == Xoshiro256PlusPlus::seed_from_u64(7));
}

#[test]
fn largest_capacities_are_accepted() {
    let mut mp: Box<Mempool<65535, 255>> = Box::new(Mempool::new(1, 2));
    let mut bytes = vec![b't'; 257];
    for i in 0..255u64 {
        bytes[1] = i as u8;
        assert!(add(&mut mp, &bytes, i, false));
    }
    assert_eq!(mp.entry_count(), 255);
    assert_eq!(mp.byte_usage(), 65535);
    assert!(!add(&mut mp, b"x", 1, false));
    let best = top(&mp, 300);
    assert_eq!(best.len(), 255);
    assert_eq!(best[0].1, 254);
    assert_eq!(best[254].1, 0);
}

#[test]
fn mempool_without_room_rejects_everything() {
    let mut no_bytes: Mempool<0, 4> = Mempool::new(1, 2);
    assert!(!add(&mut no_bytes, b"t1", 1, false));
    let mut no_entries: Mempool<40, 0> = Mempool::new(1, 2);
    assert!(!add(&mut no_entries, b"t1", 1, false));
    assert_eq!(no_entries.eligible_iter(decode).next().is_none(), true);
    assert!(no_entries.top_n_for_exchange(3, decode).next().is_none());
}

#[test]
fn buffer_may_be_filled_exactly() {
    let mut mp: Mempool<6, 4> = Mempool::new(1, 2);
    assert!(add(&mut mp, b"t12", 1, false));
    assert!(!add(&mut mp, b"t345", 1, false));
    assert!(add(&mut mp, b"t34", 1, false));
    assert_eq!(mp.byte_usage(), 6);
    assert!(!add(&mut mp, b"x", 1, false));
    assert_eq!(stored(&mp), b"t12t34");
}

#[test]
fn rejection_changes_nothing() {
    let mut mp: Mempool<6, 2> = Mempool::new(1, 2);
    assert!(add(&mut mp, b"t12", 7, true));
    let before = (stored(&mp), slots(&mp), flags(&mp), mp.entry_count(), mp.byte_usage());
    assert!(!add(&mut mp, b"t3456", 9, false));
    assert_eq!(before, (stored(&mp), slots(&mp), flags(&mp), mp.entry_count(), mp.byte_usage()));
}

#[test]
fn admission_fills_the_first_vacant_slot_and_appends_the_bytes() {
    let mut mp = Small::new(1, 2);
    assert!(add(&mut mp, b"ta", 1, false));
    assert!(add(&mut mp, b"tbb", 1, false));
    assert!(add(&mut mp, b"tccc", 1, false));
    mp.confirm_by_block_acceptance(&block(&[b"ta"]));
    assert_eq!(slots(&mp), [None, Some(b"tbb".to_vec()), Some(b"tccc".to_vec()), None]);
    assert!(add(&mut mp, b"td", 1, false));
    assert_eq!(
        slots(&mp),
        [
            Some(b"td".to_vec()),
            Some(b"tbb".to_vec()),
            Some(b"tccc".to_vec()),
            None
        ]
    );
    // The buffer keeps the order of admission, not that of the slots.
    assert_eq!(stored(&mp), b"tbbtccctd");
    mp.confirm_by_block_acceptance(&block(&[b"tccc"]));
    assert_eq!(stored(&mp), b"tbbtd");
    assert_eq!(slots(&mp), [Some(b"td".to_vec()), Some(b"tbb".to_vec()), None, None]);
    let starts: Vec<Option<u16>> =
        mp.index().iter().map(|entry| entry.as_ref().map(|entry| entry.start)).collect();
    assert_eq!(starts, [Some(3), Some(0), None, None]);
}

#[test]
fn admission_records_every_field() {
    let mut mp = Small::new(1, 5);
    assert!(add(&mut mp, b"t1", 3, false));
    assert!(add(&mut mp, b"c\x05", 8, true));
    let entry = mp.index()[1].unwrap();
    assert_eq!(entry.start, 2);
    assert_eq!(entry.length, 2);
    assert_eq!(entry.hash_crc32, crc32_ieee(&hash(b"c\x05")));
    assert_eq!(entry.transaction_fee, 8);
    assert_eq!(entry.expiry_sequence, 20);
    assert!(entry.is_deferred);
    assert!(entry.is_own);
}

#[test]
fn admitted_is_found_and_confirmed_is_not() {
    let mut mp = Small::new(1, 2);
    assert!(add(&mut mp, b"ta", 1, false));
    assert!(add(&mut mp, b"tb", 1, false));
    assert!(mp.contains(&hash(b"ta"), hash));
    assert!(!mp.contains(&hash(b"tc"), hash));
    let found = mp.get_by_hash(&hash(b"tb"), hash, decode).unwrap();
    assert_eq!(found.bytes, b"tb");
    assert!(matches!(
        found.body,
        TransactionBody::NodeTransfer { anchor_sequence: 9, initializer: 98, amount: 100 }
    ));
    mp.confirm_by_block_acceptance(&block(&[b"ta"]));
    assert!(!mp.contains(&hash(b"ta"), hash));
    assert!(mp.get_by_hash(&hash(b"ta"), hash, decode).is_none());
    assert!(mp.contains(&hash(b"tb"), hash));
}

#[test]
fn equal_fingerprints_do_not_confuse_lookup() {
    // Two digests with the same CRC-32: the patch is the generator polynomial,
    // shifted to whole bytes.
    let first = [0u8; 32];
    let mut second = [0u8; 32];
    let generator: u64 = (0xEDB8_8320u64 << 1) | 1;
    second[..5].copy_from_slice(&generator.to_le_bytes()[..5]);
    assert_eq!(crc32_ieee(&first), crc32_ieee(&second));
    let digest = move |bytes: &[u8]| if bytes == b"ta" { first } else { second };
    let mut mp = Small::new(1, 2);
    assert!(matches!(mp.try_add(view(b"ta"), 1, false, digest), AddResult::Admitted));
    assert!(mp.contains(&first, digest));
    assert!(!mp.contains(&second, digest));
    assert!(matches!(mp.try_add(view(b"tb"), 1, false, digest), AddResult::Admitted));
    assert_eq!(mp.get_by_hash(&first, digest, decode).unwrap().bytes, b"ta");
    assert_eq!(mp.get_by_hash(&second, digest, decode).unwrap().bytes, b"tb");
}

#[test]
fn bytes_that_do_not_parse_are_contained_but_not_handed_out() {
    let mut mp = Small::new(1, 2);
    assert!(add(&mut mp, b"xx", 1, false));
    assert!(mp.contains(&hash(b"xx"), hash));
    assert!(mp.get_by_hash(&hash(b"xx"), hash, decode).is_none());
}

#[test]
fn block_without_transactions_changes_nothing() {
    let mut mp = Small::new(1, 2);
    assert!(add(&mut mp, b"ta", 1, false));
    mp.confirm_by_block_acceptance(&BlockView { transactions: None });
    mp.confirm_by_block_acceptance(&block(&[]));
    mp.confirm_by_block_acceptance(&block(&[b"t", b"taa", b"tb"]));
    assert_eq!(stored(&mp), b"ta");
    assert_eq!(mp.entry_count(), 1);
}

#[test]
fn confirmation_removes_every_copy() {
    let mut mp = Small::new(1, 2);
    for bytes in [&b"ta"[..], b"tbb", b"ta"] {
        assert!(add(&mut mp, bytes, 1, false));
    }
    mp.confirm_by_block_acceptance(&block(&[b"ta", b"ta"]));
    assert_eq!(slots(&mp), [None, Some(b"tbb".to_vec()), None, None]);
    assert_eq!(stored(&mp), b"tbb");
    assert_eq!(mp.compact_buffer()[3..], [0u8; 37]);
}

#[test]
fn confirmations_combine_and_commute() {
    let fill = || {
        let mut mp = Small::new(1, 2);
        for bytes in [&b"ta"[..], b"tbb", b"tccc", b"tdddd"] {
            assert!(add(&mut mp, bytes, 1, false));
        }
        mp
    };
    let mut one = fill();
    one.confirm_by_block_acceptance(&block(&[b"ta"]));
    one.confirm_by_block_acceptance(&block(&[b"tccc"]));
    let mut other = fill();
    other.confirm_by_block_acceptance(&block(&[b"tccc"]));
    other.confirm_by_block_acceptance(&block(&[b"ta"]));
    let mut both = fill();
    both.confirm_by_block_acceptance(&block(&[b"tccc", b"ta"]));
    assert_eq!(slots(&one), slots(&both));
    assert_eq!(slots(&other), slots(&both));
    assert_eq!(stored(&one), b"tbbtdddd");
    assert_eq!(stored(&other), b"tbbtdddd");
    assert_eq!(stored(&both), b"tbbtdddd");
    both.confirm_by_block_acceptance(&block(&[b"tccc", b"ta"]));
    assert_eq!(stored(&both), b"tbbtdddd");
}

#[test]
fn confirmation_undoes_admission() {
    let mut mp = Small::new(1, 2);
    assert!(add(&mut mp, b"ta", 1, false));
    assert!(add(&mut mp, b"tbb", 2, true));
    let before = (stored(&mp), slots(&mp), flags(&mp));
    assert!(add(&mut mp, b"tccc", 3, false));
    mp.confirm_by_block_acceptance(&block(&[b"tccc"]));
    assert_eq!(before, (stored(&mp), slots(&mp), flags(&mp)));
}

#[test]
fn confirmation_makes_room() {
    let mut mp: Mempool<8, 2> = Mempool::new(1, 2);
    assert!(add(&mut mp, b"taa", 1, false));
    assert!(add(&mut mp, b"tbbb", 1, false));
    assert!(!add(&mut mp, b"tcc", 1, false));
    mp.confirm_by_block_acceptance(&block(&[b"taa"]));
    assert!(add(&mut mp, b"tccc", 1, false));
    assert_eq!(stored(&mp), b"tbbbtccc");
}

#[test]
fn recheck_asks_the_initializer_and_adds_the_fee() {
    let mut mp = Small::new(1, 2);
    assert!(add(&mut mp, b"t\x01", 10, false));
    assert!(add(&mut mp, b"t\x02", 10, true));
    let mut asked = Vec::new();
    mp.recheck_eligibility(
        |node| {
            asked.push(node);
            if node == 1 {
                109
            } else {
                110
            }
        },
        decode,
    );
    assert_eq!(asked, [1, 2]);
    assert_eq!(flags(&mp), [true, false]);
}

#[test]
fn recheck_needs_the_whole_sum_even_beyond_the_largest_balance() {
    // The price is u64::MAX - 5.
    let mut mp = Small::new(1, 2);
    assert!(add(&mut mp, b"r\x01", 6, true));
    mp.recheck_eligibility(|_| u64::MAX - 1, decode);
    assert_eq!(flags(&mp), [true]);
    mp.recheck_eligibility(|_| u64::MAX, decode);
    assert_eq!(flags(&mp), [true]);

    // The sum is exactly the largest balance.
    let mut mp = Small::new(1, 2);
    assert!(add(&mut mp, b"r\x01", 5, true));
    mp.recheck_eligibility(|_| u64::MAX - 1, decode);
    assert_eq!(flags(&mp), [true]);
    mp.recheck_eligibility(|_| u64::MAX, decode);
    assert_eq!(flags(&mp), [false]);
}

#[test]
fn recheck_defers_a_transfer_whose_fee_exceeds_every_balance() {
    // The amount is 100.
    let mut mp = Small::new(1, 2);
    assert!(add(&mut mp, b"t\x05", u64::MAX, false));
    mp.recheck_eligibility(|_| u64::MAX, decode);
    assert_eq!(flags(&mp), [true]);
    let mut mp = Small::new(1, 2);
    assert!(add(&mut mp, b"t\x05", u64::MAX - 100, true));
    mp.recheck_eligibility(|_| u64::MAX, decode);
    assert_eq!(flags(&mp), [false]);
}

#[test]
fn recheck_never_defers_other_kinds_and_skips_what_does_not_parse() {
    let mut mp = Small::new(1, 2);
    assert!(add(&mut mp, b"c\x01", 5, true));
    assert!(add(&mut mp, b"u", 5, true));
    assert!(add(&mut mp, b"x1", 5, true));
    assert!(add(&mut mp, b"x2", 5, false));
    mp.recheck_eligibility(|_| 0, decode);
    assert_eq!(flags(&mp), [false, false, true, false]);
}

#[test]
fn recheck_is_idempotent_and_keeps_contents() {
    let mut mp = Small::new(1, 2);
    assert!(add(&mut mp, b"t\x01", 10, false));
    assert!(add(&mut mp, b"t\x02", 10, false));
    let before = (stored(&mp), slots(&mp));
    let balance = |node: u32| if node == 1 { 50 } else { 500 };
    mp.recheck_eligibility(balance, decode);
    let once = flags(&mp);
    mp.recheck_eligibility(balance, decode);
    assert_eq!(once, [true, false]);
    assert_eq!(flags(&mp), once);
    assert_eq!(before, (stored(&mp), slots(&mp)));
}

#[test]
fn eligible_walk_goes_in_slot_order_and_each_slot_once() {
    let mut mp = Small::new(1, 2);
    assert!(add(&mut mp, b"ta", 1, false));
    assert!(add(&mut mp, b"tb", 9, false));
    assert!(add(&mut mp, b"tc", 5, true));
    assert!(add(&mut mp, b"td", 7, false));
    mp.confirm_by_block_acceptance(&block(&[b"ta"]));
    assert!(add(&mut mp, b"te", 1, false));
    let mut iter = mp.eligible_iter(decode);
    assert_eq!(iter.next().unwrap().bytes, b"te");
    assert_eq!(iter.next().unwrap().bytes, b"tb");
    assert_eq!(iter.next().unwrap().bytes, b"td");
    assert!(iter.next().is_none());
    assert!(iter.next().is_none());
}

#[test]
fn eligible_walk_hands_out_nothing_for_bytes_that_do_not_parse() {
    let mut mp = Small::new(1, 2);
    assert!(add(&mut mp, b"xa", 1, false));
    assert!(add(&mut mp, b"tb", 1, false));
    let mut iter = mp.eligible_iter(decode);
    assert!(iter.next().is_none());
    assert_eq!(iter.next().unwrap().bytes, b"tb");
    assert!(iter.next().is_none());
}

#[test]
fn offer_skips_deferred_and_what_does_not_parse() {
    let mut mp = Small::new(1, 2);
    assert!(add(&mut mp, b"xa", 90, false));
    assert!(add(&mut mp, b"tb", 1, false));
    assert!(add(&mut mp, b"tc", 80, true));
    assert!(add(&mut mp, b"td", 2, false));
    assert_eq!(top(&mp, 9), [(b"td".to_vec(), 2), (b"tb".to_vec(), 1)]);
    assert_eq!(top(&mp, 1), [(b"td".to_vec(), 2)]);
    assert_eq!(top(&mp, 0), []);
}

#[test]
fn offer_does_not_depend_on_admission_order() {
    let txs: [&[u8]; 4] = [b"taaaa", b"tb", b"tc", b"td"];
    let mut forward = Small::new(1, 2);
    let mut backward = Small::new(1, 2);
    for i in 0..4 {
        assert!(add(&mut forward, txs[i], i as u64 + 3, false));
        assert!(add(&mut backward, txs[3 - i], (3 - i) as u64 + 3, false));
    }
    let expected =
        [(b"td".to_vec(), 6), (b"tc".to_vec(), 5), (b"tb".to_vec(), 4), (b"taaaa".to_vec(), 3)];
    assert_eq!(top(&forward, 4), expected);
    assert_eq!(top(&backward, 4), expected);
}

#[test]
fn offer_depends_on_contents_only() {
    // The same transactions in mempools of different sizes, one filled in the
    // opposite order and with gaps from transactions that have left.
    let txs: [(&[u8], u64, bool); 5] = [
        (b"taaaa", 9, false),
        (b"tb", 4, false),
        (b"tb", 4, false),
        (b"tc", 50, true),
        (b"tb", 5, false),
    ];
    let mut one: Mempool<20, 5> = Mempool::new(1, 2);
    for (bytes, fee, is_deferred) in txs {
        assert!(add(&mut one, bytes, fee, is_deferred));
    }
    let mut other: Mempool<100, 9> = Mempool::new(3, 2);
    for (bytes, fee, is_deferred) in txs.iter().rev() {
        assert!(add(&mut other, b"tgone", 99, false));
        assert!(add(&mut other, bytes, *fee, *is_deferred));
        other.confirm_by_block_acceptance(&block(&[b"tgone"]));
    }
    let expected = [
        (b"tb".to_vec(), 5),
        (b"tb".to_vec(), 4),
        (b"tb".to_vec(), 4),
        (b"taaaa".to_vec(), 9),
    ];
    for n in 0..6 {
        assert_eq!(top(&one, n), expected[..n.min(4)]);
        assert_eq!(top(&other, n), expected[..n.min(4)]);
    }
}

#[test]
fn offer_hands_out_copies_in_slot_order() {
    let mut mp = Small::new(1, 2);
    assert!(add(&mut mp, b"ta", 4, false));
    assert!(add(&mut mp, b"ta", 4, false));
    let mut iter = mp.top_n_for_exchange(5, decode);
    let (first, _) = iter.next().unwrap();
    let (second, _) = iter.next().unwrap();
    assert_eq!(first.bytes, second.bytes);
    assert!(std::ptr::eq(first.bytes, &mp.compact_buffer()[0..2]));
    assert!(std::ptr::eq(second.bytes, &mp.compact_buffer()[2..4]));
    assert!(iter.next().is_none());
}

#[test]
fn priority_goes_by_rate_then_owner_then_fingerprint_then_bytes_then_slot() {
    let base = entry(10, 5, 100, false);
    // 100 / 10 against 199 / 20.
    assert!(priority_precedes(&base, b"z", 1, &entry(20, 5, 199, true), b"a", 0));
    // The same rate, own first.
    assert!(priority_precedes(&entry(20, 9, 200, true), b"z", 1, &base, b"a", 0));
    assert!(!priority_precedes(&base, b"a", 0, &entry(20, 9, 200, true), b"z", 1));
    // The same owner, smaller fingerprint first.
    assert!(priority_precedes(&entry(10, 4, 100, false), b"z", 1, &base, b"a", 0));
    assert!(!priority_precedes(&entry(10, 6, 100, false), b"a", 0, &base, b"z", 1));
    // The same fingerprint, smaller bytes first.
    assert!(priority_precedes(&base, b"a", 1, &base, b"z", 0));
    assert!(!priority_precedes(&base, b"z", 0, &base, b"a", 1));
    // The same bytes, smaller slot first, and never before itself.
    assert!(priority_precedes(&base, b"a", 0, &base, b"a", 1));
    assert!(!priority_precedes(&base, b"a", 1, &base, b"a", 0));
    assert!(!priority_precedes(&base, b"a", 0, &base, b"a", 0));
}

#[test]
fn priority_does_not_overflow() {
    let huge = entry(u16::MAX, 0, u64::MAX, false);
    let small = entry(1, 0, u64::MAX, false);
    assert!(priority_precedes(&small, b"a", 0, &huge, b"a", 1));
    assert!(!priority_precedes(&huge, b"a", 1, &small, b"a", 0));
}

#[test]
fn classification_of_other_kinds() {
    let unrecognized = TransactionView { bytes: b"u", body: TransactionBody::Unrecognized };
    assert!(!is_own_transaction(&unrecognized, 0));
    assert_eq!(transaction_expiry_sequence(&unrecognized), NO_EXPIRY_SEQUENCE);
    let registration = view(b"r\x07");
    assert!(is_own_transaction(&registration, 7));
    assert!(!is_own_transaction(&registration, 8));
    let complex = TransactionView {
        bytes: b"c",
        body: TransactionBody::Complex {
            inputs: vec![
                TransactionInput::Balance { anchor_sequence: u32::MAX, initializer: 3 },
                TransactionInput::Utxo,
            ],
            outputs: vec![
                TransactionOutput::Utxo,
                TransactionOutput::Balance { receiver: 4 },
            ],
        },
    };
    assert!(is_own_transaction(&complex, 3));
    assert!(is_own_transaction(&complex, 4));
    assert!(!is_own_transaction(&complex, 5));
    assert_eq!(transaction_expiry_sequence(&complex), NO_EXPIRY_SEQUENCE);
}
