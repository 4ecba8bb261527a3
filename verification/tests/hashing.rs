use lz4rip::dict::hash_dmer;
use lz4rip::hashtable::{get_batch_arch, get_batch_unchecked, HashTable, HashTableU32, HashTableU32N, HashTableU32U16};

#[test]
fn batches_read_little_endian() {
    let data = [1u8, 2, 3, 4, 5, 6, 7, 8, 9];
    assert_eq!(get_batch_unchecked(&data, 0), 0x0403_0201);
    assert_eq!(get_batch_arch(&data, 1), 0x0908_0706_0504_0302);
}

#[test]
fn table_hashes_take_the_top_bits() {
    let data = [1u8, 2, 3, 4, 5, 6, 7, 8];
    assert_eq!(HashTableU32::get_hash_at(&data, 0), 696);
    assert_eq!(HashTableU32U16::<4096>::get_hash_at(&data, 0), 1393);
    assert_eq!(HashTableU32N::<2048>::get_hash_at(&data, 0), 696);
}

#[test]
fn dmer_hash_value() {
    let data = [1u8, 2, 3, 4, 5, 6, 7, 8];
    assert_eq!(hash_dmer(&data) as u64, 12124955669744952853u64);
    assert_eq!(hash_dmer(&data) & 0xFFFF, 42517);
}

#[test]
fn tables_store_put_values_and_clear() {
    let mut t = HashTableU32::new();
    t.put_at(5, 123_456);
    assert_eq!(t.get_at(5), 123_456);
    t.reposition(456);
    assert_eq!(t.get_at(5), 123_000);
    t.reposition(200_000);
    assert_eq!(t.get_at(5), 0);
    t.put_at(7, 9);
    t.clear();
    assert_eq!(t.get_at(7), 0);

    let mut u = HashTableU32U16::<4096>::new();
    u.put_at(1, 70_000);
    // Values are kept as 16 bits.
    assert_eq!(u.get_at(1), 70_000 - 65_536);

    let mut a = HashTableU32N::<64>::new();
    let mut b = HashTableU32N::<64>::new();
    b.put_at(3, 33);
    a.copy_from(&b);
    assert_eq!(a.get_at(3), 33);
}
