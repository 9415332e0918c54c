use stash_cli::ulid::{encode_ulid, ulid_from_parts};

#[test]
fn zero_bytes_encode_as_zeros() {
    assert_eq!(encode_ulid(&[0u8; 16]), "00000000000000000000000000");
}

#[test]
fn all_ones_is_the_largest_ulid() {
    assert_eq!(encode_ulid(&[0xffu8; 16]), "7ZZZZZZZZZZZZZZZZZZZZZZZZZ");
}

#[test]
fn crockford_alphabet_skips_ambiguous_letters() {
    let mut bytes = [0u8; 16];
    bytes[15] = 31;
    assert_eq!(encode_ulid(&bytes), "0000000000000000000000000Z");
    bytes[15] = 18;
    assert_eq!(encode_ulid(&bytes), "0000000000000000000000000J");
}

#[test]
fn new_ids_put_the_time_first_in_lower_case() {
    assert_eq!(ulid_from_parts(1, &[0u8; 10]), "00000000010000000000000000");
    let id = ulid_from_parts(1_700_000_000_000, &[0xabu8; 10]);
    assert_eq!(id.len(), 26);
    assert_eq!(id, id.to_ascii_lowercase());
    let later = ulid_from_parts(1_700_000_000_001, &[0u8; 10]);
    assert!(later > ulid_from_parts(1_700_000_000_000, &[0xffu8; 10]));
}

#[test]
fn later_ids_sort_after_earlier_ones() {
    let low = [0xffu8; 10];
    let high = [0u8; 10];
    let earlier = ulid_from_parts(1_712_800_000_000, &low);
    let later = ulid_from_parts(1_712_800_000_001, &high);
    assert!(earlier < later);
    let mut ids = vec![
        ulid_from_parts(5, &[7u8; 10]),
        ulid_from_parts(1_000_000, &[0u8; 10]),
        ulid_from_parts(6, &[0u8; 10]),
    ];
    ids.sort();
    assert_eq!(ids[0], ulid_from_parts(5, &[7u8; 10]));
    assert_eq!(ids[2], ulid_from_parts(1_000_000, &[0u8; 10]));
}

#[test]
fn encoded_ids_keep_byte_order() {
    let mut low = [0xffu8; 16];
    low[0] = 0x01;
    let mut high = [0u8; 16];
    high[0] = 0x02;
    assert!(low < high);
    assert!(encode_ulid(&low) < encode_ulid(&high));
    let mut a = [7u8; 16];
    let mut b = [7u8; 16];
    a[15] = 3;
    b[15] = 4;
    assert!(encode_ulid(&a) < encode_ulid(&b));
}
