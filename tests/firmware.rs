use xv6_memory::acpi::{is_checksum_valid, search, sum, ACPI};

fn pointer(revision: u8) -> Vec<u8> {
    let mut t = b"RSD PTR ".to_vec();
    t.push(0); // checksum, fixed below
    t.extend_from_slice(b"OEMOEM");
    t.push(revision);
    t.extend_from_slice(&[0x00, 0x10, 0x00, 0x00]);
    t.extend_from_slice(&[0u8; 16]);
    let s = sum(&t[..20]);
    t[8] = 0u8.wrapping_sub(s);
    let s2 = sum(&t[20..34]);
    t[33] = t[33].wrapping_sub(s2);
    t
}

#[test]
fn checksum_is_sum_modulo_256() {
    assert_eq!(sum(&[]), 0);
    assert_eq!(sum(&[1, 2, 3]), 6);
    assert_eq!(sum(&[200, 100]), 44);
}

#[test]
fn search_finds_first_occurrence() {
    assert_eq!(search(b"abcabc", b"ca"), Some(2));
    assert_eq!(search(b"abcabc", b"abc"), Some(0));
    assert_eq!(search(b"abcabc", b"cb"), None);
    assert_eq!(search(b"ab", b"abc"), None);
    assert_eq!(search(b"ab", b""), Some(0));
}

#[test]
fn valid_pointers_pass() {
    assert!(is_checksum_valid(&pointer(0)));
    assert!(is_checksum_valid(&pointer(2)));
    let mut bad = pointer(0);
    bad[10] ^= 1;
    assert!(!is_checksum_valid(&bad));
    let mut bad_extension = pointer(2);
    bad_extension[25] ^= 1;
    assert!(!is_checksum_valid(&bad_extension));
    let mut ignored_extension = pointer(0);
    ignored_extension[25] ^= 1;
    assert!(is_checksum_valid(&ignored_extension));
}

#[test]
fn acpi_locates_pointer() {
    let mut region = vec![0u8; 48];
    region.extend_from_slice(&pointer(2));
    region.extend_from_slice(&[0u8; 16]);
    let acpi = ACPI::new(&region, 0x8000_0400).unwrap();
    assert_eq!(acpi.root_system_description(), 0x8000_0430);
}

#[test]
fn acpi_rejects_missing_or_broken_pointer() {
    assert!(ACPI::new(&[0u8; 64], 0).is_none());
    let mut broken = pointer(0);
    broken[12] ^= 0x40;
    assert!(ACPI::new(&broken, 0).is_none());
    let truncated = pointer(0)[..30].to_vec();
    assert!(ACPI::new(&truncated, 0).is_none());
}
