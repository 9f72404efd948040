use std::cmp::Ordering;

use librespot::FileId;

fn with_byte(k: usize, b: u8) -> FileId {
    let mut bytes = [0u8; 20];
    bytes[k] = b;
    FileId(bytes)
}

#[test]
fn file_id_hex_is_per_byte() {
    let mut bytes = [0u8; 20];
    for (i, b) in bytes.iter_mut().enumerate() {
        *b = (i as u8) * 13;
    }
    bytes[19] = 0xff;
    assert_eq!(
        FileId(bytes).to_base16(),
        "000d1a2734414e5b6875828f9ca9b6c3d0ddeaff"
    );
}

#[test]
fn file_id_hex_width() {
    assert_eq!(FileId([0u8; 20]).to_base16(), "0".repeat(40));
    assert_eq!(FileId([0xffu8; 20]).to_base16(), "f".repeat(40));
    assert_eq!(with_byte(0, 0xa5).to_base16().len(), 40);
}

#[test]
fn file_id_first_difference_decides() {
    let mut a = [7u8; 20];
    let mut b = [7u8; 20];
    a[5] = 1;
    b[5] = 2;
    a[6] = 200;
    b[6] = 0;
    assert_eq!(FileId(a).partial_cmp(&FileId(b)), Some(Ordering::Less));
    assert_eq!(FileId(b).partial_cmp(&FileId(a)), Some(Ordering::Greater));
    assert!(FileId(a) < FileId(b));
    assert_eq!(FileId(a).cmp(&FileId(b)), Ordering::Less);
}

#[test]
fn file_id_equal_and_sorted() {
    assert_eq!(FileId([3u8; 20]), FileId([3u8; 20]));
    assert_eq!(FileId([3u8; 20]).partial_cmp(&FileId([3u8; 20])), Some(Ordering::Equal));
    assert_ne!(with_byte(19, 1), with_byte(19, 2));
    let mut ids = vec![with_byte(0, 2), with_byte(19, 9), with_byte(0, 1)];
    ids.sort();
    assert_eq!(ids, vec![with_byte(19, 9), with_byte(0, 1), with_byte(0, 2)]);
}
