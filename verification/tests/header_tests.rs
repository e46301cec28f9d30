use arceos_core::header::{AppHeader, ImageHeader};

#[test]
fn load_app_nums_reads_big_endian_size() {
    let mem = [0xAAu8, 0x01, 0x02, 0x00, 0x00];
    let h = ImageHeader::new(4);
    assert_eq!(h.ptr_len, 4);
    assert_eq!(h.load_app_nums(&mem, 1), 0x0102);
}

#[test]
fn load_app_reads_content_after_size() {
    let mut mem = vec![0u8; 3];
    mem.extend_from_slice(&[0x00, 0x03, 0xFF, 0xFF]);
    mem.extend_from_slice(b"abcdef");
    let h = ImageHeader::new(4);
    let app = h.load_app(&mem, 3);
    assert_eq!(app.start, 7);
    assert_eq!(app.size, 3);
    assert_eq!(app.content, b"abc");
}

#[test]
fn load_app_with_empty_content() {
    let mem = [0x00u8, 0x00];
    let h = ImageHeader::new(2);
    let app = h.load_app(&mem, 0);
    assert_eq!((app.start, app.size), (2, 0));
    assert!(app.content.is_empty());
}

#[test]
fn app_header_new_keeps_fields() {
    let data = [1u8, 2, 3];
    let app = AppHeader::new(10, 3, &data);
    assert_eq!(app.start, 10);
    assert_eq!(app.size, 3);
    assert_eq!(app.content, &data);
}
