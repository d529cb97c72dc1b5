use mp_http_server::header_block::{first_cut_update, size_updates_are_whole};

#[test]
fn size_update_checks() {
    assert!(size_updates_are_whole(&[]));
    assert!(size_updates_are_whole(&[0x20]));
    assert!(size_updates_are_whole(&[0x3F, 0x01]));
    assert!(!size_updates_are_whole(&[0x3F]));
    assert!(!size_updates_are_whole(&[0x3F, 0x80, 0x80, 0x80, 0x80]));
    // a literal field, then a size update cut short
    assert!(!size_updates_are_whole(&[0x00, 0x01, b'a', 0x01, b'b', 0x3F]));
    // a literal cut short ends the walk: the decoder stops there
    assert!(size_updates_are_whole(&[0x00, 0x05, b'a', 0x3F]));
    // indexed fields are walked past
    assert!(!size_updates_are_whole(&[0x82, 0x3F, 0xFF]));
}

#[test]
fn first_cut_update_positions() {
    assert_eq!(first_cut_update(&[]), None);
    assert_eq!(first_cut_update(&[0x3F]), Some(0));
    assert_eq!(first_cut_update(&[0x80, 0x3F]), Some(1));
    assert_eq!(first_cut_update(&[0x00, 0x01, b'a', 0x01, b'b', 0x3F]), Some(5));
    assert_eq!(first_cut_update(&[0x3F, 0x01, 0x82]), None);
}
