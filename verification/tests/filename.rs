use mcu_runtime::context::ContextID;
use mcu_runtime::filename::{
    applet_field, can_read, can_write, cap, is_applet, package_list, static_field,
};

fn ctx(id: usize) -> ContextID {
    ContextID::from_id_unchecked(id)
}

#[test]
fn filename_package_list() {
    assert!(can_read(ctx(0), &[0]));
    assert!(can_read(ctx(5), &[0]));
    assert!(can_write(ctx(2), &[0]));
    assert!(!can_write(ctx(1), &[0]));
    assert!(!can_write(ctx(0), &[0]));
    assert!(!can_write(ctx(2), &[0, 0]));
}

#[test]
fn filename_cap() {
    assert!(can_read(ctx(0), &[1, 7]));
    assert!(can_write(ctx(2), &[1, 7]));
    assert!(!can_write(ctx(3), &[1, 7]));
    assert!(!can_write(ctx(2), &[1]));
    assert!(!can_write(ctx(2), &[1, 7, 8]));
}

#[test]
fn filename_static() {
    assert!(can_read(ctx(4), &[2, 1, 2]));
    assert!(can_write(ctx(0), &[2, 1, 2]));
    assert!(can_write(ctx(9), &[2, 1, 2]));
    assert!(!can_write(ctx(9), &[2, 1]));
    assert!(!can_write(ctx(9), &[2, 1, 2, 3]));
}

#[test]
fn filename_applet_field() {
    assert!(can_read(ctx(3), &[3, 3, 1, 2, 3]));
    assert!(!can_read(ctx(4), &[3, 3, 1, 2, 3]));
    assert!(can_write(ctx(3), &[3, 3, 1, 2, 3]));
    assert!(!can_write(ctx(4), &[3, 3, 1, 2, 3]));
    assert!(!can_write(ctx(3), &[3, 3, 1, 2]));
    assert!(!can_write(ctx(3), &[3, 3, 1, 2, 3, 4]));
}

#[test]
fn filename_unknown_kind() {
    assert!(!can_read(ctx(0), &[4]));
    assert!(!can_write(ctx(2), &[4]));
    assert!(!can_read(ctx(0), &[0xFF, 0]));
}

#[test]
fn filename_is_applet() {
    assert!(is_applet(&[1, 0]));
    assert!(is_applet(&[1, 200]));
    assert!(!is_applet(&[1]));
    assert!(!is_applet(&[1, 0, 0]));
    assert!(!is_applet(&[2, 0]));
    assert!(!is_applet(&[]));
}

#[test]
fn filename_paths() {
    let mut tag = [0xAAu8; 32];
    let mut len = 0xAAu8;
    package_list(&mut tag, &mut len);
    assert_eq!((&tag[..len as usize], len), (&[0u8][..], 1));
    cap(7, &mut tag, &mut len);
    assert_eq!((&tag[..len as usize], len), (&[1u8, 7][..], 2));
    assert!(is_applet(&tag[..len as usize]));
    static_field(7, 9, &mut tag, &mut len);
    assert_eq!((&tag[..len as usize], len), (&[2u8, 7, 9][..], 3));
    applet_field(4, 7, 8, 9, &mut tag, &mut len);
    assert_eq!((&tag[..len as usize], len), (&[3u8, 4, 7, 8, 9][..], 5));
    assert!(can_write(ctx(4), &tag[..len as usize]));
    assert!(!can_write(ctx(5), &tag[..len as usize]));
}

#[test]
fn filename_tags_that_lack_bytes() {
    for c in 0..4 {
        assert!(!can_write(ctx(c), &[3]));
        assert!(!can_read(ctx(c), &[3]));
        assert!(!can_write(ctx(c), &[]));
        assert!(!can_read(ctx(c), &[]));
        assert!(!can_write(ctx(c), &[2]));
    }
    assert!(can_read(ctx(0), &[2]));
    assert!(can_read(ctx(7), &[3, 7]));
    assert!(!can_write(ctx(7), &[3, 7]));
}

