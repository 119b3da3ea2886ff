use byond_get::mode::add_execute_bits;
use byond_get::mode::executable;
use byond_get::mode::EXECUTE_BITS;
use byond_get::mode::OWNER_EXECUTE;
use byond_get::text::chars_of;

#[test]
fn the_execute_bits() {
    assert_eq!(EXECUTE_BITS, 0o111);
    assert_eq!(OWNER_EXECUTE, 0o100);
}

#[test]
fn adds_the_execute_bits() {
    assert_eq!(add_execute_bits(0o644), 0o755);
    assert_eq!(add_execute_bits(0o600), 0o711);
    assert_eq!(add_execute_bits(0), 0o111);
    assert_eq!(add_execute_bits(0o100644), 0o100755);
}

#[test]
fn keeps_the_bits_that_are_set() {
    assert_eq!(add_execute_bits(0o755), 0o755);
    assert_eq!(add_execute_bits(0o4755), 0o4755);
    assert_eq!(add_execute_bits(0o777), 0o777);
    assert_eq!(add_execute_bits(u32::MAX), u32::MAX);
    for mode in 0..0o10000u32 {
        let fixed = add_execute_bits(mode);
        assert_eq!(fixed & mode, mode);
        assert_eq!(fixed & OWNER_EXECUTE, OWNER_EXECUTE);
        assert_eq!(fixed & !EXECUTE_BITS, mode & !EXECUTE_BITS);
    }
}

#[test]
fn marks_all_but_shared_libraries() {
    assert!(executable(&chars_of("bin/DreamDaemon")));
    assert!(executable(&chars_of("bin/byond.exe")));
    assert!(executable(&chars_of("readme.txt")));
    assert!(!executable(&chars_of("bin/libbyond.so")));
    assert!(!executable(&chars_of("libext.so")));
}

#[test]
fn looks_at_the_end_of_the_path_only() {
    assert!(!executable(&chars_of(".so")));
    assert!(executable(&chars_of("so")));
    assert!(executable(&chars_of("")));
    assert!(executable(&chars_of("a.so.1")));
    assert!(executable(&chars_of("a.SO")));
    assert!(executable(&chars_of("lib.so/tool")));
    assert!(!executable(&chars_of("also")) == "also".ends_with(".so"));
}
