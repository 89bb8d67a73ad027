use cull::text::{decimal, is_ctrl, is_white, trim};

#[test]
fn blanks_and_controls_agree_with_the_standard_library() {
    for c in (0..=0x10ffff).filter_map(char::from_u32) {
        assert_eq!(is_white(c), c.is_whitespace(), "{c:?}");
        assert_eq!(is_ctrl(c), c.is_control(), "{c:?}");
    }
}

#[test]
fn trimming_agrees_with_the_standard_library() {
    for s in ["", " ", "a", " a ", "\t a b\u{3000}\n", "\u{a0}x\u{2003}\u{200b}", "é ", " 漢"] {
        assert_eq!(trim(s), s.trim(), "{s:?}");
    }
}

#[test]
fn numbers_in_decimal() {
    for n in [0, 1, 9, 10, 11, 99, 100, 1234567890, u64::MAX] {
        assert_eq!(decimal(n), n.to_string());
    }
}
