use cull::lineedit::{LineEdit, Mode};

const PATH: &str = "~/Raw Shots/2026-09-19";

fn keys(e: &mut LineEdit, keys: &str) {
    for k in keys.chars() {
        e.command(&k.to_string());
    }
}

/// Text with `|` marking the cursor.
fn show(e: &LineEdit) -> String {
    format!("{}|{}", &e.text[..e.caret], &e.text[e.caret..])
}

#[test]
fn starts_on_last_char() {
    let e = LineEdit::new(PATH.to_owned());
    assert_eq!((show(&e).as_str(), e.mode), ("~/Raw Shots/2026-09-1|9", Mode::Normal));
    assert_eq!(LineEdit::new(String::new()).caret, 0);
}

#[test]
fn word_motions() {
    let mut e = LineEdit::new(PATH.to_owned());
    keys(&mut e, "0");
    let mut stops = Vec::new();
    for _ in 0..9 {
        keys(&mut e, "w");
        stops.push(e.caret);
    }
    // ~/ | Raw | Shots | / | 2026 | - | 09 | - | 19, then stuck on the last char.
    assert_eq!(stops, [2, 6, 11, 12, 16, 17, 19, 20, 21]);
    let mut back = Vec::new();
    for _ in 0..9 {
        keys(&mut e, "b");
        back.push(e.caret);
    }
    assert_eq!(back, [20, 19, 17, 16, 12, 11, 6, 2, 0]);
}

#[test]
fn change_word() {
    let mut e = LineEdit::new(PATH.to_owned());
    keys(&mut e, "bcw");
    assert_eq!((show(&e).as_str(), e.mode), ("~/Raw Shots/2026-09-|", Mode::Insert));
    e.insert("20");
    assert!(e.escape());
    assert_eq!((show(&e).as_str(), e.mode), ("~/Raw Shots/2026-09-2|0", Mode::Normal));

    let mut e = LineEdit::new("a b".to_owned());
    keys(&mut e, "0cw");
    assert_eq!(show(&e), "| b", "stops before the blank");

    let mut e = LineEdit::new("ab".to_owned());
    keys(&mut e, "0cx");
    assert_eq!((show(&e).as_str(), e.mode), ("|ab", Mode::Normal), "unknown second key cancels");
    keys(&mut e, "c");
    assert!(e.escape(), "escape drops the pending c");
    assert!(!e.escape());
}

#[test]
fn inserting_and_editing() {
    let mut e = LineEdit::new("~/Pictures".to_owned());
    keys(&mut e, "A");
    e.insert("/2026");
    assert_eq!(show(&e), "~/Pictures/2026|");
    e.backspace();
    e.escape();
    keys(&mut e, "0x$");
    assert_eq!(show(&e), "/Pictures/20|2");
    keys(&mut e, "I");
    e.insert("~");
    e.escape();
    keys(&mut e, "hhhha");
    assert_eq!((show(&e).as_str(), e.mode), ("~|/Pictures/202", Mode::Insert));
}

#[test]
fn moves_over_wide_characters() {
    let mut e = LineEdit::new("aé漢😀b".to_owned());
    let mut stops = vec![e.caret];
    for _ in 0..5 {
        keys(&mut e, "h");
        stops.push(e.caret);
    }
    assert_eq!(stops, [10, 6, 3, 1, 0, 0]);
    keys(&mut e, "lx");
    assert_eq!(show(&e), "a|漢😀b");
    e.right();
    keys(&mut e, "a");
    e.insert("ü");
    assert_eq!(show(&e), "a漢😀ü|b");
    e.left();
    assert_eq!(show(&e), "a漢😀|üb");
}

#[test]
fn letters_digits_and_blanks_of_other_scripts() {
    // Letters and digits of any script are one word; an ideographic space is a blank.
    let mut e = LineEdit::new("añ٣　b_c+d".to_owned());
    keys(&mut e, "0w");
    assert_eq!(show(&e), "añ٣　|b_c+d");
    keys(&mut e, "w");
    assert_eq!(show(&e), "añ٣　b_c|+d");
    keys(&mut e, "bb");
    assert_eq!(show(&e), "|añ٣　b_c+d");
}

#[test]
fn change_on_a_blank_takes_one() {
    let mut e = LineEdit::new("a   b".to_owned());
    keys(&mut e, "0lcw");
    assert_eq!((show(&e).as_str(), e.mode), ("a|  b", Mode::Insert));
}

#[test]
fn typing_is_taken_back() {
    let mut e = LineEdit::new("xy".to_owned());
    keys(&mut e, "i");
    let before = show(&e);
    e.insert("é");
    e.backspace();
    assert_eq!(show(&e), before);
    e.left();
    e.backspace();
    assert_eq!(show(&e), "|xy");
}

#[test]
fn empty_text_keeps_still() {
    let mut e = LineEdit::new(String::new());
    keys(&mut e, "hlwb0$xcw");
    assert_eq!((show(&e).as_str(), e.mode), ("|", Mode::Insert));
    assert!(e.escape());
    keys(&mut e, "aIA");
    assert_eq!((show(&e).as_str(), e.mode), ("|", Mode::Insert));
}

#[test]
fn words_of_keys_mean_nothing() {
    let mut e = LineEdit::new("ab".to_owned());
    e.command("ww");
    e.command("");
    e.command("ArrowLeft");
    assert_eq!(show(&e), "a|b");
    e.command("c");
    e.command("ww");
    assert_eq!((show(&e).as_str(), e.mode, e.pending), ("a|b", Mode::Normal, None));
}
