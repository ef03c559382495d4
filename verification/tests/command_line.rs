use generic_game::command::{is_whitespace, split_first_word};

fn split_by_std(s: &str) -> (&str, &str) {
    let s = s.trim();
    match s.find(|ch: char| ch.is_whitespace()) {
        Some(pos) => (&s[..pos], s[pos..].trim_start()),
        None => (s, ""),
    }
}

#[test]
fn white_space_is_what_std_takes_for_it() {
    for code in 0..=0x10ffffu32 {
        if let Some(c) = char::from_u32(code) {
            assert_eq!(is_whitespace(c), c.is_whitespace(), "{:x}", code);
        }
    }
}

#[test]
fn a_line_splits_into_command_and_argument() {
    assert_eq!(split_first_word("join_game QmAbc"), ("join_game", "QmAbc"));
    assert_eq!(split_first_word("  make_move   {\"Resign\": null}  "), ("make_move", "{\"Resign\": null}"));
    assert_eq!(split_first_word("make_move {\"a\": 1, \"b\": 2}"), ("make_move", "{\"a\": 1, \"b\": 2}"));
    assert_eq!(split_first_word("help"), ("help", ""));
    assert_eq!(split_first_word("  help \t\n"), ("help", ""));
    assert_eq!(split_first_word(""), ("", ""));
    assert_eq!(split_first_word(" \t "), ("", ""));
    assert_eq!(split_first_word("a\u{3000}b c"), ("a", "b c"));
    assert_eq!(split_first_word("\u{a0}x\u{2003}\u{2003}y\u{85}"), ("x", "y"));
    assert_eq!(split_first_word("gr\u{fc}\u{df}e w\u{f6}rld"), ("gr\u{fc}\u{df}e", "w\u{f6}rld"));
}

#[test]
fn splitting_agrees_with_std() {
    let lines = [
        "",
        " ",
        "x",
        " x",
        "x ",
        "x y",
        "x  y  z ",
        "\tnew_game\tHcSabc def\r\n",
        "\u{2028}a\u{2029}b\u{202f}c\u{205f}",
        "no_space_at_all",
        "\u{1680}\u{2000}\u{200a}",
        "\u{200b}zero width is no space",
    ];
    for line in lines {
        assert_eq!(split_first_word(line), split_by_std(line), "{:?}", line);
    }
}
