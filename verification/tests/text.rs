use matterless_view::text::{split_words, trim};

#[test]
fn words_are_split_where_the_standard_library_splits_them() {
    let cases = [
        "",
        "   ",
        "one",
        " one  two\tthree\n",
        "a\u{3000}b\u{a0}c\u{200b}d",
        "mesure mesure ",
    ];
    for text in cases {
        let ours = split_words(text);
        let theirs: Vec<String> = text.split_whitespace().map(str::to_string).collect();
        assert_eq!(ours, theirs, "{text:?}");
    }
}

#[test]
fn trimming_takes_white_space_off_both_ends_only() {
    for text in ["", "  ", " a b ", "\u{2003}x\u{3000}", "inner  space", "\n\tq"] {
        assert_eq!(trim(text), text.trim(), "{text:?}");
    }
}
