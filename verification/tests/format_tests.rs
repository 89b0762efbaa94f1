use file_index::format::{is_space_char, read_lines, Line};

fn pairs(lines: &[Line]) -> Vec<(&str, &str)> {
    lines.iter().map(|l| (l.digest.as_str(), l.path.as_str())).collect()
}

#[test]
fn white_space_is_what_std_says() {
    let mut n: u32 = 0;
    while n <= 0x10FFFF {
        if let Some(c) = char::from_u32(n) {
            assert_eq!(is_space_char(c), c.is_whitespace(), "U+{:04X}", n);
        }
        n += 1;
    }
}

#[test]
fn reads_one_entry_per_line() {
    let lines = read_lines("aa one\nbb two/three\n");
    assert_eq!(pairs(&lines), vec![("aa", "one"), ("bb", "two/three")]);
    let lines = read_lines("aa one\nbb two/three");
    assert_eq!(pairs(&lines), vec![("aa", "one"), ("bb", "two/three")]);
}

#[test]
fn reads_nothing_from_nothing() {
    assert!(read_lines("").is_empty());
    assert!(read_lines("\n").is_empty());
    assert!(read_lines("\n\n  \n\t\n").is_empty());
}

#[test]
fn skips_lines_without_blank() {
    let lines = read_lines("nospace\naa one\n\njusttext \nbb two\n");
    assert_eq!(pairs(&lines), vec![("aa", "one"), ("bb", "two")]);
}

#[test]
fn trims_lines_and_splits_at_first_blank() {
    let lines = read_lines("  aa one two  \r\n\tbb  x\u{a0}\n");
    assert_eq!(pairs(&lines), vec![("aa", "one two"), ("bb", " x")]);
    let lines = read_lines("aa\tb c\n");
    assert_eq!(pairs(&lines), vec![("aa\tb", "c")]);
}

#[test]
fn reads_as_std_lines_trim_and_split_once() {
    let texts = [
        "",
        "a b",
        "a b\n",
        "a b\r\n c d\r\n",
        "\r\na b\r",
        " a  b \n\nxx\n y z w\n",
        "a b\rc d\n",
        "\u{2003}k v\u{3000}\n\u{feff}k v\n",
        "only\n",
        " \n x\n x \n x y\n",
    ];
    for text in texts.iter() {
        let want: Vec<(String, String)> = text
            .lines()
            .filter_map(|s| s.trim().split_once(' '))
            .map(|(h, d)| (h.to_string(), d.to_string()))
            .collect();
        let got: Vec<(String, String)> =
            read_lines(text).into_iter().map(|l| (l.digest, l.path)).collect();
        assert_eq!(got, want, "{:?}", text);
    }
}
