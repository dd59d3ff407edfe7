use cli_test::setup::command_line_of;
use cli_test::text::join_spaces;
use cli_test::text::split_spaces;

fn strings(items: &[&str]) -> Vec<String> {
    items.iter().map(|s| s.to_string()).collect()
}

#[test]
fn split_spaces_gives_one_piece_more_than_there_are_spaces() {
    assert_eq!(split_spaces("sh -c"), strings(&["sh", "-c"]));
    assert_eq!(split_spaces("one"), strings(&["one"]));
    assert_eq!(split_spaces(""), strings(&[""]));
    assert_eq!(split_spaces(" "), strings(&["", ""]));
    assert_eq!(split_spaces(" a  b "), strings(&["", "a", "", "b", ""]));
}

#[test]
fn split_spaces_counts_characters_not_bytes() {
    assert_eq!(
        split_spaces("\u{e9}t\u{e9} \u{4e16}\u{754c} \u{1f980}"),
        strings(&["\u{e9}t\u{e9}", "\u{4e16}\u{754c}", "\u{1f980}"])
    );
}

#[test]
fn split_spaces_agrees_with_the_standard_split() {
    let lines = ["", " ", "a", "a b", "a  b", "  ", " x ", "cargo run --release", "t\tab x\ny"];
    for line in lines {
        let expected: Vec<String> = line.split(' ').map(|s| s.to_string()).collect();
        assert_eq!(split_spaces(line), expected);
    }
}

#[test]
fn join_spaces_puts_one_space_between_neighbours() {
    assert_eq!(join_spaces(&strings(&[])), "");
    assert_eq!(join_spaces(&strings(&["a"])), "a");
    assert_eq!(join_spaces(&strings(&["a", "b", "c"])), "a b c");
    assert_eq!(join_spaces(&strings(&["", ""])), " ");
    assert_eq!(join_spaces(&strings(&["a", "", "b"])), "a  b");
}

#[test]
fn joining_the_pieces_of_a_text_gives_the_text() {
    for line in ["", " ", "a b", " a  b ", "x"] {
        assert_eq!(join_spaces(&split_spaces(line)), line);
    }
}

#[test]
fn splitting_joined_words_gives_the_words() {
    let words = strings(&["cargo", "", "run", "--release"]);
    assert_eq!(split_spaces(&join_spaces(&words)), words);
}

#[test]
fn command_line_of_puts_flags_between_marker_and_separator() {
    assert_eq!(command_line_of(&strings(&[]), "status"), "cargo run  -- status");
    assert_eq!(command_line_of(&strings(&["--release"]), "status"), "cargo run --release -- status");
    assert_eq!(
        command_line_of(&strings(&["--release", "--quiet"]), "add 1 2"),
        "cargo run --release --quiet -- add 1 2"
    );
    assert_eq!(command_line_of(&strings(&["-q"]), ""), "cargo run -q -- ");
}
