use brainfuck::input::{first_byte, input_byte};

#[test]
fn line_gives_its_first_character() {
    assert_eq!(input_byte("a\n"), Some(97));
    assert_eq!(input_byte("hello\n"), Some(104));
    assert_eq!(input_byte("7"), Some(55));
}

#[test]
fn white_space_at_the_ends_is_not_read() {
    assert_eq!(input_byte("  x  \n"), Some(120));
    assert_eq!(input_byte("\t\r\n y"), Some(121));
    assert_eq!(input_byte("\u{a0}\u{3000}z"), Some(122));
}

#[test]
fn blank_line_gives_nothing() {
    assert_eq!(input_byte(""), None);
    assert_eq!(input_byte("\n"), None);
    assert_eq!(input_byte("\r\n"), None);
    assert_eq!(input_byte("   \t  \n"), None);
}

#[test]
fn wide_character_gives_its_low_byte() {
    assert_eq!(input_byte("\u{e9}\n"), Some(0xe9));
    assert_eq!(input_byte("\u{4e16}\n"), Some(0x16));
    assert_eq!(input_byte("\u{100}\n"), Some(0));
    assert_eq!(input_byte("\u{1f600}\n"), Some(0));
}

#[test]
fn first_byte_reads_the_text_as_it_is() {
    assert_eq!(first_byte(""), None);
    assert_eq!(first_byte(" a"), Some(32));
    assert_eq!(first_byte("\n"), Some(10));
    assert_eq!(first_byte("ab"), Some(97));
    assert_eq!(first_byte("\u{4e16}"), Some(0x16));
}
