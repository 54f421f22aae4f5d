use downloader_cli::color::{ColorOption, ShellColor, TerminalColor};

#[test]
fn new_knows_the_standard_names() {
    let c = ShellColor::new();
    for name in ["reset", "black", "red", "green", "yellow", "blue", "magenta", "cyan", "white"] {
        assert!(c.is_valid_color(name), "{}", name);
    }
    assert!(!c.is_valid_color("purple"));
    assert!(!c.is_valid_color("Red"));
    assert!(!c.is_valid_color(""));
}

#[test]
fn escape_sequences_are_valid_colors() {
    let c = ShellColor::new();
    assert!(c.is_valid_color("\u{1b}[31m"));
    assert!(c.is_valid_color("\u{1b}["));
    assert!(c.is_valid_color("\033[35m"));
    assert!(!c.is_valid_color("\u{1b}"));
    assert!(!c.is_valid_color("[31m"));
    assert!(!c.is_valid_color("33[31m"));
}

#[test]
fn wrap_named_color() {
    let c = ShellColor::new();
    assert_eq!(c.wrap_in_color("hi", "red"), "\u{1b}[1;31mhi\u{1b}[0m");
    assert_eq!(c.wrap_in_color("##", "white"), "\u{1b}[1;37m##\u{1b}[0m");
    assert_eq!(c.wrap_in_color("x", "reset"), "\u{1b}[1;0mx\u{1b}[0m");
    assert_eq!(c.wrap_in_color("", "green"), "\u{1b}[1;32m\u{1b}[0m");
}

#[test]
fn wrap_raw_escape() {
    let c = ShellColor::new();
    assert_eq!(c.wrap_in_color("hi", "\u{1b}[35m"), "\u{1b}[35mhi\u{1b}[0m");
    assert_eq!(c.wrap_in_color("hi", "\033[1m"), "\033[1mhi\u{1b}[0m");
}

#[test]
fn wrap_empty_or_unknown_color_leaves_text() {
    let c = ShellColor::new();
    assert_eq!(c.wrap_in_color("hi", ""), "hi");
    assert_eq!(c.wrap_in_color("hi", "purple"), "hi");
    assert_eq!(c.wrap_in_color("", ""), "");
}

#[test]
fn wrap_changes_text_iff_color_valid() {
    let c = ShellColor::new();
    for color in ["red", "cyan", "\u{1b}[4m", "nope", "RED", " red", ""] {
        let changed = c.wrap_in_color("text", color) != "text";
        assert_eq!(changed, c.is_valid_color(color), "{:?}", color);
    }
}

#[test]
fn terminal_colors_by_name() {
    let c = ShellColor::new();
    assert_eq!(c.get_terminal_color("black"), Some(TerminalColor::Black));
    assert_eq!(c.get_terminal_color("red"), Some(TerminalColor::Red));
    assert_eq!(c.get_terminal_color("green"), Some(TerminalColor::Green));
    assert_eq!(c.get_terminal_color("yellow"), Some(TerminalColor::Yellow));
    assert_eq!(c.get_terminal_color("blue"), Some(TerminalColor::Blue));
    assert_eq!(c.get_terminal_color("magenta"), Some(TerminalColor::Magenta));
    assert_eq!(c.get_terminal_color("cyan"), Some(TerminalColor::Cyan));
    assert_eq!(c.get_terminal_color("white"), Some(TerminalColor::White));
    assert_eq!(c.get_terminal_color("reset"), None);
    assert_eq!(c.get_terminal_color("purple"), None);
    assert_eq!(c.get_terminal_color(""), None);
}

#[test]
fn default_is_the_standard_table() {
    let c = ShellColor::default();
    assert!(c.is_valid_color("magenta"));
    assert_eq!(c.wrap_in_color("a", "blue"), "\u{1b}[1;34ma\u{1b}[0m");
}

#[test]
fn color_options_checked_in_order() {
    let c = ShellColor::new();
    assert_eq!(c.check_color_options("", "", ""), None);
    assert_eq!(c.check_color_options("green", "red", "\u{1b}[1m"), None);
    assert_eq!(c.check_color_options("purple", "nope", ""), Some(ColorOption::Done));
    assert_eq!(c.check_color_options("green", "nope", "bad"), Some(ColorOption::Left));
    assert_eq!(c.check_color_options("", "", "bad"), Some(ColorOption::Current));
}
