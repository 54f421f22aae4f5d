//! Named ANSI colours and wrapping text in colour escape sequences.
use vstd::prelude::*;
use crate::text::{chars_of, decimal, has_prefix, push_decimal, same_chars};

verus! {

/// The escape sequence that resets all attributes: `ESC [ 0 m`.
pub open spec fn reset_seq() -> Seq<char> {
    seq!['\u{1b}', '[', '0', 'm']
}

/// The start of a bold colour sequence: `ESC [ 1 ;`.
pub open spec fn bold_prefix() -> Seq<char> {
    seq!['\u{1b}', '[', '1', ';']
}

/// The prefix `ESC [` of a raw escape sequence.
pub open spec fn esc_prefix() -> Seq<char> {
    seq!['\u{1b}', '[']
}

/// The prefix `NUL 3 3 [` (the text `"\033["` read as a Rust literal).
pub open spec fn nul_prefix() -> Seq<char> {
    seq!['\0', '3', '3', '[']
}

/// Whether `color` is given as a raw escape sequence rather than a name.
pub open spec fn is_escape(color: Seq<char>) -> bool {
    esc_prefix().is_prefix_of(color) || nul_prefix().is_prefix_of(color)
}

/// What a colour table holds after inserting `entries` in order into an
/// empty one: a later entry for a name replaces an earlier one.
pub open spec fn table(entries: Seq<(Seq<char>, u8)>) -> Map<Seq<char>, u8>
    decreases entries.len(),
{
    if entries.len() == 0 {
        Map::empty()
    } else {
        table(entries.drop_last()).insert(entries.last().0, entries.last().1)
    }
}

/// The colour names and SGR codes that `ShellColor::new` knows.
pub open spec fn standard_colors() -> Map<Seq<char>, u8> {
    map![
        "reset"@ => 0u8,
        "black"@ => 30u8,
        "red"@ => 31u8,
        "green"@ => 32u8,
        "yellow"@ => 33u8,
        "blue"@ => 34u8,
        "magenta"@ => 35u8,
        "cyan"@ => 36u8,
        "white"@ => 37u8
    ]
}

/// Whether `color` is accepted as a colour: a raw escape sequence or a
/// name in `colors`.
pub open spec fn valid_color(colors: Map<Seq<char>, u8>, color: Seq<char>) -> bool {
    is_escape(color) || colors.contains_key(color)
}

/// The escape sequence that selects `color`, if it is accepted.
pub open spec fn color_sequence(colors: Map<Seq<char>, u8>, color: Seq<char>) -> Option<Seq<char>> {
    if is_escape(color) {
        Some(color)
    } else if colors.contains_key(color) {
        Some(bold_prefix() + decimal(colors[color] as nat) + seq!['m'])
    } else {
        None
    }
}

/// `text` wrapped in `color`: unchanged when `color` is empty or unknown,
/// else the colour's sequence, the text and the reset sequence.
pub open spec fn wrapped(colors: Map<Seq<char>, u8>, text: Seq<char>, color: Seq<char>) -> Seq<char> {
    if color.len() == 0 {
        text
    } else {
        match color_sequence(colors, color) {
            Some(ansi) => ansi + text + reset_seq(),
            None => text,
        }
    }
}

/// The eight terminal colours that have a name.
#[derive(Clone, Copy, Debug, PartialEq, Eq, Structural)]
pub enum TerminalColor {
    Black,
    Red,
    Green,
    Yellow,
    Blue,
    Magenta,
    Cyan,
    White,
}

/// The terminal colour that `name` denotes, if any (`"reset"` denotes none).
pub open spec fn terminal_color_named(name: Seq<char>) -> Option<TerminalColor> {
    if name == "black"@ {
        Some(TerminalColor::Black)
    } else if name == "red"@ {
        Some(TerminalColor::Red)
    } else if name == "green"@ {
        Some(TerminalColor::Green)
    } else if name == "yellow"@ {
        Some(TerminalColor::Yellow)
    } else if name == "blue"@ {
        Some(TerminalColor::Blue)
    } else if name == "magenta"@ {
        Some(TerminalColor::Magenta)
    } else if name == "cyan"@ {
        Some(TerminalColor::Cyan)
    } else if name == "white"@ {
        Some(TerminalColor::White)
    } else {
        None
    }
}

/// The three colour options of the progress bar.
#[derive(Clone, Copy, Debug, PartialEq, Eq, Structural)]
pub enum ColorOption {
    Done,
    Left,
    Current,
}

/// A colour option is acceptable when it is empty (no colour) or accepted
/// as a colour.
pub open spec fn option_ok(colors: Map<Seq<char>, u8>, color: Seq<char>) -> bool {
    color.len() == 0 || valid_color(colors, color)
}

/// A table from colour names to their SGR colour codes.
pub struct ShellColor {
    color_map: Vec<(String, u8)>,
}

impl View for ShellColor {
    type V = Map<Seq<char>, u8>;

    closed spec fn view(&self) -> Map<Seq<char>, u8> {
        table(self.entries())
    }
}

/// The entries of a table as names and codes, in insertion order.
pub open spec fn entry_views(v: Seq<(String, u8)>) -> Seq<(Seq<char>, u8)> {
    v.map_values(|e: (String, u8)| (e.0@, e.1))
}

/// Appends `name` with `code` to the entries `v`: the table they make then
/// maps `name` to `code`.
fn push_entry(v: &mut Vec<(String, u8)>, name: &str, code: u8)
    ensures
        table(entry_views(final(v)@)) == table(entry_views(old(v)@)).insert(name@, code),
{
    let ghost before = entry_views(v@);
    v.push((String::from_str(name), code));
    assert(entry_views(v@).drop_last() =~= before);
}

impl ShellColor {
    /// The table's entries in the order they were inserted.
    closed spec fn entries(&self) -> Seq<(Seq<char>, u8)> {
        entry_views(self.color_map@)
    }

    /// Every table holds exactly the standard colour names.
    #[verifier::type_invariant]
    closed spec fn is_standard(&self) -> bool {
        table(self.entries()) == standard_colors()
    }

    /// The table of the standard colour names: `reset` (0) and the eight
    /// colours `black` to `white` (30 to 37).
    pub fn new() -> (s: Self)
        ensures
            s@ == standard_colors(),
            forall|name: Seq<char>| #[trigger] terminal_color_named(name) is Some ==> s@.contains_key(name)
                && s@[name] == 30 + ansi_index(terminal_color_named(name).unwrap()),
    {
        assert forall|name: Seq<char>| #[trigger] terminal_color_named(name) is Some implies standard_colors().contains_key(name)
            && standard_colors()[name] == 30 + ansi_index(terminal_color_named(name).unwrap()) by {
            lemma_standard_codes(name);
        }
        let mut v: Vec<(String, u8)> = Vec::new();
        assert(entry_views(v@) =~= Seq::empty());
        push_entry(&mut v, "reset", 0);
        push_entry(&mut v, "black", 30);
        push_entry(&mut v, "red", 31);
        push_entry(&mut v, "green", 32);
        push_entry(&mut v, "yellow", 33);
        push_entry(&mut v, "blue", 34);
        push_entry(&mut v, "magenta", 35);
        push_entry(&mut v, "cyan", 36);
        push_entry(&mut v, "white", 37);
        ShellColor { color_map: v }
    }

    /// The code stored for `name`, if any.
    fn code_of(&self, name: &str) -> (r: Option<u8>)
        ensures
            r == (if self@.contains_key(name@) { Some(self@[name@]) } else { None::<u8> }),
    {
        let key = String::from_str(name);
        let ghost e = self.entries();
        let mut i = self.color_map.len();
        assert(e.take(i as int) =~= e);
        while i > 0
            invariant
                i <= self.color_map.len(),
                e == self.entries(),
                key@ == name@,
                table(e.take(i as int)).contains_key(key@) == table(e).contains_key(key@),
                table(e.take(i as int)).contains_key(key@) ==> table(e.take(i as int))[key@] == table(e)[key@],
            decreases i,
        {
            assert(e.take(i as int).drop_last() =~= e.take(i - 1));
            assert(e[i - 1] == (self.color_map@[i - 1].0@, self.color_map@[i - 1].1));
            if self.color_map[i - 1].0 == key {
                return Some(self.color_map[i - 1].1);
            }
            i -= 1;
        }
        assert(e.take(0) =~= Seq::empty());
        None
    }

    /// Whether `color` is a raw escape sequence (starting with `ESC [` or
    /// with `NUL 3 3 [`) or a known colour name.
    pub fn is_valid_color(&self, color: &str) -> (b: bool)
        ensures
            b == valid_color(self@, color@),
    {
        if starts_with_escape(color) {
            return true;
        }
        self.code_of(color).is_some()
    }

    /// The first of the colour options `done`, `left` and `current` (in that
    /// order) that is neither empty nor an accepted colour, if any.
    pub fn check_color_options(&self, done: &str, left: &str, current: &str) -> (r: Option<ColorOption>)
        ensures
            r == (if !option_ok(self@, done@) {
                Some(ColorOption::Done)
            } else if !option_ok(self@, left@) {
                Some(ColorOption::Left)
            } else if !option_ok(self@, current@) {
                Some(ColorOption::Current)
            } else {
                None::<ColorOption>
            }),
    {
        if !done.is_empty() && !self.is_valid_color(done) {
            Some(ColorOption::Done)
        } else if !left.is_empty() && !self.is_valid_color(left) {
            Some(ColorOption::Left)
        } else if !current.is_empty() && !self.is_valid_color(current) {
            Some(ColorOption::Current)
        } else {
            None
        }
    }

    /// The `termcolor`-style colour named `color`, if it names one of the
    /// eight colours.
    pub fn get_terminal_color(&self, color: &str) -> (r: Option<TerminalColor>)
        ensures
            r == terminal_color_named(color@),
    {
        let c = chars_of(color);
        proof {
            reveal_strlit("black");
            reveal_strlit("red");
            reveal_strlit("green");
            reveal_strlit("yellow");
            reveal_strlit("blue");
            reveal_strlit("magenta");
            reveal_strlit("cyan");
            reveal_strlit("white");
        }
        let black = vec!['b', 'l', 'a', 'c', 'k'];
        let red = vec!['r', 'e', 'd'];
        let green = vec!['g', 'r', 'e', 'e', 'n'];
        let yellow = vec!['y', 'e', 'l', 'l', 'o', 'w'];
        let blue = vec!['b', 'l', 'u', 'e'];
        let magenta = vec!['m', 'a', 'g', 'e', 'n', 't', 'a'];
        let cyan = vec!['c', 'y', 'a', 'n'];
        let white = vec!['w', 'h', 'i', 't', 'e'];
        assert(black@ =~= "black"@);
        assert(red@ =~= "red"@);
        assert(green@ =~= "green"@);
        assert(yellow@ =~= "yellow"@);
        assert(blue@ =~= "blue"@);
        assert(magenta@ =~= "magenta"@);
        assert(cyan@ =~= "cyan"@);
        assert(white@ =~= "white"@);
        if same_chars(&c, &black) {
            Some(TerminalColor::Black)
        } else if same_chars(&c, &red) {
            Some(TerminalColor::Red)
        } else if same_chars(&c, &green) {
            Some(TerminalColor::Green)
        } else if same_chars(&c, &yellow) {
            Some(TerminalColor::Yellow)
        } else if same_chars(&c, &blue) {
            Some(TerminalColor::Blue)
        } else if same_chars(&c, &magenta) {
            Some(TerminalColor::Magenta)
        } else if same_chars(&c, &cyan) {
            Some(TerminalColor::Cyan)
        } else if same_chars(&c, &white) {
            Some(TerminalColor::White)
        } else {
            None
        }
    }

    /// `to_wrap` coloured with `color`: returned unchanged when `color` is
    /// empty or neither an escape sequence nor a known name; otherwise the
    /// colour's escape sequence (the raw sequence itself, or
    /// `ESC [ 1 ; <code> m` for a name), `to_wrap`, then `ESC [ 0 m`.
    pub fn wrap_in_color(&self, to_wrap: &str, color: &str) -> (r: String)
        ensures
            r@ == wrapped(self@, to_wrap@, color@),
            (r@ == to_wrap@) == !valid_color(self@, color@),
    {
        proof {
            use_type_invariant(self);
            lemma_standard_wrap_changes_iff_valid(to_wrap@, color@);
        }
        proof {
            reveal_strlit("\u{1b}[1;");
            reveal_strlit("m");
            reveal_strlit("\u{1b}[0m");
        }
        if color.is_empty() {
            return String::from_str(to_wrap);
        }
        let mut out;
        if starts_with_escape(color) {
            out = String::from_str(color);
        } else {
            match self.code_of(color) {
                Some(code) => {
                    out = String::from_str("\u{1b}[1;");
                    push_decimal(&mut out, code as u64);
                    out.append("m");
                },
                None => {
                    return String::from_str(to_wrap);
                },
            }
        }
        out.append(to_wrap);
        out.append("\u{1b}[0m");
        out
    }
}

/// Whether `color` starts with `ESC [` or with `NUL 3 3 [`.
fn starts_with_escape(color: &str) -> (b: bool)
    ensures
        b == is_escape(color@),
{
    let c = chars_of(color);
    let esc = vec!['\u{1b}', '['];
    let nul = vec!['\0', '3', '3', '['];
    assert(esc@ =~= esc_prefix());
    assert(nul@ =~= nul_prefix());
    has_prefix(&c, &esc) || has_prefix(&c, &nul)
}

impl Default for ShellColor {
    /// The standard table, as `ShellColor::new`.
    fn default() -> (s: Self)
        ensures
            s@ == standard_colors(),
    {
        Self::new()
    }
}


/// A non-empty colour changes the text exactly when it is accepted:
/// `wrap_in_color` leaves text unchanged for a colour that
/// `is_valid_color` rejects, and adds a colour sequence before it and the
/// reset sequence after it for one that it accepts.
pub proof fn lemma_wrap_changes_iff_valid(colors: Map<Seq<char>, u8>, text: Seq<char>, color: Seq<char>)
    requires
        color.len() > 0,
    ensures
        (wrapped(colors, text, color) == text) <==> !valid_color(colors, color),
        valid_color(colors, color) ==> wrapped(colors, text, color) == color_sequence(colors, color).unwrap() + text + reset_seq(),
{
    if valid_color(colors, color) {
        let ansi = color_sequence(colors, color).unwrap();
        assert(wrapped(colors, text, color).len() == ansi.len() + text.len() + 4);
    }
}

/// Wrapping in the empty colour leaves any text unchanged.
pub proof fn lemma_wrap_empty_color(colors: Map<Seq<char>, u8>, text: Seq<char>)
    ensures
        wrapped(colors, text, Seq::empty()) == text,
{
}


/// No standard colour name is empty.
proof fn lemma_standard_names_not_empty()
    ensures
        !standard_colors().contains_key(Seq::empty()),
{
    reveal_strlit("reset");
    reveal_strlit("black");
    reveal_strlit("red");
    reveal_strlit("green");
    reveal_strlit("yellow");
    reveal_strlit("blue");
    reveal_strlit("magenta");
    reveal_strlit("cyan");
    reveal_strlit("white");
    let e = Seq::<char>::empty();
    assert("reset"@.len() == 5 && "black"@.len() == 5 && "red"@.len() == 3);
    assert("green"@.len() == 5 && "yellow"@.len() == 6 && "blue"@.len() == 4);
    assert("magenta"@.len() == 7 && "cyan"@.len() == 4 && "white"@.len() == 5);
    assert(e != "reset"@ && e != "black"@ && e != "red"@ && e != "green"@ && e != "yellow"@);
    assert(e != "blue"@ && e != "magenta"@ && e != "cyan"@ && e != "white"@);
}

/// With the standard colours, wrapping changes the text exactly when the
/// colour is accepted; the empty colour and unknown names leave it as it is.
pub proof fn lemma_standard_wrap_changes_iff_valid(text: Seq<char>, color: Seq<char>)
    ensures
        (wrapped(standard_colors(), text, color) == text) <==> !valid_color(standard_colors(), color),
{
    if color.len() > 0 {
        lemma_wrap_changes_iff_valid(standard_colors(), text, color);
    } else {
        lemma_standard_names_not_empty();
        assert(color =~= Seq::<char>::empty());
        assert(!esc_prefix().is_prefix_of(color));
        assert(!nul_prefix().is_prefix_of(color));
    }
}


/// The position of a colour in the ANSI order black, red, green, yellow,
/// blue, magenta, cyan, white (its SGR foreground code is 30 plus this).
pub open spec fn ansi_index(c: TerminalColor) -> u8 {
    match c {
        TerminalColor::Black => 0,
        TerminalColor::Red => 1,
        TerminalColor::Green => 2,
        TerminalColor::Yellow => 3,
        TerminalColor::Blue => 4,
        TerminalColor::Magenta => 5,
        TerminalColor::Cyan => 6,
        TerminalColor::White => 7,
    }
}

/// The standard table gives each colour name its ANSI foreground code:
/// a name of one of the eight colours maps to 30 plus the colour's place
/// in the ANSI order, `reset` maps to 0, and no other name is in it.
pub proof fn lemma_standard_codes(name: Seq<char>)
    ensures
        terminal_color_named(name) matches Some(c) ==> standard_colors().contains_key(name)
            && standard_colors()[name] == 30 + ansi_index(c),
        name == "reset"@ ==> standard_colors().contains_key(name) && standard_colors()[name] == 0,
        standard_colors().contains_key(name) <==> (name == "reset"@ || terminal_color_named(name) is Some),
{
    reveal_strlit("reset");
    reveal_strlit("black");
    reveal_strlit("red");
    reveal_strlit("green");
    reveal_strlit("yellow");
    reveal_strlit("blue");
    reveal_strlit("magenta");
    reveal_strlit("cyan");
    reveal_strlit("white");
    assert("reset"@[0] == 'r' && "black"@[0] == 'b' && "green"@[0] == 'g' && "white"@[0] == 'w');
    assert("red"@.len() == 3 && "reset"@.len() == 5 && "black"@.len() == 5);
    assert("green"@.len() == 5 && "yellow"@.len() == 6 && "blue"@.len() == 4);
    assert("magenta"@.len() == 7 && "cyan"@.len() == 4 && "white"@.len() == 5);
    assert("blue"@[0] == 'b' && "cyan"@[0] == 'c');
    assert("reset"@ != "black"@);
    assert("red"@ != "reset"@ && "red"@ != "black"@);
    assert("green"@ != "reset"@ && "green"@ != "black"@ && "green"@ != "red"@);
    assert("yellow"@ != "reset"@ && "yellow"@ != "black"@ && "yellow"@ != "red"@ && "yellow"@ != "green"@);
    assert("blue"@ != "reset"@ && "blue"@ != "black"@ && "blue"@ != "red"@ && "blue"@ != "green"@ && "blue"@ != "yellow"@);
    assert("magenta"@ != "reset"@ && "magenta"@ != "black"@ && "magenta"@ != "red"@ && "magenta"@ != "green"@
        && "magenta"@ != "yellow"@ && "magenta"@ != "blue"@);
    assert("cyan"@ != "reset"@ && "cyan"@ != "black"@ && "cyan"@ != "red"@ && "cyan"@ != "green"@
        && "cyan"@ != "yellow"@ && "cyan"@ != "blue"@ && "cyan"@ != "magenta"@);
    assert("white"@ != "reset"@ && "white"@ != "black"@ && "white"@ != "red"@ && "white"@ != "green"@
        && "white"@ != "yellow"@ && "white"@ != "blue"@ && "white"@ != "magenta"@ && "white"@ != "cyan"@);
}

} // verus!
