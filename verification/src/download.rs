//! The decisions of a download run: where each file goes, what to do with
//! a file that is already there, the resume request, the progress bar, and
//! the walk through the list of URLs.
use vstd::prelude::*;
use vstd::utf8::{encode_scalar, encode_utf8, is_ascii_chars, is_ascii_chars_encode_utf8};
use reqwest::header::HeaderMap;
use vstd::string::StringSliceAdditionalSpecFns;
use crate::color::{ShellColor, wrapped};
use crate::text::{chars_of, decimal, digit_char, push_char, push_decimal, push_repeated, repeated, string_of_range};
use crate::outside::{
    compile_regex, expand_tilde, header_value_byte, header_values, no_headers, insert_header, new_header_map, parse_header_value,
    regex_compiles, regex_finds_match, regex_is_match, ascii_lower, home_text, tilde_expanded,
};

verus! {

/// Index just past the last `/` in `s`, or 0 when it has none.
pub open spec fn segment_start(s: Seq<char>) -> nat
    decreases s.len(),
{
    if s.len() == 0 {
        0
    } else if s.last() == '/' {
        s.len()
    } else {
        segment_start(s.drop_last())
    }
}

/// Index of the first `?` in `s`, or its length when it has none.
pub open spec fn query_start(s: Seq<char>) -> nat
    decreases s.len(),
{
    if s.len() == 0 {
        0
    } else if s[0] == '?' {
        0
    } else {
        query_start(s.drop_first()) + 1
    }
}

/// The file name a URL names: the text after its last `/`, up to the first
/// `?` in it.
pub open spec fn url_name(url: Seq<char>) -> Seq<char> {
    let seg = url.skip(segment_start(url) as int);
    seg.take(query_start(seg) as int)
}

/// `segment_start` is just past the last `/` of `s`: no `/` follows it.
pub proof fn lemma_segment_start(s: Seq<char>)
    ensures
        segment_start(s) <= s.len(),
        segment_start(s) > 0 ==> s[segment_start(s) - 1] == '/',
        forall|j: int| segment_start(s) <= j < s.len() ==> s[j] != '/',
    decreases s.len(),
{
    if s.len() > 0 && s.last() != '/' {
        lemma_segment_start(s.drop_last());
        assert forall|j: int| segment_start(s) <= j < s.len() implies s[j] != '/' by {
            if j < s.len() - 1 {
                assert(s[j] == s.drop_last()[j]);
            }
        }
    }
}

/// `query_start` is the first `?` of `s`: none comes before it.
pub proof fn lemma_query_start(s: Seq<char>)
    ensures
        query_start(s) <= s.len(),
        query_start(s) < s.len() ==> s[query_start(s) as int] == '?',
        forall|j: int| 0 <= j < query_start(s) ==> s[j] != '?',
    decreases s.len(),
{
    if s.len() > 0 && s[0] != '?' {
        lemma_query_start(s.drop_first());
        assert forall|j: int| 0 <= j < query_start(s) implies s[j] != '?' by {
            if j > 0 {
                assert(s[j] == s.drop_first()[j - 1]);
            }
        }
    }
}

/// The icon to draw with: `icon` itself when its UTF-8 encoding is shorter
/// than two bytes, else `default`.
pub open spec fn icon_or(icon: Seq<char>, default: Seq<char>) -> Seq<char> {
    if encode_utf8(icon).len() < 2 {
        icon
    } else {
        default
    }
}

/// The left and right border characters given by `icon`: its first two
/// characters, its only character twice, or `|` twice when it is empty.
pub open spec fn border_chars(icon: Seq<char>) -> (char, char) {
    if icon.len() >= 2 {
        (icon[0], icon[1])
    } else if icon.len() == 1 {
        (icon[0], icon[0])
    } else {
        ('|', '|')
    }
}

/// The view of an optional string.
pub open spec fn opt_view(s: Option<String>) -> Option<Seq<char>> {
    match s {
        Some(t) => Some(t@),
        None => None,
    }
}

/// What a `Download` holds.
pub struct DownloadModel {
    pub url: Seq<char>,
    pub des: Option<Seq<char>>,
    pub passed_dir: Option<Seq<char>>,
    pub overwrite: bool,
    pub continue_download: bool,
    pub echo: bool,
    pub quiet: bool,
    pub batch: bool,
    pub done_icon: Seq<char>,
    pub left_icon: Seq<char>,
    pub current_icon: Seq<char>,
    pub border_left: char,
    pub border_right: char,
    pub color_done: Seq<char>,
    pub color_left: Seq<char>,
    pub color_current: Seq<char>,
    pub colors: Map<Seq<char>, u8>,
    pub f_size: Option<u64>,
    pub destination: Seq<char>,
    pub queue: Seq<Seq<char>>,
    pub next: int,
}

/// One download job (or a batch of them) with its options.
pub struct Download {
    url: String,
    des: Option<String>,
    passed_dir: Option<String>,
    overwrite: bool,
    continue_download: bool,
    echo: bool,
    quiet: bool,
    batch: bool,
    done_icon: String,
    left_icon: String,
    current_icon: String,
    border_left: char,
    border_right: char,
    color_done: String,
    color_left: String,
    color_current: String,
    color_engine: ShellColor,
    f_size: Option<u64>,
    destination: String,
    queue: Vec<String>,
    next: usize,
}

impl View for Download {
    type V = DownloadModel;

    closed spec fn view(&self) -> DownloadModel {
        DownloadModel {
            url: self.url@,
            des: opt_view(self.des),
            passed_dir: opt_view(self.passed_dir),
            overwrite: self.overwrite,
            continue_download: self.continue_download,
            echo: self.echo,
            quiet: self.quiet,
            batch: self.batch,
            done_icon: self.done_icon@,
            left_icon: self.left_icon@,
            current_icon: self.current_icon@,
            border_left: self.border_left,
            border_right: self.border_right,
            color_done: self.color_done@,
            color_left: self.color_left@,
            color_current: self.color_current@,
            colors: self.color_engine@,
            f_size: self.f_size,
            destination: self.destination@,
            queue: self.queue@.map_values(|u: String| u@),
            next: self.next as int,
        }
    }
}

proof fn lemma_encode_len(s: Seq<char>)
    ensures
        encode_utf8(s).len() >= s.len(),
    decreases s.len(),
{
    if s.len() > 0 {
        lemma_encode_len(s.drop_first());
    }
}

/// Whether the UTF-8 encoding of `icon` is shorter than two bytes.
fn is_short_icon(icon: &str) -> (b: bool)
    ensures
        b == (encode_utf8(icon@).len() < 2),
{
    let c = chars_of(icon);
    proof {
        lemma_encode_len(icon@);
    }
    if c.len() == 0 {
        true
    } else if c.len() == 1 {
        assert(icon@.drop_first() =~= Seq::<char>::empty());
        assert(encode_utf8(icon@) == encode_scalar(icon@[0] as u32) + encode_utf8(icon@.drop_first()));
        (c[0] as u32) < 0x80
    } else {
        false
    }
}

/// `icon` when its UTF-8 encoding is shorter than two bytes, else `default`.
fn pick_icon(icon: String, default: &str) -> (r: String)
    ensures
        r@ == icon_or(icon@, default@),
{
    if is_short_icon(icon.as_str()) {
        icon
    } else {
        String::from_str(default)
    }
}

impl Download {
    /// A download of `url` to `des` (a file, or an existing directory),
    /// with the given options. An icon whose UTF-8 encoding has two bytes
    /// or more is replaced by the default block (`▓` done and current,
    /// `░` left); the border characters come from `icon_border`. No
    /// destination is chosen yet and no size is known.
    pub fn new(
        url: String,
        des: Option<String>,
        overwrite: bool,
        continue_download: bool,
        echo: bool,
        quiet: bool,
        batch: bool,
        done_icon: String,
        left_icon: String,
        current_icon: String,
        icon_border: String,
        color_done: String,
        color_left: String,
        color_current: String,
        color_engine: ShellColor,
    ) -> (d: Self)
        ensures
            d@ == (DownloadModel {
                url: url@,
                des: opt_view(des),
                passed_dir: None,
                overwrite,
                continue_download,
                echo,
                quiet,
                batch,
                done_icon: icon_or(done_icon@, "▓"@),
                left_icon: icon_or(left_icon@, "░"@),
                current_icon: icon_or(current_icon@, "▓"@),
                border_left: border_chars(icon_border@).0,
                border_right: border_chars(icon_border@).1,
                color_done: color_done@,
                color_left: color_left@,
                color_current: color_current@,
                colors: color_engine@,
                f_size: None,
                destination: Seq::empty(),
                queue: Seq::empty(),
                next: 0,
            }),
    {
        let (border_left, border_right) = Self::extract_border_icon(icon_border.as_str());
        let done_icon = pick_icon(done_icon, "▓");
        let left_icon = pick_icon(left_icon, "░");
        let current_icon = pick_icon(current_icon, "▓");
        let d = Download {
            url,
            des,
            passed_dir: None,
            overwrite,
            continue_download,
            echo,
            quiet,
            batch,
            done_icon,
            left_icon,
            current_icon,
            border_left,
            border_right,
            color_done,
            color_left,
            color_current,
            color_engine,
            f_size: None,
            destination: String::new(),
            queue: Vec::new(),
            next: 0,
        };
        assert(d@.queue =~= Seq::<Seq<char>>::empty());
        d
    }

    /// The left and right border characters given by `passed_icon`.
    pub fn extract_border_icon(passed_icon: &str) -> (r: (char, char))
        ensures
            r == border_chars(passed_icon@),
    {
        let c = chars_of(passed_icon);
        if c.len() >= 2 {
            (c[0], c[1])
        } else if c.len() == 1 {
            (c[0], c[0])
        } else {
            ('|', '|')
        }
    }

    /// The file name the current URL names: the text after its last `/`,
    /// up to the first `?` in it.
    pub fn get_name(&self) -> (name: String)
        ensures
            name@ == url_name(self@.url),
    {
        let c = chars_of(self.url.as_str());
        let mut start = c.len();
        assert(c@.take(start as int) =~= c@);
        while start > 0 && c[start - 1] != '/'
            invariant
                start <= c.len(),
                segment_start(c@) == segment_start(c@.take(start as int)),
            decreases start,
        {
            assert(c@.take(start as int).drop_last() =~= c@.take(start - 1));
            start -= 1;
        }
        let ghost seg = c@.skip(start as int);
        assert(segment_start(c@) == start) by {
            if start > 0 {
                assert(c@.take(start as int).last() == '/');
            }
        }
        let mut end = start;
        assert(seg.skip(0) =~= seg);
        while end < c.len() && c[end] != '?'
            invariant
                start <= end <= c.len(),
                seg == c@.skip(start as int),
                query_start(seg) == (end - start) + query_start(seg.skip(end - start)),
            decreases c.len() - end,
        {
            let ghost k = end - start;
            assert(seg.skip(k).drop_first() =~= seg.skip(k + 1));
            assert(seg.skip(k)[0] == c@[end as int]);
            end += 1;
        }
        assert(query_start(seg.skip(end - start)) == 0);
        assert(seg.take(end - start) =~= c@.subrange(start as int, end as int));
        string_of_range(&c, start, end)
    }

    /// The URL being fetched.
    pub fn get_url(&self) -> (u: &str)
        ensures
            u@ == self@.url,
    {
        self.url.as_str()
    }

    /// The destination asked for (a file or a directory), if any.
    pub fn requested_destination(&self) -> (d: Option<&str>)
        ensures
            d matches Some(p) ==> self@.des == Some(p@),
            d is None ==> self@.des is None,
    {
        match &self.des {
            Some(p) => Some(p.as_str()),
            None => None,
        }
    }

    /// Where the current file is saved.
    pub fn get_destination(&self) -> (d: &str)
        ensures
            d@ == self@.destination,
    {
        self.destination.as_str()
    }
}


/// `name` appended to the directory `dir`, as `Path::join` does it on Unix:
/// an absolute `name` replaces `dir`; otherwise a `/` goes between them
/// unless `dir` is empty or already ends with one.
pub open spec fn path_join(dir: Seq<char>, name: Seq<char>) -> Seq<char> {
    if name.len() > 0 && name[0] == '/' {
        name
    } else if dir.len() > 0 && dir.last() != '/' {
        dir + seq!['/'] + name
    } else {
        dir + name
    }
}

/// `name` appended to the directory `dir`.
pub fn join_path(dir: &str, name: &str) -> (p: String)
    ensures
        p@ == path_join(dir@, name@),
{
    let n = chars_of(name);
    if n.len() > 0 && n[0] == '/' {
        return String::from_str(name);
    }
    let d = chars_of(dir);
    let mut p = String::from_str(dir);
    if d.len() > 0 && d[d.len() - 1] != '/' {
        push_char(&mut p, '/');
    }
    p.append(name);
    p
}

/// The state after choosing where the current file goes, given whether the
/// requested destination is an existing directory: into that directory
/// under the URL's file name (remembering the directory), to the requested
/// path itself, or, with no destination requested, to the URL's file name.
pub open spec fn destination_chosen(v: DownloadModel, des_is_dir: bool) -> DownloadModel {
    match v.des {
        Some(d) => if des_is_dir {
            DownloadModel { passed_dir: Some(d), destination: path_join(d, url_name(v.url)), ..v }
        } else {
            DownloadModel { destination: d, ..v }
        },
        None => DownloadModel { destination: url_name(v.url), ..v },
    }
}

/// What to do when the destination file already exists.
#[derive(Clone, Copy, Debug, PartialEq, Eq, Structural)]
pub enum ExistingFile {
    /// Overwriting was asked for.
    Overwrite,
    /// Resuming: the local file is shorter than the remote one.
    Resume,
    /// Resuming without a size check: the server gave no length (a warning
    /// is due).
    ResumeUnchecked,
    /// Refused: the file exists and may not be touched.
    Refuse,
}

/// The decision for an existing destination. `probe` is the local size and
/// the remote length, or `None` when either could not be had.
pub open spec fn existing_file_decision(v: DownloadModel, probe: Option<(u64, Option<u64>)>) -> ExistingFile {
    if v.overwrite {
        ExistingFile::Overwrite
    } else if v.continue_download {
        match probe {
            Some((local, Some(remote))) => if local < remote {
                ExistingFile::Resume
            } else {
                ExistingFile::Refuse
            },
            Some((_, None)) => ExistingFile::ResumeUnchecked,
            None => ExistingFile::Refuse,
        }
    } else {
        ExistingFile::Refuse
    }
}

/// The value of the `Range` header that asks for everything from byte
/// `resume` on: `bytes=<resume>-`.
pub open spec fn range_value(resume: nat) -> Seq<char> {
    seq!['b', 'y', 't', 'e', 's', '='] + decimal(resume) + seq!['-']
}

proof fn lemma_decimal_digits(n: nat)
    ensures
        forall|i: int| 0 <= i < decimal(n).len() ==> '0' <= #[trigger] decimal(n)[i] <= '9',
    decreases n,
{
    let last = digit_char(n % 10);
    assert('0' <= last <= '9');
    if n >= 10 {
        lemma_decimal_digits(n / 10);
        let d = decimal(n);
        assert forall|i: int| 0 <= i < d.len() implies '0' <= #[trigger] d[i] <= '9' by {
            if i < d.len() - 1 {
                assert(d[i] == decimal(n / 10)[i]);
            }
        }
    }
}

proof fn lemma_range_value_printable(n: nat)
    ensures
        forall|i: int| 0 <= i < range_value(n).len() ==> ' ' <= #[trigger] range_value(n)[i] <= '~',
{
    lemma_decimal_digits(n);
    let d = decimal(n);
    assert forall|i: int| 0 <= i < range_value(n).len() implies ' ' <= #[trigger] range_value(n)[i] <= '~' by {
        if 6 <= i < 6 + d.len() {
            assert(range_value(n)[i] == d[i - 6]);
        }
    }
}

/// The line announcing where the file goes: in quiet mode the bare
/// destination (the run then ends it with `...success`).
pub open spec fn destination_line(v: DownloadModel, file_exists: bool) -> Seq<char> {
    if v.quiet {
        v.destination
    } else if file_exists && v.overwrite {
        "Overwriting: "@ + v.destination
    } else {
        "Saving as: "@ + v.destination
    }
}

/// The width of the bar for a terminal `term_width` columns wide: what is
/// left after 50 columns, at most 40.
pub open spec fn bar_width(term_width: nat) -> nat {
    let rest: nat = if term_width >= 50 { (term_width - 50) as nat } else { 0 };
    if rest < 40 { rest } else { 40 }
}

/// `done` capped at `width`.
pub open spec fn capped(done: nat, width: nat) -> nat {
    if done < width { done } else { width }
}

/// The bar `width` icons wide with `done` of them done (at most `width`):
/// `|`, the left border, the done icons, the current icon at the current
/// position unless the bar is full, the left icons filling the rest (each
/// run coloured with its colour), `|`, a space and the right border.
pub open spec fn bar_text(v: DownloadModel, done: nat, width: nat) -> Seq<char> {
    let d = capped(done, width);
    let current = if d < width { wrapped(v.colors, v.current_icon, v.color_current) } else { Seq::empty() };
    let left: nat = if d < width { (width - d - 1) as nat } else { 0 };
    seq!['|', v.border_left]
        + wrapped(v.colors, repeated(v.done_icon, d), v.color_done)
        + current
        + wrapped(v.colors, repeated(v.left_icon, left), v.color_left)
        + seq!['|', ' ', v.border_right]
}

/// How many of `width` icons stand for `downloaded` bytes of `size`:
/// `downloaded * width / size` rounded down, at most `width`; a full bar
/// when the size is 0.
pub open spec fn bar_fill(downloaded: nat, size: nat, width: nat) -> nat {
    if size == 0 {
        width
    } else {
        capped(downloaded * width / size, width)
    }
}

/// The bytes still to come: `size - downloaded`, and 0 once more than
/// `size` bytes came.
pub open spec fn bytes_left(size: nat, downloaded: nat) -> nat {
    if downloaded <= size { (size - downloaded) as nat } else { 0 }
}

/// Where the list of URLs comes from.
#[derive(Debug)]
pub enum UrlSource {
    /// The URL given is itself the one to fetch.
    Single(String),
    /// The URL given is no URL and batch mode is off.
    NotAUrl,
    /// The URL given names a file (path already expanded) listing the URLs.
    BatchFile(String),
}

/// The pattern a URL must match: `^https?://|^file://`.
pub open spec fn url_pattern() -> Seq<char> {
    "^https?://|^file://"@
}

/// Whether `url` is taken as a URL: the pattern compiles and matches it.
pub open spec fn is_url(url: Seq<char>) -> bool {
    regex_compiles(url_pattern()) && regex_finds_match(url_pattern(), url)
}

/// Whether `r` says where the URLs of `v` come from, with `home` as the
/// home directory: the URL itself when it is one; no URL when it is not and
/// batch mode is off; else the file it names, `~` expanded to `home`.
pub open spec fn url_source_of(v: DownloadModel, home: Seq<char>, r: UrlSource) -> bool {
    &&& is_url(v.url) ==> (r matches UrlSource::Single(u) && u@ == v.url)
    &&& !is_url(v.url) && !v.batch ==> r is NotAUrl
    &&& !is_url(v.url) && v.batch ==> (r matches UrlSource::BatchFile(p) && p@ == tilde_expanded(v.url, home))
}

/// The index of the first newline in `s`, or its length when it has none.
pub open spec fn newline_index(s: Seq<char>) -> nat
    decreases s.len(),
{
    if s.len() == 0 {
        0
    } else if s[0] == '\n' {
        0
    } else {
        newline_index(s.drop_first()) + 1
    }
}

pub proof fn lemma_newline_index(s: Seq<char>)
    ensures
        newline_index(s) <= s.len(),
        newline_index(s) < s.len() ==> s[newline_index(s) as int] == '\n',
        forall|j: int| 0 <= j < newline_index(s) ==> s[j] != '\n',
    decreases s.len(),
{
    if s.len() > 0 && s[0] != '\n' {
        lemma_newline_index(s.drop_first());
        assert forall|j: int| 0 <= j < newline_index(s) implies s[j] != '\n' by {
            if j > 0 {
                assert(s[j] == s.drop_first()[j - 1]);
            }
        }
    }
}

proof fn lemma_newline_index_at(s: Seq<char>, k: nat)
    requires
        k <= s.len(),
        k < s.len() ==> s[k as int] == '\n',
        forall|j: int| 0 <= j < k ==> s[j] != '\n',
    ensures
        newline_index(s) == k,
    decreases s.len(),
{
    if s.len() > 0 && s[0] != '\n' {
        assert forall|j: int| 0 <= j < k - 1 implies s.drop_first()[j] != '\n' by {
            assert(s.drop_first()[j] == s[j + 1]);
        }
        lemma_newline_index_at(s.drop_first(), (k - 1) as nat);
    }
}

/// A line without the `\r` that ends it, if one does.
pub open spec fn without_cr(line: Seq<char>) -> Seq<char> {
    if line.len() > 0 && line.last() == '\r' {
        line.drop_last()
    } else {
        line
    }
}

/// The lines of `s`, as `str::lines` gives them: split at each `\n`, a
/// `\r` right before it dropped, no empty line after a final `\n`.
pub open spec fn lines_of(s: Seq<char>) -> Seq<Seq<char>>
    decreases s.len(),
{
    if s.len() == 0 {
        Seq::empty()
    } else {
        let i = newline_index(s);
        proof {
            lemma_newline_index(s);
        }
        if i < s.len() {
            seq![without_cr(s.take(i as int))] + lines_of(s.skip(i + 1 as int))
        } else {
            seq![s]
        }
    }
}

/// The text of each of `lines`.
pub open spec fn line_views(lines: Seq<String>) -> Seq<Seq<char>> {
    lines.map_values(|l: String| l@)
}

/// The lines of `content`, each as a `String`, as `str::lines` splits it.
pub fn split_lines(content: &str) -> (lines: Vec<String>)
    ensures
        lines@.map_values(|l: String| l@) == lines_of(content@),
        exists|ends: Seq<Seq<char>>| fit_endings(line_views(lines@), ends)
            && #[trigger] joined(line_views(lines@), ends) == content@,
{
    let c = chars_of(content);
    let mut lines: Vec<String> = Vec::new();
    let mut pos: usize = 0;
    assert(c@.skip(0) =~= c@);
    while pos < c.len()
        invariant
            pos <= c.len(),
            c@ == content@,
            lines_of(c@) == lines@.map_values(|l: String| l@) + lines_of(c@.skip(pos as int)),
        decreases c.len() - pos,
    {
        let ghost rest = c@.skip(pos as int);
        let mut end = pos;
        while end < c.len() && c[end] != '\n'
            invariant
                pos <= end <= c.len(),
                forall|j: int| pos <= j < end ==> c@[j] != '\n',
            decreases c.len() - end,
        {
            end += 1;
        }
        proof {
            assert forall|j: int| 0 <= j < end - pos implies rest[j] != '\n' by {
                assert(rest[j] == c@[pos + j]);
            }
            if end < c.len() {
                assert(rest[end - pos] == c@[end as int]);
            }
            lemma_newline_index_at(rest, (end - pos) as nat);
        }
        let ghost before = lines@.map_values(|l: String| l@);
        if end < c.len() {
            let stop = if end > pos && c[end - 1] == '\r' { end - 1 } else { end };
            let line = string_of_range(&c, pos, stop);
            assert(rest.take(end - pos) =~= c@.subrange(pos as int, end as int));
            assert(line@ == without_cr(rest.take(end - pos)));
            lines.push(line);
            assert(lines@.map_values(|l: String| l@) =~= before.push(without_cr(rest.take(end - pos))));
            assert(rest.skip(end - pos + 1) =~= c@.skip(end + 1));
            assert(lines_of(rest) == seq![without_cr(rest.take(end - pos))] + lines_of(rest.skip(end - pos + 1)));
            pos = end + 1;
            assert(lines_of(c@) == lines@.map_values(|l: String| l@) + lines_of(c@.skip(pos as int)));
        } else {
            let line = string_of_range(&c, pos, end);
            assert(rest =~= c@.subrange(pos as int, end as int));
            lines.push(line);
            assert(lines@.map_values(|l: String| l@) =~= before.push(rest));
            assert(lines_of(rest) == seq![rest]);
            pos = end;
            assert(c@.skip(pos as int) =~= Seq::<char>::empty());
            assert(lines_of(c@) == lines@.map_values(|l: String| l@) + lines_of(c@.skip(pos as int)));
        }
    }
    assert(c@.skip(pos as int) =~= Seq::<char>::empty());
    assert(lines@.map_values(|l: String| l@) + Seq::<Seq<char>>::empty() =~= lines@.map_values(|l: String| l@));
    proof {
        lemma_lines_rebuild_input(content@);
        assert(line_views(lines@) == lines_of(content@));
    }
    lines
}

impl Download {
    /// Whether the current URL is taken as a URL.
    fn is_valid_url(&self) -> (b: bool)
        ensures
            b == is_url(self@.url),
    {
        match compile_regex("^https?://|^file://") {
            Some(re) => regex_is_match(&re, self.url.as_str()),
            None => false,
        }
    }

    /// Where the URLs come from, given whether the URL given is a URL and
    /// the expanded path of the file it would name: that URL alone; no
    /// URL at all when batch mode is off; else the file at `batch_path`.
    pub fn url_source(&self, url_is_valid: bool, batch_path: String) -> (r: UrlSource)
        ensures
            url_is_valid ==> (r matches UrlSource::Single(u) && u@ == self@.url),
            !url_is_valid && !self@.batch ==> r is NotAUrl,
            !url_is_valid && self@.batch ==> (r matches UrlSource::BatchFile(p) && p@ == batch_path@),
    {
        if url_is_valid {
            UrlSource::Single(self.url.clone())
        } else if !self.batch {
            UrlSource::NotAUrl
        } else {
            UrlSource::BatchFile(batch_path)
        }
    }

    /// Where the URLs come from, with `home` as the home directory: the URL
    /// itself when it matches `^https?://|^file://`; no URL when it does not
    /// and batch mode is off; else the file it names, with a leading `~`
    /// (alone or before `/`) replaced by `home`.
    pub fn parse_url(&self, home: &str) -> (r: UrlSource)
        ensures
            url_source_of(self@, home@, r),
    {
        proof {
            reveal_strlit("^https?://|^file://");
        }
        let valid = self.is_valid_url();
        if !valid && self.batch {
            let path = expand_tilde(self.url.as_str(), home);
            self.url_source(false, path)
        } else {
            self.url_source(valid, String::new())
        }
    }

    /// Where the URLs come from, with the home directory of this
    /// environment (or `~` itself when none is known), which is returned
    /// beside the answer.
    pub fn find_urls(&self) -> (r: (UrlSource, String))
        ensures
            url_source_of(self@, r.1@, r.0),
    {
        let home = home_text();
        let source = self.parse_url(home.as_str());
        (source, home)
    }

    /// Chooses where the current file goes, given whether the requested
    /// destination is an existing directory.
    pub fn parse_destination(&mut self, des_is_dir: bool)
        ensures
            final(self)@ == destination_chosen(old(self)@, des_is_dir),
    {
        let des = match &self.des {
            Some(d) => Some(d.clone()),
            None => None,
        };
        match des {
            Some(d) => {
                if des_is_dir {
                    let name = self.get_name();
                    self.destination = join_path(d.as_str(), name.as_str());
                    self.passed_dir = Some(d);
                } else {
                    self.destination = d;
                }
            },
            None => {
                self.destination = self.get_name();
            },
        }
    }

    /// Whether checking a partial file needs its local size and the remote
    /// length: only when resuming and not overwriting.
    pub fn needs_size_probe(&self) -> (b: bool)
        ensures
            b == (!self@.overwrite && self@.continue_download),
    {
        !self.overwrite && self.continue_download
    }

    /// What to do with a destination file that already exists, given the
    /// local size and the remote length (or `None` when either could not be
    /// had): overwrite when asked; when resuming, resume if the local file
    /// is shorter or the remote length is unknown; refuse otherwise.
    pub fn parse_exists(&self, probe: Option<(u64, Option<u64>)>) -> (r: ExistingFile)
        ensures
            r == existing_file_decision(self@, probe),
            self@.continue_download && !self@.overwrite ==> (probe matches Some((local, Some(remote))) ==> (
                (r == ExistingFile::Resume) == (local < remote)
                && (r == ExistingFile::Refuse) == (local >= remote))),
    {
        if self.overwrite {
            ExistingFile::Overwrite
        } else if self.continue_download {
            match probe {
                Some((local, Some(remote))) => if local < remote {
                    ExistingFile::Resume
                } else {
                    ExistingFile::Refuse
                },
                Some((_, None)) => ExistingFile::ResumeUnchecked,
                None => ExistingFile::Refuse,
            }
        } else {
            ExistingFile::Refuse
        }
    }

    /// The text `bytes=<resume>-`.
    fn range_text(resume: u64) -> (v: String)
        ensures
            v@ == range_value(resume as nat),
    {
        proof {
            reveal_strlit("bytes=");
        }
        let mut v = String::from_str("bytes=");
        push_decimal(&mut v, resume);
        push_char(&mut v, '-');
        v
    }

    /// The request headers asking for the rest of a file from byte `resume`
    /// on: the single header `range: bytes=<resume>-`.
    pub fn build_headers(resume: u64) -> (h: HeaderMap)
        ensures
            header_values(h) == no_headers().insert(
                seq!['r', 'a', 'n', 'g', 'e'],
                seq![encode_utf8(range_value(resume as nat))],
            ),
    {
        let text = Self::range_text(resume);
        let ghost chars = range_value(resume as nat);
        proof {
            lemma_range_value_printable(resume as nat);
            assert(is_ascii_chars(chars));
            is_ascii_chars_encode_utf8(chars);
            assert forall|i: int| 0 <= i < encode_utf8(chars).len() implies header_value_byte(#[trigger] encode_utf8(chars)[i]) by {
                assert(encode_utf8(chars)[i] == chars[i] as u8);
            }
        }
        let text_str = text.as_str();
        assert(text_str.spec_bytes() == encode_utf8(chars));
        let value = parse_header_value(text_str).unwrap();
        let mut h = new_header_map();
        proof {
            reveal_strlit("Range");
            assert("Range"@ =~= seq!['R', 'a', 'n', 'g', 'e']);
            assert("Range"@.map_values(|c: char| ascii_lower(c)) =~= seq!['r', 'a', 'n', 'g', 'e']);
        }
        insert_header(&mut h, "Range", value);
        h
    }

    /// The byte offset to resume from: the local size, when resuming and
    /// the destination exists and its size could be read.
    pub fn resume_offset(&self, dest_exists: bool, local_size: Option<u64>) -> (r: Option<u64>)
        ensures
            r == (if self@.continue_download && dest_exists { local_size } else { None::<u64> }),
    {
        if self.continue_download && dest_exists {
            local_size
        } else {
            None
        }
    }

    /// Records the length of the file being fetched, if the server gave it.
    pub fn set_file_size(&mut self, size: Option<u64>)
        ensures
            final(self)@ == (DownloadModel { f_size: size, ..old(self)@ }),
    {
        self.f_size = size;
    }

    /// The length of the file being fetched, if known.
    pub fn file_size(&self) -> (r: Option<u64>)
        ensures
            r == self@.f_size,
    {
        self.f_size
    }

    /// Whether output goes to an existing file by appending: when resuming
    /// and the file exists.
    pub fn appends(&self, file_exists: bool) -> (b: bool)
        ensures
            b == (self@.continue_download && file_exists),
    {
        self.continue_download && file_exists
    }

    /// Whether the file is cut to length 0 when opened: whenever it is not
    /// appended to, so that an overwritten file holds only the new download.
    pub fn truncates(&self, file_exists: bool) -> (b: bool)
        ensures
            b == !(self@.continue_download && file_exists),
    {
        !(self.continue_download && file_exists)
    }

    /// The line announcing where the file goes: in quiet mode the bare
    /// destination; otherwise `Overwriting: <dest>` when it exists and
    /// overwriting was asked for, else `Saving as: <dest>`.
    pub fn destination_message(&self, file_exists: bool) -> (m: String)
        ensures
            m@ == destination_line(self@, file_exists),
    {
        if self.quiet {
            return self.destination.clone();
        }
        let mut m = if file_exists && self.overwrite {
            String::from_str("Overwriting: ")
        } else {
            String::from_str("Saving as: ")
        };
        m.append(self.destination.as_str());
        m
    }

    /// Whether progress output is suppressed.
    pub fn is_quiet(&self) -> (b: bool)
        ensures
            b == self@.quiet,
    {
        self.quiet
    }

    /// The width of the progress bar for a terminal `term_width` columns
    /// wide: `min(40, term_width - 50)`, and 0 below 50 columns.
    pub fn bar_length(term_width: usize) -> (w: usize)
        ensures
            w == bar_width(term_width as nat),
    {
        let rest = term_width.saturating_sub(50);
        if rest < 40 { rest } else { 40 }
    }

    /// The progress bar `width` icons wide with `done` icons done (capped at
    /// `width`): the done icons, the current icon unless the bar is full,
    /// and the left icons, each run coloured, between the borders.
    pub fn progress_bar(&self, done: usize, width: usize) -> (bar: String)
        ensures
            bar@ == bar_text(self@, done as nat, width as nat),
    {
        let d = if done < width { done } else { width };
        let left = if d < width { width - d - 1 } else { 0 };
        let mut done_run = String::new();
        push_repeated(&mut done_run, self.done_icon.as_str(), d);
        let mut left_run = String::new();
        push_repeated(&mut left_run, self.left_icon.as_str(), left);
        let done_str = self.color_engine.wrap_in_color(done_run.as_str(), self.color_done.as_str());
        let left_str = self.color_engine.wrap_in_color(left_run.as_str(), self.color_left.as_str());
        let mut bar = String::new();
        push_char(&mut bar, '|');
        push_char(&mut bar, self.border_left);
        bar.append(done_str.as_str());
        if d < width {
            let current_str = self.color_engine.wrap_in_color(self.current_icon.as_str(), self.color_current.as_str());
            bar.append(current_str.as_str());
        }
        bar.append(left_str.as_str());
        push_char(&mut bar, '|');
        push_char(&mut bar, ' ');
        push_char(&mut bar, self.border_right);
        assert(bar@ =~= bar_text(self@, done as nat, width as nat));
        bar
    }

    /// How many of `width` bar icons stand for `downloaded` bytes of a file
    /// of `size` bytes: `downloaded * width / size` rounded down, never more
    /// than `width` (a full bar for size 0).
    pub fn bar_fill(downloaded: u64, size: u64, width: usize) -> (n: usize)
        ensures
            n == bar_fill(downloaded as nat, size as nat, width as nat),
            size > 0 && downloaded <= size ==> n * size <= downloaded * width < (n + 1) * size,
    {
        proof {
            if size > 0 && downloaded <= size {
                lemma_bar_fill_proportional(downloaded as nat, size as nat, width as nat);
            }
        }
        if size == 0 {
            return width;
        }
        let a = downloaded as u128;
        let b = width as u128;
        assert(a * b < 0x1_0000_0000_0000_0000_0000_0000_0000_0000) by (nonlinear_arith)
            requires
                a < 0x1_0000_0000_0000_0000,
                b < 0x1_0000_0000_0000_0000,
        ;
        let q = a * b / (size as u128);
        if q < b {
            q as usize
        } else {
            width
        }
    }

    /// The bytes of a file of `size` bytes still to come after `downloaded`
    /// bytes, and 0 once the server sent more than it announced.
    pub fn bytes_left(size: u64, downloaded: u64) -> (n: u64)
        ensures
            n == bytes_left(size as nat, downloaded as nat),
    {
        if downloaded <= size { size - downloaded } else { 0 }
    }
}


/// What the caller of `Download::download` reports.
#[derive(Debug)]
pub enum DownloadEvent {
    /// A run starts over these URLs.
    Begin(Vec<String>),
    /// The download of the current URL finished, successfully or not.
    Finished(bool),
}

/// What `Download::download` asks of its caller next.
#[derive(Clone, Copy, Debug, PartialEq, Eq, Structural)]
pub enum DownloadAction {
    /// Download the current URL (`Download::get_name`, `parse_destination`
    /// and so on speak of it), then report `Finished`.
    Fetch,
    /// The run is over; the flag says whether every download succeeded.
    Stop(bool),
}

/// The state and action after a run over `urls` begins: the first URL is
/// fetched, or, with no URL at all, the run ends in success.
pub open spec fn begin_step(v: DownloadModel, urls: Seq<Seq<char>>) -> (DownloadModel, DownloadAction) {
    if urls.len() == 0 {
        (DownloadModel { queue: urls, next: 0, ..v }, DownloadAction::Stop(true))
    } else {
        (DownloadModel { queue: urls, next: 1, url: urls[0], ..v }, DownloadAction::Fetch)
    }
}

/// The state and action after the current download finished with `ok`: a
/// failure ends the run in failure; a success puts back the directory the
/// last file was saved into (if any) as the destination, then fetches the
/// next URL, or ends the run in success when none is left.
pub open spec fn finish_step(v: DownloadModel, ok: bool) -> (DownloadModel, DownloadAction) {
    if !ok {
        (v, DownloadAction::Stop(false))
    } else {
        let w = DownloadModel { des: if v.passed_dir is Some { v.passed_dir } else { v.des }, ..v };
        if 0 <= v.next < v.queue.len() {
            (DownloadModel { url: v.queue[v.next], next: v.next + 1, ..w }, DownloadAction::Fetch)
        } else {
            (w, DownloadAction::Stop(true))
        }
    }
}

/// One fetch of a run: the destination is chosen (given whether the
/// requested destination is a directory), then the download reports `ok`.
pub open spec fn fetch_step(v: DownloadModel, des_is_dir: bool, ok: bool) -> (DownloadModel, DownloadAction) {
    finish_step(destination_chosen(v, des_is_dir), ok)
}

/// The outcomes reported by the fetches `steps`.
pub open spec fn outcomes(steps: Seq<(bool, bool)>) -> Seq<bool> {
    steps.map_values(|st: (bool, bool)| st.1)
}

/// The run after state `v` and action `a`, when each fetch asked for is
/// done as `fetch_step` with the next of `steps` (whether the destination
/// is a directory, whether the download succeeded): the final state and
/// action once `steps` is used up or the run stops.
pub open spec fn run(v: DownloadModel, a: DownloadAction, steps: Seq<(bool, bool)>) -> (DownloadModel, DownloadAction)
    decreases steps.len(),
{
    if a is Fetch && steps.len() > 0 {
        let (w, b) = fetch_step(v, steps[0].0, steps[0].1);
        run(w, b, steps.drop_first())
    } else {
        (v, a)
    }
}

/// Whether two states have the same options: flags, icons, borders and
/// colours.
pub open spec fn same_settings(a: DownloadModel, b: DownloadModel) -> bool {
    &&& a.overwrite == b.overwrite
    &&& a.continue_download == b.continue_download
    &&& a.echo == b.echo
    &&& a.quiet == b.quiet
    &&& a.batch == b.batch
    &&& a.done_icon == b.done_icon
    &&& a.left_icon == b.left_icon
    &&& a.current_icon == b.current_icon
    &&& a.border_left == b.border_left
    &&& a.border_right == b.border_right
    &&& a.color_done == b.color_done
    &&& a.color_left == b.color_left
    &&& a.color_current == b.color_current
    &&& a.colors == b.colors
}

/// The index, among `m` URLs, of the last one a run attempts when the
/// downloads report `oks`: the first that fails, or the last URL.
pub open spec fn last_attempt(oks: Seq<bool>, m: nat) -> nat
    decreases m,
{
    if m <= 1 || oks.len() == 0 || !oks[0] {
        0
    } else {
        1 + last_attempt(oks.drop_first(), (m - 1) as nat)
    }
}

impl Download {
    /// One step of a run over a list of URLs: `Begin(urls)` starts it,
    /// `Finished(ok)` reports the download asked for by the last `Fetch`.
    /// The run fetches the URLs in order and stops at the first failure;
    /// after each success the directory the file went into becomes the
    /// destination again.
    pub fn download(&mut self, event: DownloadEvent) -> (a: DownloadAction)
        ensures
            (final(self)@, a) == (match event {
                DownloadEvent::Begin(urls) => begin_step(old(self)@, urls@.map_values(|u: String| u@)),
                DownloadEvent::Finished(ok) => finish_step(old(self)@, ok),
            }),
    {
        match event {
            DownloadEvent::Begin(urls) => {
                self.queue = urls;
                if self.queue.len() == 0 {
                    self.next = 0;
                    DownloadAction::Stop(true)
                } else {
                    self.url = self.queue[0].clone();
                    self.next = 1;
                    DownloadAction::Fetch
                }
            },
            DownloadEvent::Finished(ok) => {
                if !ok {
                    return DownloadAction::Stop(false);
                }
                match &self.passed_dir {
                    Some(dir) => {
                        self.des = Some(dir.clone());
                    },
                    None => {},
                }
                if self.next < self.queue.len() {
                    self.url = self.queue[self.next].clone();
                    self.next = self.next + 1;
                    DownloadAction::Fetch
                } else {
                    DownloadAction::Stop(true)
                }
            },
        }
    }
}

proof fn lemma_outcomes_drop_first(steps: Seq<(bool, bool)>)
    requires
        steps.len() > 0,
    ensures
        outcomes(steps.drop_first()) == outcomes(steps).drop_first(),
        outcomes(steps).len() == steps.len(),
{
    assert(outcomes(steps.drop_first()) =~= outcomes(steps).drop_first());
}

proof fn lemma_run_from(v: DownloadModel, steps: Seq<(bool, bool)>)
    requires
        1 <= v.next <= v.queue.len(),
        steps.len() >= v.queue.len() - v.next + 1,
    ensures
        run(v, DownloadAction::Fetch, steps).1 == DownloadAction::Stop(
            forall|i: int| 0 <= i < v.queue.len() - v.next + 1 ==> steps[i].1,
        ),
    decreases steps.len(),
{
    let (w, b) = fetch_step(v, steps[0].0, steps[0].1);
    let n = v.queue.len() - v.next + 1;
    if !steps[0].1 {
        assert(run(v, DownloadAction::Fetch, steps) == run(w, b, steps.drop_first()));
    } else if v.next < v.queue.len() {
        lemma_run_from(w, steps.drop_first());
        assert((forall|i: int| 0 <= i < n ==> steps[i].1) == (forall|i: int| 0 <= i < n - 1 ==> steps.drop_first()[i].1)) by {
            if forall|i: int| 0 <= i < n - 1 ==> steps.drop_first()[i].1 {
                assert forall|i: int| 0 <= i < n implies steps[i].1 by {
                    if i > 0 {
                        assert(steps[i] == steps.drop_first()[i - 1]);
                    }
                }
            }
        }
    } else {
        assert(run(w, b, steps.drop_first()) == (w, b));
        assert forall|i: int| 0 <= i < n implies steps[i].1 by {
            assert(i == 0);
        }
    }
}

/// A run over `urls` ends in success exactly when the downloads of all of
/// them succeed: with one fetch outcome per URL (and possibly more), it
/// stops with `true` when every outcome for the URLs is a success and with
/// `false` otherwise.
pub proof fn lemma_run_succeeds_iff_all_succeed(v: DownloadModel, urls: Seq<Seq<char>>, steps: Seq<(bool, bool)>)
    requires
        steps.len() >= urls.len(),
    ensures
        ({
            let (w, a) = begin_step(v, urls);
            run(w, a, steps).1 == DownloadAction::Stop(forall|i: int| 0 <= i < urls.len() ==> steps[i].1)
        }),
{
    let (w, a) = begin_step(v, urls);
    if urls.len() > 0 {
        lemma_run_from(w, steps);
    }
}

proof fn lemma_run_prefix(v: DownloadModel, k: nat, steps: Seq<(bool, bool)>)
    requires
        1 <= v.next,
        v.next + k <= v.queue.len(),
        k <= steps.len(),
        forall|i: int| 0 <= i < k ==> steps[i].1,
    ensures
        ({
            let (x, b) = run(v, DownloadAction::Fetch, steps.take(k as int));
            &&& b == DownloadAction::Fetch
            &&& x.url == (if k == 0 { v.url } else { v.queue[v.next + k - 1] })
            &&& x.next == v.next + k
            &&& x.queue == v.queue
            &&& same_settings(x, v)
        }),
    decreases k,
{
    if k > 0 {
        let (w, b) = fetch_step(v, steps[0].0, steps[0].1);
        assert(steps.take(k as int).drop_first() =~= steps.drop_first().take(k - 1));
        assert(steps.take(k as int)[0] == steps[0]);
        lemma_run_prefix(w, (k - 1) as nat, steps.drop_first());
    } else {
        assert(steps.take(0) =~= Seq::<(bool, bool)>::empty());
    }
}

/// A run fetches the URLs in the order given and keeps its options: while
/// every download so far succeeded, the `k`-th `Fetch` (counting from 0) is
/// for `urls[k]`.
pub proof fn lemma_run_fetches_in_order(v: DownloadModel, urls: Seq<Seq<char>>, steps: Seq<(bool, bool)>, k: nat)
    requires
        k < urls.len(),
        k <= steps.len(),
        forall|i: int| 0 <= i < k ==> steps[i].1,
    ensures
        ({
            let (w, a) = begin_step(v, urls);
            let (x, b) = run(w, a, steps.take(k as int));
            b == DownloadAction::Fetch && x.url == urls[k as int] && same_settings(x, v)
        }),
{
    let (w, a) = begin_step(v, urls);
    lemma_run_prefix(w, k, steps);
}

proof fn lemma_last_attempt(oks: Seq<bool>, m: nat)
    requires
        m >= 1,
        oks.len() >= m,
    ensures
        last_attempt(oks, m) < m,
        forall|i: int| 0 <= i < last_attempt(oks, m) ==> oks[i],
        oks[last_attempt(oks, m) as int] ==> last_attempt(oks, m) == m - 1,
    decreases m,
{
    if !(m <= 1 || !oks[0]) {
        lemma_last_attempt(oks.drop_first(), (m - 1) as nat);
        assert forall|i: int| 0 <= i < last_attempt(oks, m) implies oks[i] by {
            if i > 0 {
                assert(oks[i] == oks.drop_first()[i - 1]);
            }
        }
    }
}

proof fn lemma_run_end(v: DownloadModel, steps: Seq<(bool, bool)>)
    requires
        1 <= v.next <= v.queue.len(),
        steps.len() >= v.queue.len() - v.next + 1,
    ensures
        ({
            let j = last_attempt(outcomes(steps), (v.queue.len() - v.next + 1) as nat);
            let y = run(v, DownloadAction::Fetch, steps.take(j as int)).0;
            run(v, DownloadAction::Fetch, steps) == fetch_step(y, steps[j as int].0, steps[j as int].1)
        }),
    decreases steps.len(),
{
    let m = (v.queue.len() - v.next + 1) as nat;
    lemma_outcomes_drop_first(steps);
    lemma_last_attempt(outcomes(steps), m);
    assert(outcomes(steps)[0] == steps[0].1);
    let j = last_attempt(outcomes(steps), m);
    let (w, b) = fetch_step(v, steps[0].0, steps[0].1);
    if m <= 1 || !steps[0].1 {
        assert(j == 0);
        assert(steps.take(0) =~= Seq::<(bool, bool)>::empty());
        assert(run(w, b, steps.drop_first()) == (w, b));
    } else {
        lemma_run_end(w, steps.drop_first());
        assert(j == 1 + last_attempt(outcomes(steps.drop_first()), (m - 1) as nat));
        assert(steps.take(j as int).drop_first() =~= steps.drop_first().take(j - 1));
        assert(steps.take(j as int)[0] == steps[0]);
        assert(steps[j as int] == steps.drop_first()[j - 1]);
    }
}

/// Where a run ends: with one fetch outcome per URL (and possibly more),
/// it stops after the last URL it attempts (the first whose download
/// fails, or the last URL), with that URL as the current one, its
/// destination as the one chosen for it, and the options it started with.
pub proof fn lemma_run_ends_at_last_attempt(v: DownloadModel, urls: Seq<Seq<char>>, steps: Seq<(bool, bool)>)
    requires
        urls.len() > 0,
        steps.len() >= urls.len(),
    ensures
        ({
            let (w, a) = begin_step(v, urls);
            let j = last_attempt(outcomes(steps), urls.len());
            let y = run(w, a, steps.take(j as int)).0;
            let (x, b) = run(w, a, steps);
            &&& j < urls.len()
            &&& b is Stop
            &&& x.url == urls[j as int]
            &&& x.destination == destination_chosen(y, steps[j as int].0).destination
            &&& same_settings(x, v)
        }),
{
    let (w, a) = begin_step(v, urls);
    let n = urls.len();
    assert(outcomes(steps).len() == steps.len());
    lemma_last_attempt(outcomes(steps), n);
    let j = last_attempt(outcomes(steps), n);
    assert forall|i: int| 0 <= i < j implies steps[i].1 by {
        assert(outcomes(steps)[i] == steps[i].1);
    }
    assert(outcomes(steps)[j as int] == steps[j as int].1);
    lemma_run_prefix(w, j, steps);
    lemma_run_end(w, steps);
}

proof fn lemma_run_in_directory(v: DownloadModel, k: nat, steps: Seq<(bool, bool)>, d: Seq<char>)
    requires
        v.des == Some(d),
        v.passed_dir is None || v.passed_dir == Some(d),
        1 <= v.next,
        v.next + k <= v.queue.len(),
        k <= steps.len(),
        forall|i: int| 0 <= i < k ==> steps[i].0 && steps[i].1,
    ensures
        ({
            let (x, b) = run(v, DownloadAction::Fetch, steps.take(k as int));
            &&& b == DownloadAction::Fetch
            &&& x.des == Some(d)
            &&& (x.passed_dir is None || x.passed_dir == Some(d))
            &&& x.url == (if k == 0 { v.url } else { v.queue[v.next + k - 1] })
        }),
    decreases k,
{
    if k > 0 {
        let (w, b) = fetch_step(v, steps[0].0, steps[0].1);
        assert(steps.take(k as int).drop_first() =~= steps.drop_first().take(k - 1));
        assert(steps.take(k as int)[0] == steps[0]);
        lemma_run_in_directory(w, (k - 1) as nat, steps.drop_first(), d);
    } else {
        assert(steps.take(0) =~= Seq::<(bool, bool)>::empty());
    }
}

/// A batch saved into a directory stays in it for the whole run: while
/// every download so far succeeded (the directory still being one), the
/// `k`-th URL's destination is chosen with `d` still the requested
/// destination, `d` is remembered as the directory, and the file is saved
/// as `d` joined with that URL's name.
pub proof fn lemma_batch_run_stays_in_directory(
    v: DownloadModel,
    urls: Seq<Seq<char>>,
    steps: Seq<(bool, bool)>,
    d: Seq<char>,
    k: nat,
)
    requires
        v.des == Some(d),
        v.passed_dir is None || v.passed_dir == Some(d),
        k < urls.len(),
        k <= steps.len(),
        forall|i: int| 0 <= i < k ==> steps[i].0 && steps[i].1,
    ensures
        ({
            let (w, a) = begin_step(v, urls);
            let (x, b) = run(w, a, steps.take(k as int));
            let y = destination_chosen(x, true);
            &&& b == DownloadAction::Fetch
            &&& x.des == Some(d)
            &&& y.passed_dir == Some(d)
            &&& y.destination == path_join(d, url_name(urls[k as int]))
        }),
{
    let (w, a) = begin_step(v, urls);
    lemma_run_in_directory(w, k, steps, d);
}

/// In a batch saved into a directory, every file goes into that directory:
/// once a file was saved into directory `d` and its download succeeded,
/// the next URL's file is saved into `d` too, under its own name.
pub proof fn lemma_batch_stays_in_directory(v: DownloadModel, d: Seq<char>)
    requires
        v.des == Some(d),
    ensures
        ({
            let saved = destination_chosen(v, true);
            let (w, a) = finish_step(saved, true);
            a is Fetch ==> destination_chosen(w, true).destination == path_join(d, url_name(w.url))
        }),
{
}


/// What follows the name in a URL: empty, or from its first `?` after the
/// last `/` on.
pub open spec fn url_rest(url: Seq<char>) -> Seq<char> {
    url.skip((segment_start(url) + url_name(url).len()) as int)
}

/// The name `get_name` gives is a plain file name: the URL splits into a
/// prefix that is empty or ends with its last `/`, the name, which holds no
/// `/` and no `?`, and a rest that is empty or starts with `?`.
pub proof fn lemma_url_name_is_plain(url: Seq<char>)
    ensures
        forall|j: int| 0 <= j < url_name(url).len() ==> url_name(url)[j] != '/' && url_name(url)[j] != '?',
        url == url.take(segment_start(url) as int) + url_name(url) + url_rest(url),
        segment_start(url) > 0 ==> url[segment_start(url) - 1] == '/',
        url_rest(url).len() > 0 ==> url_rest(url)[0] == '?',
{
    lemma_segment_start(url);
    let ss = segment_start(url) as int;
    let seg = url.skip(ss);
    lemma_query_start(seg);
    let q = query_start(seg) as int;
    assert forall|j: int| 0 <= j < url_name(url).len() implies url_name(url)[j] != '/' && url_name(url)[j] != '?' by {
        assert(url_name(url)[j] == seg[j]);
        assert(seg[j] == url[ss + j]);
    }
    assert(url_name(url).len() == q);
    assert(url =~= url.take(ss) + url_name(url) + url.skip(ss + q));
    if url.skip(ss + q).len() > 0 {
        assert(url.skip(ss + q)[0] == seg[q]);
    }
}

/// No line that `split_lines` gives holds a newline.
pub proof fn lemma_lines_hold_no_newline(s: Seq<char>)
    ensures
        forall|i: int, j: int| 0 <= i < lines_of(s).len() && 0 <= j < lines_of(s)[i].len() ==> lines_of(s)[i][j] != '\n',
    decreases s.len(),
{
    if s.len() > 0 {
        let k = newline_index(s);
        lemma_newline_index(s);
        if k < s.len() {
            lemma_lines_hold_no_newline(s.skip(k + 1 as int));
            let first = without_cr(s.take(k as int));
            assert forall|i: int, j: int| 0 <= i < lines_of(s).len() && 0 <= j < lines_of(s)[i].len() implies lines_of(s)[i][j] != '\n' by {
                if i == 0 {
                    assert(lines_of(s)[0] == first);
                    assert(first[j] == s[j]);
                } else {
                    assert(lines_of(s)[i] == lines_of(s.skip(k + 1 as int))[i - 1]);
                }
            }
        } else {
            assert forall|i: int, j: int| 0 <= i < lines_of(s).len() && 0 <= j < lines_of(s)[i].len() implies lines_of(s)[i][j] != '\n' by {
                assert(lines_of(s)[i] == s);
            }
        }
    }
}


/// The bar is filled in proportion to the bytes downloaded: for a known
/// size and no more bytes than that, `n` of `width` icons are done exactly
/// when `n / width` of the file (rounded down) is there, that is
/// `n * size <= downloaded * width < (n + 1) * size`; half the bytes give
/// half the width, for every width.
pub proof fn lemma_bar_fill_proportional(downloaded: nat, size: nat, width: nat)
    requires
        size > 0,
        downloaded <= size,
    ensures
        bar_fill(downloaded, size, width) * size <= downloaded * width,
        downloaded * width < (bar_fill(downloaded, size, width) + 1) * size,
        bar_fill(downloaded, size, width) <= width,
{
    let p = downloaded * width;
    let q = p / size;
    assert(q * size <= p && p < (q + 1) * size) by (nonlinear_arith)
        requires
            size > 0,
            q == p / size,
            p >= 0,
    ;
    assert(p <= size * width) by (nonlinear_arith)
        requires
            downloaded <= size,
            p == downloaded * width,
            width >= 0,
    ;
    assert(q <= width) by (nonlinear_arith)
        requires
            q * size <= p,
            p <= size * width,
            size > 0,
    ;
}

/// A partial file is resumed exactly when it is shorter than the remote
/// one: when resuming and not overwriting, with the local size and the
/// remote length known, the answer is `Resume` iff `local < remote` and
/// `Refuse` iff `local >= remote`.
pub proof fn lemma_resume_iff_shorter(v: DownloadModel, local: u64, remote: u64)
    requires
        v.continue_download,
        !v.overwrite,
    ensures
        (existing_file_decision(v, Some((local, Some(remote)))) == ExistingFile::Resume) <==> local < remote,
        (existing_file_decision(v, Some((local, Some(remote)))) == ExistingFile::Refuse) <==> local >= remote,
{
}


/// The lines put back with their endings, in order.
pub open spec fn joined(lines: Seq<Seq<char>>, ends: Seq<Seq<char>>) -> Seq<char>
    decreases lines.len(),
{
    if lines.len() == 0 || ends.len() == 0 {
        Seq::empty()
    } else {
        lines[0] + ends[0] + joined(lines.drop_first(), ends.drop_first())
    }
}

/// Whether `ends` are line endings fit for `lines`: one per line, each
/// `\n` (after a line that does not end with `\r`) or `\r\n`, except that
/// the last line, if not empty, may have none.
pub open spec fn fit_endings(lines: Seq<Seq<char>>, ends: Seq<Seq<char>>) -> bool {
    &&& ends.len() == lines.len()
    &&& forall|i: int| 0 <= i < lines.len() ==> {
        ||| (#[trigger] ends[i] == seq!['\n'] && !(lines[i].len() > 0 && lines[i].last() == '\r'))
        ||| ends[i] == seq!['\r', '\n']
        ||| (i == lines.len() - 1 && ends[i] == Seq::<char>::empty() && lines[i].len() > 0)
    }
}

/// The endings that `lines_of` drops, line by line.
pub open spec fn endings_of(s: Seq<char>) -> Seq<Seq<char>>
    decreases s.len(),
{
    if s.len() == 0 {
        Seq::empty()
    } else {
        let i = newline_index(s);
        proof {
            lemma_newline_index(s);
        }
        if i < s.len() {
            let e = if i > 0 && s[i - 1] == '\r' { seq!['\r', '\n'] } else { seq!['\n'] };
            seq![e] + endings_of(s.skip(i + 1 as int))
        } else {
            seq![Seq::<char>::empty()]
        }
    }
}

proof fn lemma_endings_of(s: Seq<char>)
    ensures
        fit_endings(lines_of(s), endings_of(s)),
        joined(lines_of(s), endings_of(s)) == s,
    decreases s.len(),
{
    if s.len() > 0 {
        let i = newline_index(s);
        lemma_newline_index(s);
        if i < s.len() {
            let rest = s.skip(i + 1 as int);
            lemma_endings_of(rest);
            let l0 = without_cr(s.take(i as int));
            let e0 = if i > 0 && s[i - 1] == '\r' { seq!['\r', '\n'] } else { seq!['\n'] };
            let lines = lines_of(s);
            let ends = endings_of(s);
            assert(lines == seq![l0] + lines_of(rest));
            assert(ends == seq![e0] + endings_of(rest));
            assert(lines.drop_first() =~= lines_of(rest));
            assert(ends.drop_first() =~= endings_of(rest));
            assert(l0 + e0 =~= s.take(i + 1 as int)) by {
                if i > 0 && s[i - 1] == '\r' {
                    assert(l0 =~= s.take(i - 1));
                }
            }
            assert(s =~= s.take(i + 1 as int) + rest);
            assert(joined(lines, ends) == l0 + e0 + joined(lines_of(rest), endings_of(rest)));
            assert forall|k: int| 0 <= k < lines.len() implies {
                ||| (#[trigger] ends[k] == seq!['\n'] && !(lines[k].len() > 0 && lines[k].last() == '\r'))
                ||| ends[k] == seq!['\r', '\n']
                ||| (k == lines.len() - 1 && ends[k] == Seq::<char>::empty() && lines[k].len() > 0)
            } by {
                if k > 0 {
                    assert(ends[k] == endings_of(rest)[k - 1]);
                    assert(lines[k] == lines_of(rest)[k - 1]);
                } else {
                    assert(ends[0] == e0);
                    assert(lines[0] == l0);
                }
            }
        } else {
            let lines = lines_of(s);
            let ends = endings_of(s);
            assert(lines == seq![s]);
            assert(ends == seq![Seq::<char>::empty()]);
            assert(lines.drop_first() =~= Seq::<Seq<char>>::empty());
            assert(joined(lines, ends) == s + Seq::<char>::empty() + joined(lines.drop_first(), ends.drop_first()));
            assert(joined(lines, ends) =~= s);
        }
    } else {
        assert(lines_of(s) =~= Seq::<Seq<char>>::empty());
        assert(endings_of(s) =~= Seq::<Seq<char>>::empty());
    }
}

/// The lines `split_lines` gives are the input cut at its line endings:
/// put back in order, each with a `\n` or `\r\n` ending (a last non-empty
/// line possibly with none), they give the input again, and no line holds
/// a `\n`.
pub proof fn lemma_lines_rebuild_input(s: Seq<char>)
    ensures
        exists|ends: Seq<Seq<char>>| fit_endings(lines_of(s), ends) && #[trigger] joined(lines_of(s), ends) == s,
        forall|i: int, j: int| 0 <= i < lines_of(s).len() && 0 <= j < lines_of(s)[i].len() ==> lines_of(s)[i][j] != '\n',
{
    lemma_endings_of(s);
    lemma_lines_hold_no_newline(s);
}

} // verus!
