//! Command-line arguments and the configuration of a run.

use rand::RngExt;
use vstd::prelude::*;

use crate::marker;
use crate::marker::find_chars;
use crate::text;
use crate::text::{chars_of, equals_ignoring_case, hexadecimal, trim};

verus! {

/// The arguments of a run. They follow curl's flags where possible.
#[derive(Debug, Clone)]
pub struct Args {
    /// Target URL
    pub url: Option<String>,
    /// HTTP headers in format 'Name: Value' (repeatable). Wrap the original
    /// value in marker pairs to fuzz it, in the key ('§X-Api§-Key: v') and/or
    /// the value ('X-Api-Key: §key§').
    pub headers: Vec<String>,
    /// Request body/data (for POST/PUT/etc)
    pub data: Option<String>,
    /// HTTP method (GET, POST, PUT, DELETE, etc.)
    pub method: String,
    /// Number of baseline requests to send
    pub baseline_count: usize,
    /// Fuzzing wordlist file path
    pub wordlist: Option<String>,
    /// Output directory for logs
    pub output: String,
    /// Payload span delimiter. Wrap the original value of a fuzzable
    /// parameter in a marker pair, e.g. `?id=§1§`: baseline requests send
    /// the original value without markers (`?id=1`) and fuzzing runs replace
    /// the whole span (markers and original value) with the payload
    pub marker: String,
    /// Number of concurrent requests for fuzzing
    pub threads: usize,
    /// Request timeout in seconds
    pub timeout: u64,
    /// Skip baseline testing
    pub skip_baseline: bool,
    /// Verbose output
    pub verbose: bool,
    /// Maximum number of clusters to report
    pub max_clusters: usize,
    /// Disable timing analysis
    pub disable_timing: bool,
}

/// The name and the value of a header line: what stands before and after the
/// first colon, without surrounding whitespace.
pub open spec fn header_line(line: Seq<char>) -> Option<(Seq<char>, Seq<char>)> {
    match marker::find_from(line, seq![':'], 0) {
        Some(colon) => Some(
            (text::trimmed(line.take(colon)), text::trimmed(line.skip(colon + 1))),
        ),
        None => None,
    }
}

/// The headers that the lines give, in order; a line without a colon gives
/// none.
pub open spec fn header_lines(lines: Seq<Seq<char>>) -> Seq<(Seq<char>, Seq<char>)>
    decreases lines.len(),
{
    if lines.len() == 0 {
        seq![]
    } else {
        match header_line(lines.last()) {
            Some(header) => header_lines(lines.drop_last()).push(header),
            None => header_lines(lines.drop_last()),
        }
    }
}

/// Some header is a content type, in whatever case its name is written.
pub open spec fn names_content_type(headers: Seq<(Seq<char>, Seq<char>)>) -> bool {
    exists|i: int|
        0 <= i < headers.len() && text::same_ignoring_case(
            (#[trigger] headers[i]).0,
            "content-type"@,
        )
}

/// The headers that the arguments ask for: those of the lines, and the form
/// content type where there is a body and no content type is given.
pub open spec fn asked_headers(args: Args) -> Seq<(Seq<char>, Seq<char>)> {
    let given = header_lines(text::texts(args.headers@));
    if args.data is Some && !names_content_type(given) {
        given.push(("Content-Type"@, "application/x-www-form-urlencoded"@))
    } else {
        given
    }
}

/// Splits a header line at its first colon.
fn split_header(line: &str) -> (header: Option<(String, String)>)
    ensures
        match header {
            Some(h) => header_line(line@) == Some((h.0@, h.1@)),
            None => header_line(line@) is None,
        },
{
    let chars = chars_of(line);
    let colon: [char; 1] = [':'];
    proof {
        assert(colon@ =~= seq![':']);
        marker::find_from_is_first(line@, seq![':'], 0);
    }
    match find_chars(chars.as_slice(), colon.as_slice(), 0) {
        Some(at) => {
            assert(line@.subrange(0, at as int) =~= line@.take(at as int));
            assert(line@.subrange(at + 1, line@.len() as int) =~= line@.skip(at + 1));
            Some(
                (
                    trim(chars.as_slice(), 0, at),
                    trim(chars.as_slice(), at + 1, chars.len()),
                ),
            )
        },
        None => None,
    }
}

impl Args {
    /// The headers to send.
    pub fn parse_headers(&self) -> (headers: Vec<(String, String)>)
        ensures
            text::pair_texts(headers@) == asked_headers(*self),
    {
        let mut headers: Vec<(String, String)> = Vec::new();
        let mut named = false;
        let mut i: usize = 0;
        let ghost lines = text::texts(self.headers@);
        assert(text::pair_texts(headers@) =~= header_lines(lines.take(0)));
        while i < self.headers.len()
            invariant
                i <= self.headers.len(),
                lines == text::texts(self.headers@),
                text::pair_texts(headers@) == header_lines(lines.take(i as int)),
                named == names_content_type(text::pair_texts(headers@)),
            decreases self.headers.len() - i,
        {
            let ghost before = text::pair_texts(headers@);
            assert(lines.take(i + 1).drop_last() =~= lines.take(i as int));
            assert(lines.take(i + 1).last() == self.headers@[i as int]@);
            if let Some((key, value)) = split_header(self.headers[i].as_str()) {
                let is_type = equals_ignoring_case(key.as_str(), "content-type");
                headers.push((key, value));
                let ghost after = text::pair_texts(headers@);
                proof {
                    assert(after =~= before.push((key@, value@)));
                    if is_type {
                        assert(after[before.len() as int].0 == key@);
                    }
                    if names_content_type(before) {
                        let k = choose|k: int|
                            0 <= k < before.len() && text::same_ignoring_case(
                                (#[trigger] before[k]).0,
                                "content-type"@,
                            );
                        assert(after[k] == before[k]);
                    }
                    if names_content_type(after) && !is_type {
                        let k = choose|k: int|
                            0 <= k < after.len() && text::same_ignoring_case(
                                (#[trigger] after[k]).0,
                                "content-type"@,
                            );
                        assert(after[k] == before[k]);
                    }
                }
                named = named || is_type;
            }
            i += 1;
        }
        assert(lines.take(lines.len() as int) =~= lines);
        if self.data.is_some() && !named {
            let ghost before = text::pair_texts(headers@);
            headers.push(
                ("Content-Type".to_owned(), "application/x-www-form-urlencoded".to_owned()),
            );
            assert(text::pair_texts(headers@) =~= before.push(
                ("Content-Type"@, "application/x-www-form-urlencoded"@),
            ));
        }
        headers
    }
}

/// A request with a body always has a content type, and one without
/// gets no header that was not given.
pub proof fn body_has_a_content_type(args: Args)
    ensures
        args.data is Some ==> names_content_type(asked_headers(args)),
        args.data is None ==> asked_headers(args) == header_lines(text::texts(args.headers@)),
        header_lines(text::texts(args.headers@)).is_prefix_of(asked_headers(args)),
{
    let given = header_lines(text::texts(args.headers@));
    let asked = asked_headers(args);
    if args.data is Some && !names_content_type(given) {
        reveal_strlit("Content-Type");
        reveal_strlit("content-type");
        assert(asked[given.len() as int].0 == "Content-Type"@);
        assert("Content-Type"@.map_values(|c: char| text::small_letter(c))
            =~= "content-type"@.map_values(|c: char| text::small_letter(c)));
        assert(names_content_type(asked));
    }
}

/// Runtime configuration: the arguments, plus a per-execution `run_id` that
/// uniquely identifies a single run of the tool.
#[derive(Debug, Clone)]
pub struct Config {
    /// Unique identifier for this execution (8 random lowercase hex chars).
    pub run_id: String,
    /// RFC 3339 timestamp (millisecond precision) of when the run started.
    pub started_at: String,
    /// Full runtime flags and parameters.
    pub args: Args,
}

/// Calls `rand::rng().random()` for a 32-bit number. Any number may come.
#[verifier::external_body]
fn random_number() -> (num: u32) {
    rand::rng().random()
}

/// An RFC 3339 timestamp of UTC with milliseconds: `YYYY-MM-DDTHH:MM:SS.mmmZ`.
pub open spec fn is_millis_stamp(stamp: Seq<char>) -> bool {
    let n = stamp.len();
    &&& text::date_time_ends_at(stamp, n - 5)
    &&& stamp[n - 5] == '.'
    &&& forall|i: int| n - 4 <= i < n - 1 ==> text::is_digit(#[trigger] stamp[i])
    &&& stamp[n - 1] == 'Z'
}

/// Calls `chrono::Utc::now` and `to_rfc3339_opts` with millisecond precision.
/// The text depends on the clock, but it always has the notation of a date and
/// a time with milliseconds and a `Z`.
#[verifier::external_body]
fn millis_stamp() -> (stamp: String)
    ensures
        is_millis_stamp(stamp@),
{
    chrono::Utc::now().to_rfc3339_opts(chrono::SecondsFormat::Millis, true)
}

/// Eight lower-case hexadecimal digits.
pub open spec fn is_run_id(id: Seq<char>) -> bool {
    id.len() == 8 && forall|i: int| 0 <= i < 8 ==> text::is_lower_hex(#[trigger] id[i])
}

/// The run id of a number: its eight hexadecimal digits.
pub fn run_id_of(num: u32) -> (id: String)
    ensures
        id@ == text::hex_digits(num as nat, 8),
        is_run_id(id@),
{
    proof {
        text::hex_digits_shape(num as nat, 8);
    }
    hexadecimal(num, 8)
}

/// Hexadecimal notation determines the number.
proof fn hex_digits_determine(a: nat, b: nat, width: nat)
    requires
        text::hex_digits(a, width) == text::hex_digits(b, width),
    ensures
        width == 0 || a % 16 == b % 16,
        width > 0 ==> text::hex_digits(a / 16, (width - 1) as nat) == text::hex_digits(
            b / 16,
            (width - 1) as nat,
        ),
{
    if width > 0 {
        let x = text::hex_digits(a, width);
        let y = text::hex_digits(b, width);
        assert(x.last() == y.last());
        assert(text::hex_digits(a / 16, (width - 1) as nat) =~= x.drop_last());
        assert(text::hex_digits(b / 16, (width - 1) as nat) =~= y.drop_last());
    }
}

/// Different numbers give different run ids.
pub proof fn run_ids_tell_numbers_apart(a: u32, b: u32)
    ensures
        text::hex_digits(a as nat, 8) == text::hex_digits(b as nat, 8) ==> a == b,
{
    if text::hex_digits(a as nat, 8) == text::hex_digits(b as nat, 8) {
        let a0 = a as nat;
        let b0 = b as nat;
        hex_digits_determine(a0, b0, 8);
        hex_digits_determine(a0 / 16, b0 / 16, 7);
        hex_digits_determine(a0 / 16 / 16, b0 / 16 / 16, 6);
        hex_digits_determine(a0 / 16 / 16 / 16, b0 / 16 / 16 / 16, 5);
        hex_digits_determine(a0 / 16 / 16 / 16 / 16, b0 / 16 / 16 / 16 / 16, 4);
        hex_digits_determine(a0 / 16 / 16 / 16 / 16 / 16, b0 / 16 / 16 / 16 / 16 / 16, 3);
        hex_digits_determine(a0 / 16 / 16 / 16 / 16 / 16 / 16, b0 / 16 / 16 / 16 / 16 / 16 / 16, 2);
        hex_digits_determine(
            a0 / 16 / 16 / 16 / 16 / 16 / 16 / 16,
            b0 / 16 / 16 / 16 / 16 / 16 / 16 / 16,
            1,
        );
    }
}

impl Config {
    /// Build a config from parsed CLI args, generating a fresh run id.
    pub fn new(args: Args) -> (config: Config)
        ensures
            config.args == args,
            is_run_id(config.run_id@),
            is_millis_stamp(config.started_at@),
    {
        let started_at = millis_stamp();
        Config { run_id: Config::generate_run_id(), started_at, args }
    }

    /// Generate a random 8-hex-char run id.
    pub fn generate_run_id() -> (id: String)
        ensures
            is_run_id(id@),
            exists|num: u32| id@ == #[trigger] text::hex_digits(num as nat, 8),
    {
        let num = random_number();
        run_id_of(num)
    }
}

/// A header line gives what stands before its first colon and all that follows
/// it, without whitespace around either. The value may hold anything, further
/// colons and semicolons among it.
pub proof fn header_lines_are_split_at_the_colon(
    a: Seq<char>,
    name: Seq<char>,
    b: Seq<char>,
    c: Seq<char>,
    value: Seq<char>,
    d: Seq<char>,
)
    requires
        forall|i: int| 0 <= i < a.len() ==> text::white(#[trigger] a[i]),
        forall|i: int| 0 <= i < b.len() ==> text::white(#[trigger] b[i]),
        forall|i: int| 0 <= i < c.len() ==> text::white(#[trigger] c[i]),
        forall|i: int| 0 <= i < d.len() ==> text::white(#[trigger] d[i]),
        forall|i: int| 0 <= i < name.len() ==> #[trigger] name[i] != ':',
        name.len() > 0 ==> !text::white(name[0]) && !text::white(name.last()),
        value.len() > 0 ==> !text::white(value[0]) && !text::white(value.last()),
    ensures
        header_line(a + name + b + seq![':'] + (c + value + d)) == Some((name, value)),
{
    let front = a + name + b;
    let back = c + value + d;
    let line = front + seq![':'] + back;
    let n = front.len() as int;
    assert forall|i: int| 0 <= i < n implies #[trigger] line[i] != ':' by {
        if i < a.len() {
            assert(line[i] == a[i]);
        } else if i < a.len() + name.len() {
            assert(line[i] == name[i - a.len()]);
        } else {
            assert(line[i] == b[i - a.len() - name.len()]);
        }
    }
    first_colon(line, n);
    assert(line.take(n) =~= front);
    assert(line.skip(n + 1) =~= back);
    text::padding_is_trimmed(a, name, b);
    text::padding_is_trimmed(c, value, d);
}

/// The search for a colon ends at the first one.
proof fn first_colon(line: Seq<char>, n: int)
    requires
        0 <= n < line.len(),
        line[n] == ':',
        forall|i: int| 0 <= i < n ==> #[trigger] line[i] != ':',
    ensures
        marker::find_from(line, seq![':'], 0) == Some(n),
{
    marker::find_from_is_first(line, seq![':'], 0);
    assert(line.subrange(n, n + 1) =~= seq![':']);
    assert(marker::occurs_at(line, seq![':'], n));
    if let Some(p) = marker::find_from(line, seq![':'], 0) {
        assert(line.subrange(p, p + 1)[0] == ':');
        assert(line[p] == ':');
    }
}

/// A header that is written as name, colon, space and value is read back as
/// that name and that value, whatever the value holds.
pub proof fn headers_are_read_back(name: Seq<char>, value: Seq<char>)
    requires
        forall|i: int| 0 <= i < name.len() ==> #[trigger] name[i] != ':',
        name.len() > 0 ==> !text::white(name[0]) && !text::white(name.last()),
        value.len() > 0 ==> !text::white(value[0]) && !text::white(value.last()),
    ensures
        header_line(name + seq![':', ' '] + value) == Some((name, value)),
{
    let nothing = Seq::<char>::empty();
    header_lines_are_split_at_the_colon(nothing, name, nothing, seq![' '], value, nothing);
    assert(nothing + name + nothing + seq![':'] + (seq![' '] + value + nothing) =~= name + seq![
        ':',
        ' ',
    ] + value);
}

/// A line without a colon is no header.
pub proof fn a_header_needs_a_colon(line: Seq<char>)
    ensures
        header_line(line) is None <==> !line.contains(':'),
{
    marker::find_from_is_first(line, seq![':'], 0);
    if let Some(p) = marker::find_from(line, seq![':'], 0) {
        assert(line.subrange(p, p + 1)[0] == ':');
        assert(line[p] == ':');
    } else if line.contains(':') {
        let i = line.index_of(':');
        assert(line.subrange(i, i + 1) =~= seq![':']);
        assert(marker::occurs_at(line, seq![':'], i));
    }
}

/// The header lines are read one by one, in order: a line that is a header
/// gives that header, and any other line gives nothing.
pub proof fn header_lines_are_read_in_order(a: Seq<Seq<char>>, b: Seq<Seq<char>>, line: Seq<char>)
    ensures
        header_lines(a + b) == header_lines(a) + header_lines(b),
        header_line(line) matches Some(header) ==> header_lines(seq![line]) == seq![header],
        header_line(line) is None ==> header_lines(seq![line])
            == Seq::<(Seq<char>, Seq<char>)>::empty(),
    decreases b.len(),
{
    assert(seq![line].drop_last() =~= seq![]);
    assert(header_lines(seq![line].drop_last()) =~= seq![]);
    if let Some(header) = header_line(line) {
        assert(header_lines(seq![line]) =~= seq![header]);
    }
    if b.len() == 0 {
        assert(a + b =~= a);
        assert(header_lines(a) + header_lines(b) =~= header_lines(a));
    } else {
        header_lines_are_read_in_order(a, b.drop_last(), line);
        assert((a + b).drop_last() =~= a + b.drop_last());
        assert(header_lines(a + b) =~= header_lines(a) + header_lines(b));
    }
}

/// The headers that were given are sent as they were given. A form content
/// type is added behind them only where there is a body and no header of that
/// name, in whatever case.
pub proof fn a_content_type_is_added_where_none_is_given(args: Args)
    ensures
        ({
            let given = header_lines(text::texts(args.headers@));
            let named = exists|i: int|
                0 <= i < given.len() && text::same_ignoring_case(
                    (#[trigger] given[i]).0,
                    seq!['c', 'o', 'n', 't', 'e', 'n', 't', '-', 't', 'y', 'p', 'e'],
                );
            &&& args.data is None || named ==> asked_headers(args) == given
            &&& args.data is Some && !named ==> asked_headers(args) == given + seq![
                ("Content-Type"@, "application/x-www-form-urlencoded"@),
            ]
        }),
{
    let given = header_lines(text::texts(args.headers@));
    let name = seq!['c', 'o', 'n', 't', 'e', 'n', 't', '-', 't', 'y', 'p', 'e'];
    reveal_strlit("content-type");
    assert("content-type"@ =~= name);
    if args.data is Some && !names_content_type(given) {
        assert(asked_headers(args) =~= given + seq![
            ("Content-Type"@, "application/x-www-form-urlencoded"@),
        ]);
    }
    if exists|i: int|
        0 <= i < given.len() && text::same_ignoring_case((#[trigger] given[i]).0, name) {
        let i = choose|i: int|
            0 <= i < given.len() && text::same_ignoring_case((#[trigger] given[i]).0, name);
        assert(text::same_ignoring_case(given[i].0, "content-type"@));
    }
}

/// The id of a run reads, in hexadecimal, as the number that it was made of.
pub proof fn run_ids_read_back(num: u32)
    ensures
        text::number_read(text::hex_digits(num as nat, 8), 16) == num,
        text::hex_digits(num as nat, 8).len() == 8,
{
    reveal_with_fuel(text::sixteen_to_the, 9);
    text::hexadecimal_notation_reads_back(num as nat, 8);
    text::hex_digits_shape(num as nat, 8);
}

} // verus!
