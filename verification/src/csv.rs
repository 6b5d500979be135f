//! Reading a `ts,open,high,low,close,volume` candle CSV: its lines, cells and
//! timestamps. The price and volume cells are handed on as text, for the
//! caller to read as floating-point numbers.

use vstd::prelude::*;
use crate::text::{all_digits, chars_of, concat, decimal, decimal_string, digits_value, string_of};

verus! {

/// The position of the first `c` in `s`.
pub open spec fn index_of(s: Seq<char>, c: char) -> Option<nat>
    decreases s.len(),
{
    if s.len() == 0 {
        None
    } else if s[0] == c {
        Some(0)
    } else {
        match index_of(s.drop_first(), c) {
            Some(i) => Some(i + 1),
            None => None,
        }
    }
}

/// A found position lies inside the sequence and holds `c`.
pub proof fn lemma_index_of_bound(s: Seq<char>, c: char)
    ensures
        index_of(s, c) matches Some(i) ==> i < s.len() && s[i as int] == c,
    decreases s.len(),
{
    if s.len() > 0 && s[0] != c {
        lemma_index_of_bound(s.drop_first(), c);
    }
}

/// The first `c` is at `j` when `s[j]` is `c` and nothing before it is.
proof fn lemma_index_of_found(s: Seq<char>, c: char, j: int)
    requires
        0 <= j < s.len(),
        s[j] == c,
        forall|k: int| 0 <= k < j ==> s[k] != c,
    ensures
        index_of(s, c) == Some(j as nat),
    decreases j,
{
    if j > 0 {
        lemma_index_of_found(s.drop_first(), c, j - 1);
    }
}

/// There is no `c` in a sequence that holds none.
proof fn lemma_index_of_absent(s: Seq<char>, c: char)
    requires
        forall|k: int| 0 <= k < s.len() ==> s[k] != c,
    ensures
        index_of(s, c) is None,
    decreases s.len(),
{
    if s.len() > 0 {
        lemma_index_of_absent(s.drop_first(), c);
    }
}

/// A line without the carriage return that ended it, if one did.
pub open spec fn strip_cr(l: Seq<char>) -> Seq<char> {
    if l.len() > 0 && l.last() == '\r' {
        l.drop_last()
    } else {
        l
    }
}

/// The lines of a text as `str::lines` yields them: split after each `\n`,
/// which is dropped together with a `\r` just before it; a last line without
/// `\n` is kept as it is, and a final `\n` opens no empty line.
pub open spec fn text_lines(s: Seq<char>) -> Seq<Seq<char>>
    decreases s.len(),
{
    if s.len() == 0 {
        Seq::empty()
    } else {
        match index_of(s, '\n') {
            Some(i) => {
                proof {
                    lemma_index_of_bound(s, '\n');
                }
                seq![strip_cr(s.take(i as int))] + text_lines(s.skip(i as int + 1))
            },
            None => seq![s],
        }
    }
}

/// The pieces of `s` between the occurrences of `c`, as `str::split` yields
/// them; there is always at least one.
pub open spec fn split_on(s: Seq<char>, c: char) -> Seq<Seq<char>>
    decreases s.len(),
{
    match index_of(s, c) {
        Some(i) => {
            proof {
                lemma_index_of_bound(s, c);
            }
            seq![s.take(i as int)] + split_on(s.skip(i as int + 1), c)
        },
        None => seq![s],
    }
}

/// Copies `v[a..b]`.
fn copy_range(v: &Vec<char>, a: usize, b: usize) -> (r: Vec<char>)
    requires
        a <= b <= v@.len(),
    ensures
        r@ == v@.subrange(a as int, b as int),
{
    let mut r: Vec<char> = Vec::new();
    let mut i: usize = a;
    while i < b
        invariant
            a <= i <= b,
            b <= v@.len(),
            r@ == v@.subrange(a as int, i as int),
        decreases b - i,
    {
        r.push(v[i]);
        assert(v@.subrange(a as int, i + 1) =~= v@.subrange(a as int, i as int).push(v@[i as int]));
        i = i + 1;
    }
    r
}

/// The characters of each piece.
pub open spec fn piece_views(v: Seq<Vec<char>>) -> Seq<Seq<char>> {
    v.map_values(|p: Vec<char>| p@)
}

/// Splits a text into its lines, as `str::lines` does.
pub fn split_lines(cs: &Vec<char>) -> (lines: Vec<Vec<char>>)
    ensures
        piece_views(lines@) == text_lines(cs@),
{
    let n = cs.len();
    let mut lines: Vec<Vec<char>> = Vec::new();
    let mut start: usize = 0;
    assert(cs@.skip(0) =~= cs@);
    while start < n
        invariant
            start <= n,
            n == cs@.len(),
            text_lines(cs@) == piece_views(lines@) + text_lines(cs@.skip(start as int)),
        decreases n - start,
    {
        let ghost rest = cs@.skip(start as int);
        let mut j: usize = start;
        while j < n && cs[j] != '\n'
            invariant
                start <= j <= n,
                n == cs@.len(),
                forall|k: int| start <= k < j ==> cs@[k] != '\n',
            decreases n - j,
        {
            j = j + 1;
        }
        if j < n {
            proof {
                assert forall|k: int| 0 <= k < j - start implies rest[k] != '\n' by {
                    assert(rest[k] == cs@[start + k]);
                }
                lemma_index_of_found(rest, '\n', j - start);
                assert(rest.take(j - start) =~= cs@.subrange(start as int, j as int));
                assert(rest.skip(j - start + 1) =~= cs@.skip(j + 1));
            }
            let end: usize = if j > start && cs[j - 1] == '\r' { j - 1 } else { j };
            let line = copy_range(cs, start, end);
            proof {
                assert(line@ == strip_cr(cs@.subrange(start as int, j as int)));
                assert(piece_views(lines@.push(line)) =~= piece_views(lines@).push(line@));
                assert(text_lines(rest) == seq![line@] + text_lines(cs@.skip(j + 1)));
                assert(piece_views(lines@) + text_lines(rest)
                    =~= piece_views(lines@).push(line@) + text_lines(cs@.skip(j + 1)));
            }
            lines.push(line);
            start = j + 1;
        } else {
            proof {
                assert forall|k: int| 0 <= k < rest.len() implies rest[k] != '\n' by {
                    assert(rest[k] == cs@[start + k]);
                }
                lemma_index_of_absent(rest, '\n');
                assert(rest =~= cs@.subrange(start as int, n as int));
                assert(cs@.skip(n as int) =~= Seq::<char>::empty());
            }
            let line = copy_range(cs, start, n);
            proof {
                assert(piece_views(lines@.push(line)) =~= piece_views(lines@).push(line@));
                assert(piece_views(lines@) + text_lines(rest)
                    =~= piece_views(lines@).push(line@) + text_lines(cs@.skip(n as int)));
            }
            lines.push(line);
            start = n;
        }
    }
    assert(cs@.skip(n as int) =~= Seq::<char>::empty());
    assert(piece_views(lines@) + Seq::<Seq<char>>::empty() =~= piece_views(lines@));
    lines
}

/// Whether a character has the Unicode `White_Space` property: the controls
/// U+0009 to U+000D, the space, U+0085, the no-break space U+00A0, U+1680,
/// the spaces U+2000 to U+200A, the line and paragraph separators U+2028 and
/// U+2029, U+202F, U+205F and the ideographic space U+3000.
pub open spec fn white_space(c: char) -> bool {
    let u = c as int;
    ||| 0x09 <= u <= 0x0d
    ||| u == 0x20
    ||| u == 0x85
    ||| u == 0xa0
    ||| u == 0x1680
    ||| 0x2000 <= u <= 0x200a
    ||| u == 0x2028
    ||| u == 0x2029
    ||| u == 0x202f
    ||| u == 0x205f
    ||| u == 0x3000
}

/// Whether `c` has the Unicode `White_Space` property (what
/// `char::is_whitespace` answers).
fn is_white_space(c: char) -> (r: bool)
    ensures
        r == white_space(c),
{
    let u = c as u32;
    (0x09 <= u && u <= 0x0d) || u == 0x20 || u == 0x85 || u == 0xa0 || u == 0x1680
        || (0x2000 <= u && u <= 0x200a) || u == 0x2028 || u == 0x2029 || u == 0x202f
        || u == 0x205f || u == 0x3000
}

/// `s` without its leading white space.
pub open spec fn trim_start(s: Seq<char>) -> Seq<char>
    decreases s.len(),
{
    if s.len() > 0 && white_space(s[0]) {
        trim_start(s.drop_first())
    } else {
        s
    }
}

/// `s` without its trailing white space.
pub open spec fn trim_end(s: Seq<char>) -> Seq<char>
    decreases s.len(),
{
    if s.len() > 0 && white_space(s.last()) {
        trim_end(s.drop_last())
    } else {
        s
    }
}

/// `s` without leading and trailing white space, as `str::trim` gives it.
pub open spec fn trim(s: Seq<char>) -> Seq<char> {
    trim_end(trim_start(s))
}

proof fn lemma_trim_start(s: Seq<char>, a: int)
    requires
        0 <= a <= s.len(),
        forall|k: int| 0 <= k < a ==> white_space(s[k]),
        a == s.len() || !white_space(s[a]),
    ensures
        trim_start(s) == s.skip(a),
    decreases a,
{
    if a == 0 {
        assert(s.skip(0) =~= s);
    } else {
        lemma_trim_start(s.drop_first(), a - 1);
        assert(s.drop_first().skip(a - 1) =~= s.skip(a));
    }
}

proof fn lemma_trim_end(s: Seq<char>, b: int)
    requires
        0 <= b <= s.len(),
        forall|k: int| b <= k < s.len() ==> white_space(s[k]),
        b == 0 || !white_space(s[b - 1]),
    ensures
        trim_end(s) == s.take(b),
    decreases s.len() - b,
{
    if b == s.len() {
        assert(s.take(b) =~= s);
    } else {
        lemma_trim_end(s.drop_last(), b);
        assert(s.drop_last().take(b) =~= s.take(b));
    }
}

/// Trims white space off both ends, as `str::trim` does.
pub fn trim_chars(v: &Vec<char>) -> (r: Vec<char>)
    ensures
        r@ == trim(v@),
{
    let n = v.len();
    let mut a: usize = 0;
    while a < n && is_white_space(v[a])
        invariant
            a <= n,
            n == v@.len(),
            forall|k: int| 0 <= k < a ==> white_space(v@[k]),
        decreases n - a,
    {
        a = a + 1;
    }
    let mut b: usize = n;
    while b > a && is_white_space(v[b - 1])
        invariant
            a <= b <= n,
            n == v@.len(),
            forall|k: int| b <= k < n ==> white_space(v@[k]),
        decreases b,
    {
        b = b - 1;
    }
    proof {
        lemma_trim_start(v@, a as int);
        let t = v@.skip(a as int);
        assert forall|k: int| (b - a) <= k < t.len() implies white_space(t[k]) by {
            assert(t[k] == v@[a + k]);
        }
        if b > a {
            assert(t[b - a - 1] == v@[b - 1]);
        }
        lemma_trim_end(t, b - a);
        assert(t.take(b - a) =~= v@.subrange(a as int, b as int));
    }
    copy_range(v, a, b)
}

/// Splits `v` at each comma, as `str::split(',')` does, and trims each piece.
pub fn split_cells(v: &Vec<char>) -> (cells: Vec<Vec<char>>)
    ensures
        piece_views(cells@) == split_on(v@, ',').map_values(|p: Seq<char>| trim(p)),
{
    let n = v.len();
    let mut cells: Vec<Vec<char>> = Vec::new();
    let mut start: usize = 0;
    let ghost mut pieces: Seq<Seq<char>> = Seq::empty();
    assert(v@.skip(0) =~= v@);
    loop
        invariant
            start <= n,
            n == v@.len(),
            split_on(v@, ',') == pieces + split_on(v@.skip(start as int), ','),
            piece_views(cells@) == pieces.map_values(|p: Seq<char>| trim(p)),
        decreases n - start,
    {
        let ghost rest = v@.skip(start as int);
        let mut j: usize = start;
        while j < n && v[j] != ','
            invariant
                start <= j <= n,
                n == v@.len(),
                forall|k: int| start <= k < j ==> v@[k] != ',',
            decreases n - j,
        {
            j = j + 1;
        }
        let piece = copy_range(v, start, j);
        let cell = trim_chars(&piece);
        proof {
            assert(piece_views(cells@.push(cell)) =~= piece_views(cells@).push(cell@));
            assert(pieces.push(piece@).map_values(|p: Seq<char>| trim(p))
                =~= pieces.map_values(|p: Seq<char>| trim(p)).push(trim(piece@)));
        }
        if j < n {
            proof {
                assert forall|k: int| 0 <= k < j - start implies rest[k] != ',' by {
                    assert(rest[k] == v@[start + k]);
                }
                lemma_index_of_found(rest, ',', j - start);
                assert(rest.take(j - start) =~= piece@);
                assert(rest.skip(j - start + 1) =~= v@.skip(j + 1));
                assert(pieces + split_on(rest, ',') =~= pieces.push(piece@) + split_on(v@.skip(j + 1), ','));
                pieces = pieces.push(piece@);
            }
            cells.push(cell);
            start = j + 1;
        } else {
            proof {
                assert forall|k: int| 0 <= k < rest.len() implies rest[k] != ',' by {
                    assert(rest[k] == v@[start + k]);
                }
                lemma_index_of_absent(rest, ',');
                assert(rest =~= piece@);
                assert(split_on(v@, ',') =~= pieces.push(piece@));
                pieces = pieces.push(piece@);
            }
            cells.push(cell);
            return cells;
        }
    }
}

/// The integer a decimal text denotes, by the syntax of `i64::from_str`: an
/// optional `+` or `-` sign, then one or more ASCII digits and nothing else.
pub open spec fn int_text_value(s: Seq<char>) -> Option<int> {
    if s.len() >= 2 && s[0] == '-' && all_digits(s.drop_first()) {
        Some(-(digits_value(s.drop_first()) as int))
    } else if s.len() >= 2 && s[0] == '+' && all_digits(s.drop_first()) {
        Some(digits_value(s.drop_first()) as int)
    } else if s.len() >= 1 && all_digits(s) {
        Some(digits_value(s) as int)
    } else {
        None
    }
}

/// What `str::parse::<i64>` gives for a text: the value, or the text of the
/// parse error.
pub uninterp spec fn int_parse(s: Seq<char>) -> Result<i64, Seq<char>>;

/// `str::parse::<i64>`, its error rendered by its `Display`. As documented,
/// it succeeds exactly on an optional sign followed by decimal digits whose
/// value fits in `i64`, and then returns that value. The error's wording is
/// left to the name `int_parse`.
#[verifier::external_body]
fn parse_i64(s: &str) -> (r: Result<i64, String>)
    ensures
        match r {
            Ok(v) => int_parse(s@) == Ok::<i64, Seq<char>>(v),
            Err(m) => int_parse(s@) == Err::<i64, Seq<char>>(m@),
        },
        r is Ok <==> (int_text_value(s@) matches Some(v) && i64::MIN <= v <= i64::MAX),
        r matches Ok(v) ==> int_text_value(s@) == Some(v as int),
{
    match s.parse::<i64>() {
        Ok(v) => Ok(v),
        Err(e) => Err(e.to_string()),
    }
}

/// The timestamp a cell holds: the integer its text denotes, where that fits
/// in an `i64`.
pub open spec fn timestamp_of(s: Seq<char>) -> Option<i64> {
    match int_text_value(s) {
        Some(v) => if i64::MIN <= v <= i64::MAX {
            Some(v as i64)
        } else {
            None
        },
        None => None,
    }
}

/// The text of the error `str::parse::<i64>` gives for a cell it refuses.
pub open spec fn int_error_text(s: Seq<char>) -> Seq<char> {
    match int_parse(s) {
        Err(m) => m,
        Ok(_) => Seq::empty(),
    }
}

/// `CSV line <n>: `
pub open spec fn line_prefix(n: nat) -> Seq<char> {
    seq!['C', 'S', 'V', ' ', 'l', 'i', 'n', 'e', ' '] + decimal(n) + seq![':', ' ']
}

/// `CSV line <n>: <field>: <reason>`
pub open spec fn cell_error_text(n: nat, field: Seq<char>, reason: Seq<char>) -> Seq<char> {
    line_prefix(n) + field + seq![':', ' '] + reason
}

/// The refusal of a row whose `field` cell does not read as a number, on line
/// `line`, for the given reason: `CSV line <n>: <field>: <reason>`.
pub fn cell_error(line: usize, field: &str, reason: &str) -> (s: String)
    ensures
        s@ == cell_error_text(line as nat, field@, reason@),
{
    let head = concat("CSV line ", decimal_string(line).as_str());
    let mid = concat(head.as_str(), ": ");
    let named = concat(mid.as_str(), field);
    let sep = concat(named.as_str(), ": ");
    let s = concat(sep.as_str(), reason);
    proof {
        reveal_strlit("CSV line ");
        reveal_strlit(": ");
        assert(s@ =~= cell_error_text(line as nat, field@, reason@));
    }
    s
}

/// `CSV line <n>: expected 6 columns, got <got>`
pub open spec fn columns_error(n: nat, got: nat) -> Seq<char> {
    line_prefix(n) + seq!['e', 'x', 'p', 'e', 'c', 't', 'e', 'd', ' ', '6', ' ', 'c', 'o', 'l', 'u', 'm', 'n', 's',
        ',', ' ', 'g', 'o', 't', ' '] + decimal(got)
}

/// `CSV line <n>: bad ts: <reason>`
pub open spec fn timestamp_error(n: nat, reason: Seq<char>) -> Seq<char> {
    line_prefix(n) + seq!['b', 'a', 'd', ' ', 't', 's', ':', ' '] + reason
}

/// What line `idx` (from 0) of a candle CSV yields: nothing for a blank line
/// or a header (a first line whose first cell is no timestamp), a row (its
/// timestamp and its five other cells, trimmed), or the reason it is refused.
pub open spec fn line_outcome(idx: nat, line: Seq<char>) -> Result<Option<(i64, Seq<Seq<char>>)>, Seq<char>> {
    let t = trim(line);
    if t.len() == 0 {
        Ok(None)
    } else {
        let cells = split_on(t, ',').map_values(|p: Seq<char>| trim(p));
        if cells.len() < 6 {
            Err(columns_error(idx + 1, cells.len()))
        } else {
            match timestamp_of(cells[0]) {
                Some(time) => Ok(Some((time, cells.subrange(1, 6)))),
                None => if idx == 0 {
                    Ok(None)
                } else {
                    Err(timestamp_error(idx + 1, int_error_text(cells[0])))
                },
            }
        }
    }
}

/// The rows read from the first `n` lines (each with its line number), and
/// the first refusal among them, after which nothing more is read.
pub open spec fn scan_lines(lines: Seq<Seq<char>>, n: nat) -> (Seq<(nat, i64, Seq<Seq<char>>)>, Option<Seq<char>>)
    decreases n,
{
    if n == 0 || n > lines.len() {
        (Seq::empty(), None)
    } else {
        let prev = scan_lines(lines, (n - 1) as nat);
        if prev.1 is Some {
            prev
        } else {
            match line_outcome((n - 1) as nat, lines[n - 1]) {
                Ok(None) => prev,
                Ok(Some(row)) => (prev.0.push((n, row.0, row.1)), None),
                Err(m) => (prev.0, Some(m)),
            }
        }
    }
}

/// Once a line is refused, the later lines change nothing.
proof fn lemma_scan_stops(lines: Seq<Seq<char>>, k: nat, n: nat)
    requires
        k <= n <= lines.len(),
        scan_lines(lines, k).1 is Some,
    ensures
        scan_lines(lines, n) == scan_lines(lines, k),
    decreases n - k,
{
    if n > k {
        lemma_scan_stops(lines, k, (n - 1) as nat);
    }
}

/// One data row of a candle CSV: its line number (from 1), its timestamp, and
/// its price and volume cells as text.
#[derive(Debug)]
pub struct CsvRow {
    pub line: usize,
    pub time: i64,
    pub open: String,
    pub high: String,
    pub low: String,
    pub close: String,
    pub volume: String,
}

/// A row as the specification sees it.
pub open spec fn row_view(r: CsvRow) -> (nat, i64, Seq<Seq<char>>) {
    (r.line as nat, r.time, seq![r.open@, r.high@, r.low@, r.close@, r.volume@])
}

/// The rows read from a candle CSV, up to the first line it refuses, and the
/// reason for that refusal, if there was one.
#[derive(Debug)]
pub struct CsvScan {
    pub rows: Vec<CsvRow>,
    pub error: Option<String>,
}

/// What a line of at least six cells yields, given what reading its first
/// cell as an `i64` gave: a row (line `idx + 1`, that timestamp, the next five
/// cells); on a failed read, nothing on the first line (a header) and on any
/// other line the refusal `CSV line <n>: bad ts: <reason>`.
pub fn read_row(idx: usize, cells: &Vec<Vec<char>>, ts: Result<i64, String>) -> (r: Result<Option<CsvRow>, String>)
    requires
        cells@.len() >= 6,
        idx < usize::MAX,
    ensures
        match ts {
            Ok(t) => (r matches Ok(Some(row))
                && row_view(row) == ((idx + 1) as nat, t, piece_views(cells@).subrange(1, 6))
                && row.line == idx + 1
                && row.time == t
                && row.open@ == cells@[1]@
                && row.high@ == cells@[2]@
                && row.low@ == cells@[3]@
                && row.close@ == cells@[4]@
                && row.volume@ == cells@[5]@),
            Err(m) => if idx == 0 {
                r matches Ok(None)
            } else {
                (r matches Err(e) && e@ == timestamp_error((idx + 1) as nat, m@))
            },
        },
{
    match ts {
        Ok(time) => {
            let row = CsvRow {
                line: idx + 1,
                time,
                open: string_of(&cells[1]),
                high: string_of(&cells[2]),
                low: string_of(&cells[3]),
                close: string_of(&cells[4]),
                volume: string_of(&cells[5]),
            };
            assert(row_view(row).2 =~= piece_views(cells@).subrange(1, 6));
            Ok(Some(row))
        },
        Err(reason) => {
            if idx == 0 {
                return Ok(None);
            }
            let head = concat("CSV line ", decimal_string(idx + 1).as_str());
            let mid = concat(head.as_str(), ": bad ts: ");
            let m = concat(mid.as_str(), reason.as_str());
            proof {
                reveal_strlit("CSV line ");
                reveal_strlit(": bad ts: ");
                assert(m@ =~= timestamp_error((idx + 1) as nat, reason@));
            }
            Err(m)
        },
    }
}

/// Reads a `ts,open,high,low,close,volume` CSV. Each line is trimmed; blank
/// lines are skipped; a line of fewer than six comma-separated cells is
/// refused; the `ts` cell must be an `i64` (on the first line a cell that is
/// not is the header, and the line is skipped); later cells are ignored. The
/// scan stops at the first refused line. The five price and volume cells of
/// each row are handed back as text: a row whose cells do not read as numbers
/// refuses the file at its line, before any later refusal.
pub fn parse_csv(content: &str) -> (r: CsvScan)
    ensures
        ({
            let lines = text_lines(content@);
            let expect = scan_lines(lines, lines.len());
            &&& r.rows@.map_values(|x: CsvRow| row_view(x)) == expect.0
            &&& r.rows@.len() == expect.0.len()
            &&& forall|k: int| 0 <= k < r.rows@.len() ==> {
                let row = #[trigger] r.rows@[k];
                let want = expect.0[k];
                &&& row.line == want.0
                &&& row.time == want.1
                &&& row.open@ == want.2[0]
                &&& row.high@ == want.2[1]
                &&& row.low@ == want.2[2]
                &&& row.close@ == want.2[3]
                &&& row.volume@ == want.2[4]
            }
            &&& match r.error {
                Some(m) => expect.1 == Some(m@),
                None => expect.1 is None,
            }
        }),
{
    let cs = chars_of(content);
    let lines = split_lines(&cs);
    let ghost ls = text_lines(content@);
    let mut rows: Vec<CsvRow> = Vec::new();
    let mut idx: usize = 0;
    while idx < lines.len()
        invariant
            idx <= lines@.len(),
            ls == piece_views(lines@),
            ls.len() == lines@.len(),
            ls == text_lines(content@),
            scan_lines(ls, idx as nat).1 is None,
            rows@.map_values(|x: CsvRow| row_view(x)) == scan_lines(ls, idx as nat).0,
        decreases lines@.len() - idx,
    {
        let ghost prev = scan_lines(ls, idx as nat);
        let ghost rows_before = rows@;
        assert(ls[idx as int] == lines@[idx as int]@);
        let line = trim_chars(&lines[idx]);
        if line.len() == 0 {
            idx = idx + 1;
            continue;
        }
        let cells = split_cells(&line);
        let ghost cv = split_on(line@, ',').map_values(|p: Seq<char>| trim(p));
        assert(piece_views(cells@).len() == cells@.len());
        if cells.len() < 6 {
            let head = concat("CSV line ", decimal_string(idx + 1).as_str());
            let mid = concat(head.as_str(), ": expected 6 columns, got ");
            let m = concat(mid.as_str(), decimal_string(cells.len()).as_str());
            proof {
                reveal_strlit("CSV line ");
                reveal_strlit(": expected 6 columns, got ");
                assert(m@ =~= columns_error((idx + 1) as nat, cells@.len() as nat));
                assert(line_outcome(idx as nat, ls[idx as int]) == Err::<Option<(i64, Seq<Seq<char>>)>, Seq<char>>(m@));
                assert(scan_lines(ls, (idx + 1) as nat).1 == Some(m@));
                lemma_scan_stops(ls, (idx + 1) as nat, ls.len());
            }
            return CsvScan { rows, error: Some(m) };
        }
        assert(cells@[0]@ == cv[0]);
        let ts_text = string_of(&cells[0]);
        let ts = parse_i64(ts_text.as_str());
        let ghost ts_g = ts;
        let outcome = read_row(idx, &cells, ts);
        proof {
            assert(piece_views(cells@) == cv);
        }
        match outcome {
            Ok(Some(row)) => {
                proof {
                    assert(rows@.push(row).map_values(|x: CsvRow| row_view(x))
                        =~= rows@.map_values(|x: CsvRow| row_view(x)).push(row_view(row)));
                }
                rows.push(row);
            },
            Ok(None) => {},
            Err(m) => {
                proof {
                    assert(scan_lines(ls, (idx + 1) as nat).1 == Some(m@));
                    lemma_scan_stops(ls, (idx + 1) as nat, ls.len());
                }
                return CsvScan { rows, error: Some(m) };
            },
        }
        idx = idx + 1;
    }
    CsvScan { rows, error: None }
}

} // verus!
