//! The Nasdaq Trader symbol directory: which files exist, where they are
//! served, and how their pipe-delimited tables read.
//!
//! Files are pipe-delimited with a `File Creation Time` trailer row.

use crate::text::{chars_of, is_space, is_space_char, push_char};
use vstd::prelude::*;

verus! {

/// Errors of reading directory tables.
#[derive(Debug, Clone, PartialEq, Eq)]
pub enum Error {
    /// The file has no header line.
    Malformed { file: String },
    /// No column has the requested header.
    MissingColumn { file: String, column: String, available: Vec<String> },
}

/// Known symbol-directory files.
#[derive(Debug, Clone, Copy, PartialEq, Eq, Structural)]
pub enum DirectoryFile {
    /// Nasdaq-listed equities (`nasdaqlisted.txt`).
    NasdaqListed,
    /// NYSE/AMEX/other-listed equities (`otherlisted.txt`).
    OtherListed,
    /// All Nasdaq-traded symbols (`nasdaqtraded.txt`).
    NasdaqTraded,
    /// Listed bonds (`bondslist.txt`).
    Bonds,
    /// Options directory (`options.txt`).
    Options,
    /// Mutual funds (`mfundslist.txt`).
    MutualFunds,
}

pub open spec fn spec_file_name(f: DirectoryFile) -> Seq<char> {
    match f {
        DirectoryFile::NasdaqListed => "nasdaqlisted.txt"@,
        DirectoryFile::OtherListed => "otherlisted.txt"@,
        DirectoryFile::NasdaqTraded => "nasdaqtraded.txt"@,
        DirectoryFile::Bonds => "bondslist.txt"@,
        DirectoryFile::Options => "options.txt"@,
        DirectoryFile::MutualFunds => "mfundslist.txt"@,
    }
}

pub open spec fn spec_symbol_column(f: DirectoryFile) -> Seq<char> {
    match f {
        DirectoryFile::OtherListed => "ACT Symbol"@,
        _ => "Symbol"@,
    }
}

/// Where the HTTPS mirror serves the directory files.
pub const HTTPS_BASE: &'static str = "https://www.nasdaqtrader.com/dynamic/SymDir";

impl DirectoryFile {
    pub fn file_name(self) -> (name: &'static str)
        ensures
            name@ == spec_file_name(self),
    {
        match self {
            DirectoryFile::NasdaqListed => "nasdaqlisted.txt",
            DirectoryFile::OtherListed => "otherlisted.txt",
            DirectoryFile::NasdaqTraded => "nasdaqtraded.txt",
            DirectoryFile::Bonds => "bondslist.txt",
            DirectoryFile::Options => "options.txt",
            DirectoryFile::MutualFunds => "mfundslist.txt",
        }
    }

    /// Symbol column header for this file.
    pub fn symbol_column(self) -> (name: &'static str)
        ensures
            name@ == spec_symbol_column(self),
    {
        match self {
            DirectoryFile::OtherListed => "ACT Symbol",
            _ => "Symbol",
        }
    }

    /// The HTTPS address of this file: the mirror's base, a slash, the name.
    pub fn https_url(self) -> (url: String)
        ensures
            url@ == HTTPS_BASE@ + seq!['/'] + spec_file_name(self),
    {
        let mut url = HTTPS_BASE.to_owned();
        push_char(&mut url, '/');
        let name = chars_of(self.file_name());
        let mut i: usize = 0;
        while i < name.len()
            invariant
                i <= name@.len(),
                name@ == spec_file_name(self),
                url@ == HTTPS_BASE@ + seq!['/'] + name@.take(i as int),
            decreases name@.len() - i,
        {
            push_char(&mut url, name[i]);
            i = i + 1;
            assert(name@.take(i as int) =~= name@.take(i - 1).push(name@[i - 1]));
        }
        assert(name@.take(name@.len() as int) =~= name@);
        url
    }
}

// --- tables ------------------------------------------------------------------

/// Offset of the first `c` in `s`, or the length of `s` when there is none.
pub open spec fn find_char(s: Seq<char>, c: char) -> int
    decreases s.len(),
{
    if s.len() == 0 {
        0
    } else if s[0] == c {
        0
    } else {
        1 + find_char(s.drop_first(), c)
    }
}

pub proof fn lemma_find_char(s: Seq<char>, c: char)
    ensures
        0 <= find_char(s, c) <= s.len(),
        find_char(s, c) < s.len() ==> s[find_char(s, c)] == c,
        forall|j: int| 0 <= j < find_char(s, c) ==> s[j] != c,
    decreases s.len(),
{
    if s.len() > 0 && s[0] != c {
        lemma_find_char(s.drop_first(), c);
        assert forall|j: int| 0 <= j < find_char(s, c) implies s[j] != c by {
            if j > 0 {
                assert(s[j] == s.drop_first()[j - 1]);
            }
        }
    }
}

/// A line without its carriage return.
pub open spec fn strip_cr(l: Seq<char>) -> Seq<char> {
    if l.len() > 0 && l.last() == '\r' {
        l.drop_last()
    } else {
        l
    }
}

/// The lines of a text as `str::lines` gives them: split after each `\n`,
/// each line without its `\n` and then without one `\r` before it; no empty
/// line after a final `\n`.
pub open spec fn lines(s: Seq<char>) -> Seq<Seq<char>>
    decreases s.len(),
{
    if s.len() == 0 {
        Seq::empty()
    } else {
        let i = find_char(s, '\n');
        proof {
            lemma_find_char(s, '\n');
        }
        if i < s.len() {
            seq![strip_cr(s.take(i))] + lines(s.skip(i + 1))
        } else {
            seq![s]
        }
    }
}

/// The pieces of `l` between occurrences of `c`; always at least one.
pub open spec fn split_on(l: Seq<char>, c: char) -> Seq<Seq<char>>
    decreases l.len(),
{
    let i = find_char(l, c);
    proof {
        lemma_find_char(l, c);
    }
    if i < l.len() {
        seq![l.take(i)] + split_on(l.skip(i + 1), c)
    } else {
        seq![l]
    }
}

/// `fields` cut or padded with empty strings to exactly `w` fields.
pub open spec fn pad(fields: Seq<Seq<char>>, w: nat) -> Seq<Seq<char>> {
    if fields.len() >= w {
        fields.take(w as int)
    } else {
        fields + Seq::new((w - fields.len()) as nat, |i: int| Seq::<char>::empty())
    }
}

pub open spec fn trailer_prefix() -> Seq<char> {
    "File Creation Time"@
}

/// Lines that hold no row: the file's trailer, and blank lines.
pub open spec fn skipped(line: Seq<char>) -> bool {
    ||| (line.len() >= trailer_prefix().len() && line.take(trailer_prefix().len() as int)
        == trailer_prefix())
    ||| forall|i: int| 0 <= i < line.len() ==> is_space(#[trigger] line[i])
}

/// The rows that data lines give, each split on `|` and padded to `w` fields.
pub open spec fn table_rows(ls: Seq<Seq<char>>, w: nat) -> Seq<Seq<Seq<char>>>
    decreases ls.len(),
{
    if ls.len() == 0 {
        Seq::empty()
    } else {
        let prev = table_rows(ls.drop_last(), w);
        if skipped(ls.last()) {
            prev
        } else {
            prev.push(pad(split_on(ls.last(), '|'), w))
        }
    }
}

/// Position of the first occurrence of `name` in `hs`, or the length of `hs`.
pub open spec fn position(hs: Seq<Seq<char>>, name: Seq<char>) -> int
    decreases hs.len(),
{
    if hs.len() == 0 {
        0
    } else if hs[0] == name {
        0
    } else {
        1 + position(hs.drop_first(), name)
    }
}

pub proof fn lemma_position(hs: Seq<Seq<char>>, name: Seq<char>)
    ensures
        0 <= position(hs, name) <= hs.len(),
        position(hs, name) < hs.len() ==> hs[position(hs, name)] == name,
        forall|j: int| 0 <= j < position(hs, name) ==> hs[j] != name,
    decreases hs.len(),
{
    if hs.len() > 0 && hs[0] != name {
        lemma_position(hs.drop_first(), name);
        assert forall|j: int| 0 <= j < position(hs, name) implies hs[j] != name by {
            if j > 0 {
                assert(hs[j] == hs.drop_first()[j - 1]);
            }
        }
    }
}

/// A parsed pipe-delimited directory table: ordered headers + rows.
#[derive(Debug, Clone)]
pub struct Table {
    pub headers: Vec<String>,
    pub rows: Vec<Vec<String>>,
}

/// Offset, from `a`, of the first `c` in `cs[a..b]`.
fn find_from(cs: &Vec<char>, a: usize, b: usize, c: char) -> (i: usize)
    requires
        a <= b <= cs@.len(),
    ensures
        i - a == find_char(cs@.subrange(a as int, b as int), c),
        a <= i <= b,
{
    let mut i = a;
    while i < b && cs[i] != c
        invariant
            a <= i <= b <= cs@.len(),
            find_char(cs@.subrange(a as int, b as int), c) == (i - a) + find_char(
                cs@.subrange(i as int, b as int),
                c,
            ),
        decreases b - i,
    {
        assert(cs@.subrange(i as int, b as int).drop_first() =~= cs@.subrange(i + 1, b as int));
        i = i + 1;
    }
    i
}

/// `cs[a..b]` as a string.
fn range_string(cs: &Vec<char>, a: usize, b: usize) -> (s: String)
    requires
        a <= b <= cs@.len(),
    ensures
        s@ == cs@.subrange(a as int, b as int),
{
    let mut s = String::new();
    let mut i = a;
    while i < b
        invariant
            a <= i <= b <= cs@.len(),
            s@ == cs@.subrange(a as int, i as int),
        decreases b - i,
    {
        push_char(&mut s, cs[i]);
        i = i + 1;
        assert(s@ =~= cs@.subrange(a as int, i as int));
    }
    s
}

/// The `|`-separated fields of `cs[a..b]`.
fn split_fields(cs: &Vec<char>, a: usize, b: usize) -> (fields: Vec<String>)
    requires
        a <= b <= cs@.len(),
    ensures
        fields.deep_view() == split_on(cs@.subrange(a as int, b as int), '|'),
{
    let mut fields: Vec<String> = Vec::new();
    let mut start = a;
    loop
        invariant
            a <= start <= b <= cs@.len(),
            split_on(cs@.subrange(a as int, b as int), '|') == fields.deep_view() + split_on(
                cs@.subrange(start as int, b as int),
                '|',
            ),
        decreases b - start,
    {
        let ghost rest = cs@.subrange(start as int, b as int);
        let i = find_from(cs, start, b, '|');
        proof {
            lemma_find_char(rest, '|');
        }
        let piece = range_string(cs, start, i);
        if i < b {
            proof {
                assert(rest.take(i - start) =~= piece@);
                assert(rest.skip(i - start + 1) =~= cs@.subrange(i + 1, b as int));
                assert(fields.deep_view().push(piece@) + split_on(cs@.subrange(i + 1, b as int), '|')
                    =~= fields.deep_view() + split_on(rest, '|'));
            }
            fields.push(piece);
            start = i + 1;
        } else {
            proof {
                assert(rest =~= piece@);
                assert(fields.deep_view().push(piece@) =~= fields.deep_view() + split_on(rest, '|'));
            }
            fields.push(piece);
            return fields;
        }
    }
}

/// Whether the line `cs[a..b]` holds no row.
fn is_skipped(cs: &Vec<char>, a: usize, b: usize) -> (r: bool)
    requires
        a <= b <= cs@.len(),
    ensures
        r == skipped(cs@.subrange(a as int, b as int)),
{
    let line = Ghost(cs@.subrange(a as int, b as int));
    let prefix = ['F', 'i', 'l', 'e', ' ', 'C', 'r', 'e', 'a', 't', 'i', 'o', 'n', ' ', 'T', 'i', 'm', 'e'];
    proof {
        reveal_strlit("File Creation Time");
        assert(prefix@ =~= trailer_prefix());
    }
    if b - a >= 18 {
        let mut k: usize = 0;
        while k < 18 && cs[a + k] == prefix[k]
            invariant
                k <= 18,
                a + 18 <= b <= cs@.len(),
                prefix@ == trailer_prefix(),
                line@ == cs@.subrange(a as int, b as int),
                forall|j: int| 0 <= j < k ==> line@[j] == prefix@[j],
            decreases 18 - k,
        {
            k = k + 1;
        }
        if k == 18 {
            assert(line@.take(18) =~= trailer_prefix());
            return true;
        }
        assert(line@[k as int] != trailer_prefix()[k as int]);
    }
    let mut i = a;
    while i < b
        invariant
            a <= i <= b <= cs@.len(),
            line@ == cs@.subrange(a as int, b as int),
            forall|j: int| 0 <= j < i - a ==> is_space(#[trigger] line@[j]),
            !(line@.len() >= trailer_prefix().len() && line@.take(trailer_prefix().len() as int)
                == trailer_prefix()),
        decreases b - i,
    {
        if !is_space_char(cs[i]) {
            assert(!is_space(line@[i - a]));
            return false;
        }
        i = i + 1;
    }
    true
}


/// The line starting at `pos`: where its text ends (before `\r\n` or `\n`)
/// and where the next line starts.
fn line_at(cs: &Vec<char>, pos: usize) -> (r: (usize, usize))
    requires
        pos < cs@.len(),
    ensures
        pos <= r.0 <= r.1 <= cs@.len(),
        pos < r.1,
        lines(cs@.skip(pos as int)) == seq![cs@.subrange(pos as int, r.0 as int)] + lines(
            cs@.skip(r.1 as int),
        ),
{
    let n = cs.len();
    let ghost s = cs@.skip(pos as int);
    let i = find_from(cs, pos, n, '\n');
    proof {
        assert(cs@.subrange(pos as int, n as int) =~= s);
        lemma_find_char(s, '\n');
    }
    if i < n {
        let end = if i > pos && cs[i - 1] == '\r' {
            i - 1
        } else {
            i
        };
        proof {
            assert(strip_cr(s.take(i - pos)) =~= cs@.subrange(pos as int, end as int));
            assert(s.skip(i - pos + 1) =~= cs@.skip(i + 1));
        }
        (end, i + 1)
    } else {
        proof {
            assert(s =~= cs@.subrange(pos as int, n as int));
            assert(lines(cs@.skip(n as int)) =~= Seq::<Seq<char>>::empty());
            assert(seq![s] + Seq::<Seq<char>>::empty() =~= seq![s]);
        }
        (n, n)
    }
}

proof fn lemma_push_string(before: Vec<String>, after: Vec<String>, x: String)
    requires
        after@ == before@.push(x),
    ensures
        after.deep_view() == before.deep_view().push(x@),
{
    assert(after.deep_view() =~= before.deep_view().push(x@));
}

/// Cuts or pads `row` with empty strings to exactly `w` fields.
fn pad_row(row: &mut Vec<String>, w: usize)
    ensures
        final(row).deep_view() == pad(old(row).deep_view(), w as nat),
{
    if row.len() >= w {
        row.truncate(w);
        assert(row.deep_view() =~= pad(old(row).deep_view(), w as nat));
    } else {
        while row.len() < w
            invariant
                old(row).len() <= row.len() <= w,
                row.deep_view() == old(row).deep_view() + Seq::new(
                    (row.len() - old(row).len()) as nat,
                    |i: int| Seq::<char>::empty(),
                ),
            decreases w - row.len(),
        {
            let ghost prev = *row;
            let e = String::new();
            row.push(e);
            proof {
                lemma_push_string(prev, *row, e);
            }
            assert(row.deep_view() =~= old(row).deep_view() + Seq::new(
                (row.len() - old(row).len()) as nat,
                |i: int| Seq::<char>::empty(),
            ));
        }
    }
}

/// One row as header -> value pairs, in column order.
#[derive(Debug, Clone)]
pub struct Record {
    fields: Vec<(String, String)>,
}

impl View for Record {
    type V = Seq<(Seq<char>, Seq<char>)>;

    closed spec fn view(&self) -> Seq<(Seq<char>, Seq<char>)> {
        self.fields@.map_values(|p: (String, String)| (p.0@, p.1@))
    }
}

/// The value of the last pair named `key`.
pub open spec fn lookup(pairs: Seq<(Seq<char>, Seq<char>)>, key: Seq<char>) -> Option<Seq<char>>
    decreases pairs.len(),
{
    if pairs.len() == 0 {
        None
    } else if pairs.last().0 == key {
        Some(pairs.last().1)
    } else {
        lookup(pairs.drop_last(), key)
    }
}

/// Headers paired with a row's values, as far as both go.
pub open spec fn zip_pairs(hs: Seq<Seq<char>>, row: Seq<Seq<char>>) -> Seq<(Seq<char>, Seq<char>)> {
    Seq::new(
        if hs.len() <= row.len() {
            hs.len()
        } else {
            row.len()
        },
        |i: int| (hs[i], row[i]),
    )
}

impl Record {
    /// The value under `key`; where a header repeats, the last one counts.
    pub fn get(&self, key: &str) -> (r: Option<&str>)
        ensures
            match lookup(self@, key@) {
                Some(v) => r matches Some(s) && s@ == v,
                None => r is None,
            },
    {
        let k = key.to_owned();
        let mut i = self.fields.len();
        assert(self@.take(i as int) =~= self@);
        while i > 0
            invariant
                i <= self.fields@.len(),
                k@ == key@,
                lookup(self@, key@) == lookup(self@.take(i as int), key@),
            decreases i,
        {
            proof {
                assert(self@.take(i as int).drop_last() =~= self@.take(i - 1));
                assert(self@.take(i as int).last() == (self.fields@[i - 1].0@, self.fields@[i - 1].1@));
            }
            if self.fields[i - 1].0 == k {
                return Some(self.fields[i - 1].1.as_str());
            }
            i = i - 1;
        }
        None
    }

    /// The pairs, in column order.
    pub fn fields(&self) -> (f: &[(String, String)])
        ensures
            f@.map_values(|p: (String, String)| (p.0@, p.1@)) == self@,
    {
        self.fields.as_slice()
    }
}

/// Whether every row is long enough for the column named `name`.
pub open spec fn column_fits(hs: Seq<Seq<char>>, rows: Seq<Seq<Seq<char>>>, name: Seq<char>) -> bool {
    position(hs, name) < hs.len() ==> forall|r: int|
        0 <= r < rows.len() ==> position(hs, name) < #[trigger] rows[r].len()
}

impl Table {
    pub fn parse(file: &str, content: &str) -> (r: Result<Table, Error>)
        ensures
            match r {
                Ok(t) => {
                    &&& lines(content@).len() > 0
                    &&& t.headers.deep_view() == split_on(lines(content@)[0], '|')
                    &&& t.rows.deep_view() == table_rows(
                        lines(content@).drop_first(),
                        t.headers.len() as nat,
                    )
                },
                Err(e) => {
                    &&& lines(content@).len() == 0
                    &&& e matches Error::Malformed { file: f } && f@ == file@
                },
            },
    {
        let cs = chars_of(content);
        let n = cs.len();
        if n == 0 {
            return Err(Error::Malformed { file: file.to_owned() });
        }
        let (end, next) = line_at(&cs, 0);
        let headers = split_fields(&cs, 0, end);
        let w = headers.len();
        let ghost header_line = cs@.subrange(0, end as int);
        let ghost mut data_lines: Seq<Seq<char>> = Seq::empty();
        let mut rows: Vec<Vec<String>> = Vec::new();
        let mut pos = next;
        proof {
            assert(cs@.skip(0) =~= cs@);
            assert(seq![header_line] + data_lines + lines(cs@.skip(pos as int)) =~= seq![header_line] + lines(cs@.skip(pos as int)));
        }
        while pos < n
            invariant
                pos <= n == cs@.len(),
                cs@ == content@,
                w == headers.len(),
                headers.deep_view() == split_on(header_line, '|'),
                lines(cs@) == seq![header_line] + data_lines + lines(cs@.skip(pos as int)),
                rows.deep_view() == table_rows(data_lines, w as nat),
            decreases n - pos,
        {
            let (end, next) = line_at(&cs, pos);
            let ghost line = cs@.subrange(pos as int, end as int);
            if !is_skipped(&cs, pos, end) {
                let mut row = split_fields(&cs, pos, end);
                pad_row(&mut row, w);
                rows.push(row);
            }
            proof {
                assert(data_lines.push(line).drop_last() =~= data_lines);
                assert(rows.deep_view() =~= table_rows(data_lines.push(line), w as nat));
                assert(seq![header_line] + data_lines + lines(cs@.skip(pos as int)) =~= seq![
                    header_line,
                ] + data_lines.push(line) + lines(cs@.skip(next as int)));
                data_lines = data_lines.push(line);
            }
            pos = next;
        }
        proof {
            assert(lines(cs@.skip(pos as int)) =~= Seq::<Seq<char>>::empty());
            assert(lines(cs@) =~= seq![header_line] + data_lines);
            assert(lines(cs@).drop_first() =~= data_lines);
        }
        Ok(Table { headers, rows })
    }

    /// Index of a column by header name.
    pub fn column_index(&self, name: &str) -> (r: Option<usize>)
        ensures
            match r {
                Some(i) => i == position(self.headers.deep_view(), name@) && i < self.headers.len(),
                None => position(self.headers.deep_view(), name@) == self.headers.len(),
            },
    {
        proof {
            lemma_position(self.headers.deep_view(), name@);
        }
        let key = name.to_owned();
        let mut i: usize = 0;
        while i < self.headers.len()
            invariant
                i <= self.headers.len(),
                key@ == name@,
                forall|j: int| 0 <= j < i ==> self.headers.deep_view()[j] != name@,
                0 <= position(self.headers.deep_view(), name@) <= self.headers.len(),
                position(self.headers.deep_view(), name@) < self.headers.len() ==> self.headers.deep_view()[position(self.headers.deep_view(), name@)] == name@,
                forall|j: int| 0 <= j < position(self.headers.deep_view(), name@) ==> self.headers.deep_view()[j] != name@,
            decreases self.headers.len() - i,
        {
            if self.headers[i] == key {
                assert(self.headers.deep_view()[i as int] == name@);
                return Some(i);
            }
            assert(self.headers.deep_view()[i as int] != name@);
            i = i + 1;
        }
        None
    }

    /// All values in a named column.
    pub fn column(&self, file: &str, name: &str) -> (r: Result<Vec<String>, Error>)
        requires
            column_fits(self.headers.deep_view(), self.rows.deep_view(), name@),
        ensures
            match r {
                Ok(v) => {
                    let c = position(self.headers.deep_view(), name@);
                    &&& c < self.headers.len()
                    &&& v.deep_view() == Seq::new(
                        self.rows.len() as nat,
                        |i: int| self.rows.deep_view()[i][c],
                    )
                },
                Err(e) => {
                    &&& position(self.headers.deep_view(), name@) == self.headers.len()
                    &&& e matches Error::MissingColumn { file: f, column, available }
                        && f@ == file@ && column@ == name@ && available.deep_view()
                        == self.headers.deep_view()
                },
            },
    {
        let idx = match self.column_index(name) {
            Some(i) => i,
            None => {
                let mut available: Vec<String> = Vec::new();
                let mut j: usize = 0;
                while j < self.headers.len()
                    invariant
                        j <= self.headers.len(),
                        available.deep_view() == self.headers.deep_view().take(j as int),
                    decreases self.headers.len() - j,
                {
                    let ghost prev = available;
                    let h = self.headers[j].clone();
                    available.push(h);
                    proof {
                        lemma_push_string(prev, available, h);
                    }
                    j = j + 1;
                    assert(available.deep_view() =~= self.headers.deep_view().take(j as int));
                }
                assert(self.headers.deep_view().take(j as int) =~= self.headers.deep_view());
                return Err(
                    Error::MissingColumn {
                        file: file.to_owned(),
                        column: name.to_owned(),
                        available,
                    },
                );
            },
        };
        let mut out: Vec<String> = Vec::new();
        let mut r: usize = 0;
        while r < self.rows.len()
            invariant
                r <= self.rows.len(),
                idx == position(self.headers.deep_view(), name@),
                idx < self.headers.len(),
                column_fits(self.headers.deep_view(), self.rows.deep_view(), name@),
                out.deep_view() == Seq::new(r as nat, |i: int| self.rows.deep_view()[i][idx as int]),
            decreases self.rows.len() - r,
        {
            assert(idx < self.rows.deep_view()[r as int].len());
            let ghost prev = out;
            let v = self.rows[r][idx].clone();
            assert(v@ == self.rows.deep_view()[r as int][idx as int]);
            out.push(v);
            proof {
                lemma_push_string(prev, out, v);
            }
            r = r + 1;
            assert(out.deep_view() =~= Seq::new(r as nat, |i: int| self.rows.deep_view()[i][idx as int]));
        }
        Ok(out)
    }

    /// Rows as header -> value pairs.
    pub fn records(&self) -> (recs: Vec<Record>)
        ensures
            recs.len() == self.rows.len(),
            forall|i: int|
                0 <= i < recs.len() ==> #[trigger] recs[i]@ == zip_pairs(
                    self.headers.deep_view(),
                    self.rows.deep_view()[i],
                ),
    {
        let mut recs: Vec<Record> = Vec::new();
        let mut r: usize = 0;
        while r < self.rows.len()
            invariant
                r <= self.rows.len(),
                recs.len() == r,
                forall|i: int|
                    0 <= i < r ==> #[trigger] recs[i]@ == zip_pairs(
                        self.headers.deep_view(),
                        self.rows.deep_view()[i],
                    ),
            decreases self.rows.len() - r,
        {
            let row = &self.rows[r];
            let m = if self.headers.len() <= row.len() {
                self.headers.len()
            } else {
                row.len()
            };
            let mut fields: Vec<(String, String)> = Vec::new();
            let mut k: usize = 0;
            while k < m
                invariant
                    k <= m,
                    m <= self.headers.len(),
                    m <= row.len(),
                    row == self.rows[r as int],
                    fields.len() == k,
                    forall|j: int|
                        0 <= j < k ==> (#[trigger] fields[j]).0@ == self.headers.deep_view()[j]
                            && fields[j].1@ == row.deep_view()[j],
                decreases m - k,
            {
                fields.push((self.headers[k].clone(), row[k].clone()));
                k = k + 1;
            }
            let rec = Record { fields };
            assert(rec@ =~= zip_pairs(self.headers.deep_view(), self.rows.deep_view()[r as int]));
            recs.push(rec);
            r = r + 1;
        }
        recs
    }
}

impl Default for Table {
    fn default() -> (t: Self)
        ensures
            t.headers@.len() == 0,
            t.rows@.len() == 0,
    {
        Table { headers: Vec::new(), rows: Vec::new() }
    }
}

// --- fetching ----------------------------------------------------------------

/// Transport used to reach the symbol directory.
#[derive(Debug, Clone, Copy, PartialEq, Eq, Structural)]
pub enum Transport {
    /// Try FTP first, fall back to HTTPS.
    Auto,
    Ftp,
    Https,
}

impl Default for Transport {
    fn default() -> (t: Self)
        ensures
            t == Transport::Auto,
    {
        Transport::Auto
    }
}

/// The transports a fetch tries, in order, until one succeeds.
pub open spec fn attempts_of(t: Transport) -> Seq<Transport> {
    match t {
        Transport::Ftp => seq![Transport::Ftp],
        Transport::Https => seq![Transport::Https],
        Transport::Auto => seq![Transport::Ftp, Transport::Https],
    }
}

/// Client for the Nasdaq Trader symbol directory.
#[derive(Debug, Clone, Copy)]
pub struct Client {
    transport: Transport,
}

impl View for Client {
    type V = Transport;

    closed spec fn view(&self) -> Transport {
        self.transport
    }
}

impl Default for Client {
    fn default() -> (c: Self)
        ensures
            c@ == Transport::Auto,
    {
        Client { transport: Transport::Auto }
    }
}

impl Client {
    pub fn new() -> (c: Self)
        ensures
            c@ == Transport::Auto,
    {
        Client { transport: Transport::Auto }
    }

    pub fn with_transport(transport: Transport) -> (c: Self)
        ensures
            c@ == transport,
    {
        Client { transport }
    }

    /// The transports that fetching tries, in order, until one succeeds:
    /// FTP then HTTPS for `Auto`.
    pub fn attempts(&self) -> (r: Vec<Transport>)
        ensures
            r@ == attempts_of(self@),
    {
        let mut r: Vec<Transport> = Vec::new();
        match self.transport {
            Transport::Ftp => r.push(Transport::Ftp),
            Transport::Https => r.push(Transport::Https),
            Transport::Auto => {
                r.push(Transport::Ftp);
                r.push(Transport::Https);
            },
        }
        assert(r@ =~= attempts_of(self@));
        r
    }
}

/// What a fetch does once an attempt has ended.
#[derive(Debug, Clone, Copy, PartialEq, Eq, Structural)]
pub enum FetchStep {
    /// The attempt failed and another transport is left: try it.
    TryNext(Transport),
    /// The attempt got the file: parse it.
    Parse,
    /// The last transport failed too: report its error.
    GiveUp,
}

impl Client {
    /// The transport of a fetch's first attempt.
    pub fn first_attempt(&self) -> (t: Transport)
        ensures
            t == attempts_of(self@)[0],
    {
        match self.transport {
            Transport::Https => Transport::Https,
            _ => Transport::Ftp,
        }
    }

    /// The step after attempt number `attempt` (counted from 0) of a fetch:
    /// stop at the first success, fall back to the next transport after a
    /// failure, and give up when no transport is left.
    pub fn after_attempt(&self, attempt: usize, succeeded: bool) -> (s: FetchStep)
        ensures
            s == (if succeeded {
                FetchStep::Parse
            } else if attempt + 1 < attempts_of(self@).len() {
                FetchStep::TryNext(attempts_of(self@)[attempt + 1])
            } else {
                FetchStep::GiveUp
            }),
    {
        if succeeded {
            FetchStep::Parse
        } else {
            match self.transport {
                Transport::Auto => if attempt == 0 {
                    FetchStep::TryNext(Transport::Https)
                } else {
                    FetchStep::GiveUp
                },
                _ => FetchStep::GiveUp,
            }
        }
    }
}

/// The symbols of both listing files: the other-listed ones first, then the
/// Nasdaq-listed ones, each in its own order.
pub fn all_tickers(other_listed: Vec<String>, nasdaq_listed: Vec<String>) -> (r: Vec<String>)
    ensures
        r@ == other_listed@ + nasdaq_listed@,
{
    let mut out = other_listed;
    let mut rest = nasdaq_listed;
    out.append(&mut rest);
    out
}


// --- laws --------------------------------------------------------------------

/// Every row of a table has exactly as many fields as its header line.
pub proof fn lemma_rows_have_header_width(ls: Seq<Seq<char>>, w: nat)
    ensures
        forall|i: int|
            0 <= i < table_rows(ls, w).len() ==> #[trigger] table_rows(ls, w)[i].len() == w,
    decreases ls.len(),
{
    if ls.len() > 0 {
        lemma_rows_have_header_width(ls.drop_last(), w);
        let f = split_on(ls.last(), '|');
        assert(pad(f, w).len() == w);
        let prev = table_rows(ls.drop_last(), w);
        if !skipped(ls.last()) {
            assert forall|i: int| 0 <= i < prev.push(pad(f, w)).len() implies #[trigger] prev.push(
                pad(f, w),
            )[i].len() == w by {
                if i < prev.len() {
                    assert(prev.push(pad(f, w))[i] == prev[i]);
                }
            }
        }
    }
}

/// A trailer or blank line adds no row.
pub proof fn lemma_skipped_line_adds_no_row(ls: Seq<Seq<char>>, line: Seq<char>, w: nat)
    requires
        skipped(line),
    ensures
        table_rows(ls.push(line), w) == table_rows(ls, w),
{
    assert(ls.push(line).drop_last() =~= ls);
}

/// Any other line adds one row: its fields, padded to the header width.
pub proof fn lemma_data_line_adds_row(ls: Seq<Seq<char>>, line: Seq<char>, w: nat)
    requires
        !skipped(line),
    ensures
        table_rows(ls.push(line), w) == table_rows(ls, w).push(pad(split_on(line, '|'), w)),
{
    assert(ls.push(line).drop_last() =~= ls);
}

/// A line always splits into at least one field, so a header line is never
/// empty of columns.
pub proof fn lemma_split_nonempty(l: Seq<char>, c: char)
    ensures
        split_on(l, c).len() >= 1,
    decreases l.len(),
{
    lemma_find_char(l, c);
    if find_char(l, c) < l.len() {
        lemma_split_nonempty(l.skip(find_char(l, c) + 1), c);
    }
}

/// A record gives, for a header, the value in the last column with that
/// header.
pub proof fn lemma_lookup_last(pairs: Seq<(Seq<char>, Seq<char>)>, c: int)
    requires
        0 <= c < pairs.len(),
        forall|j: int| c < j < pairs.len() ==> #[trigger] pairs[j].0 != pairs[c].0,
    ensures
        lookup(pairs, pairs[c].0) == Some(pairs[c].1),
    decreases pairs.len(),
{
    if c < pairs.len() - 1 {
        let d = pairs.drop_last();
        assert forall|j: int| c < j < d.len() implies #[trigger] d[j].0 != d[c].0 by {
            assert(d[j] == pairs[j]);
        }
        lemma_lookup_last(d, c);
    }
}


/// Only the trailer and blank lines are skipped: a line that neither begins
/// with the whole text "File Creation Time" nor is all whitespace adds one
/// row, its fields padded to the header width.
pub proof fn lemma_only_trailer_and_blank_skipped(ls: Seq<Seq<char>>, line: Seq<char>, w: nat)
    requires
        !(line.len() >= 18 && line.take(18) == "File Creation Time"@),
        exists|i: int| 0 <= i < line.len() && !is_space(#[trigger] line[i]),
    ensures
        !skipped(line),
        table_rows(ls.push(line), w) == table_rows(ls, w).push(pad(split_on(line, '|'), w)),
{
    assert(trailer_prefix() == "File Creation Time"@);
    reveal_strlit("File Creation Time");
    assert(trailer_prefix().len() == 18);
    assert(ls.push(line).drop_last() =~= ls);
}

/// A record pairs each column's header with the row's value in that column,
/// empty values included, for every column that both the header line and
/// the row reach.
pub proof fn lemma_record_pairs_every_column(hs: Seq<Seq<char>>, row: Seq<Seq<char>>)
    ensures
        zip_pairs(hs, row).len() == if hs.len() <= row.len() {
            hs.len()
        } else {
            row.len()
        },
        forall|j: int|
            0 <= j < zip_pairs(hs, row).len() ==> #[trigger] zip_pairs(hs, row)[j] == (
                hs[j],
                row[j],
            ),
{
}

} // verus!
