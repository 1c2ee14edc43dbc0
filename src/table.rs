//! Status entries, the grammar of one table row, and the registry that
//! keeps entries sorted by code.
use vstd::prelude::*;
use crate::text::{fields, split_fields, string_of};

verus! {

/// How a status is classified.
#[derive(Clone, Copy, Debug, PartialEq, Eq, Structural)]
pub enum Kind {
    Error,
    Warning,
    Success,
}

/// One status entry of the registry.
#[derive(Debug)]
pub struct Error {
    pub code: String,
    pub kind: Kind,
    pub name: String,
    pub message: Option<String>,
}

/// What an entry holds, as character sequences.
pub struct ErrorView {
    pub code: Seq<char>,
    pub kind: Kind,
    pub name: Seq<char>,
    pub message: Option<Seq<char>>,
}

pub open spec fn opt_view(m: Option<String>) -> Option<Seq<char>> {
    match m {
        Some(s) => Some(s@),
        None => None,
    }
}

impl View for Error {
    type V = ErrorView;

    open spec fn view(&self) -> ErrorView {
        ErrorView { code: self.code@, kind: self.kind, name: self.name@, message: opt_view(self.message) }
    }
}

/// Why a data row was refused.
#[derive(Clone, Copy, Debug, PartialEq, Eq, Structural)]
pub enum RowFault {
    /// Fewer than three fields.
    MissingField,
    /// The code is not five characters of `0-9` and `A-Z`.
    InvalidCode,
    /// The severity is none of `E`, `W`, `S`.
    UnknownSeverity,
    /// Nothing is left of the identifier once its prefix is removed.
    EmptyName,
}

/// A table row that could not be read: its line, counted from zero, and why.
#[derive(Clone, Copy, Debug, PartialEq, Eq, Structural)]
pub struct MalformedRow {
    pub line: usize,
    pub fault: RowFault,
}

pub open spec fn section_keyword() -> Seq<char> {
    seq!['S', 'e', 'c', 't', 'i', 'o', 'n']
}

pub open spec fn name_prefix() -> Seq<char> {
    seq!['E', 'R', 'R', 'C', 'O', 'D', 'E', '_']
}

pub open spec fn starts_with(l: Seq<char>, p: Seq<char>) -> bool {
    l.len() >= p.len() && l.take(p.len() as int) == p
}

/// Blank lines, comments and section headers carry no entry.
pub open spec fn is_skipped(l: Seq<char>) -> bool {
    starts_with(l, seq!['#']) || starts_with(l, section_keyword()) || fields(l).len() == 0
}

pub open spec fn is_code_char(c: char) -> bool {
    ('0' as u32 <= c as u32 && c as u32 <= '9' as u32) || ('A' as u32 <= c as u32 && c as u32
        <= 'Z' as u32)
}

pub open spec fn is_valid_code(f: Seq<char>) -> bool {
    f.len() == 5 && forall|i: int| 0 <= i < f.len() ==> is_code_char(#[trigger] f[i])
}

pub open spec fn kind_of(f: Seq<char>) -> Option<Kind> {
    if f == seq!['E'] {
        Some(Kind::Error)
    } else if f == seq!['W'] {
        Some(Kind::Warning)
    } else if f == seq!['S'] {
        Some(Kind::Success)
    } else {
        None
    }
}

pub open spec fn strip_prefix(f: Seq<char>) -> Seq<char> {
    if starts_with(f, name_prefix()) {
        f.skip(name_prefix().len() as int)
    } else {
        f
    }
}

pub open spec fn spaced(f: Seq<char>) -> Seq<char> {
    f.map_values(|c: char| if c == '_' { ' ' } else { c })
}

/// What one line of the table gives: nothing, an entry, or a fault.
pub open spec fn row(l: Seq<char>) -> Result<Option<ErrorView>, RowFault> {
    let f = fields(l);
    if is_skipped(l) {
        Ok(None)
    } else if f.len() < 3 {
        Err(RowFault::MissingField)
    } else if !is_valid_code(f[0]) {
        Err(RowFault::InvalidCode)
    } else if kind_of(f[1]) is None {
        Err(RowFault::UnknownSeverity)
    } else if strip_prefix(f[2]).len() == 0 {
        Err(RowFault::EmptyName)
    } else {
        Ok(
            Some(
                ErrorView {
                    code: f[0],
                    kind: kind_of(f[1])->0,
                    name: strip_prefix(f[2]),
                    message: if f.len() > 3 {
                        Some(spaced(f[3]))
                    } else {
                        None
                    },
                },
            ),
        )
    }
}

pub open spec fn row_view(r: Result<Option<Error>, RowFault>) -> Result<Option<ErrorView>, RowFault> {
    match r {
        Ok(Some(e)) => Ok(Some(e@)),
        Ok(None) => Ok(None),
        Err(f) => Err(f),
    }
}

fn has_prefix_at(text: &Vec<char>, start: usize, end: usize, p: &Vec<char>) -> (r: bool)
    requires
        start <= end <= text.len(),
    ensures
        r == starts_with(text@.subrange(start as int, end as int), p@),
{
    if end - start < p.len() {
        return false;
    }
    let mut i: usize = 0;
    while i < p.len()
        invariant
            i <= p.len() <= end - start,
            start <= end <= text.len(),
            forall|k: int| 0 <= k < i ==> text[start + k] == p[k],
        decreases p.len() - i,
    {
        if text[start + i] != p[i] {
            assert(text@.subrange(start as int, end as int).take(p.len() as int)[i as int] != p@[i as int]);
            return false;
        }
        i += 1;
    }
    assert(text@.subrange(start as int, end as int).take(p.len() as int) =~= p@);
    true
}

fn code_is_valid(text: &Vec<char>, start: usize, end: usize) -> (r: bool)
    requires
        start <= end <= text.len(),
    ensures
        r == is_valid_code(text@.subrange(start as int, end as int)),
{
    let ghost f = text@.subrange(start as int, end as int);
    if end - start != 5 {
        return false;
    }
    let mut i: usize = start;
    while i < end
        invariant
            start <= i <= end <= text.len(),
            f == text@.subrange(start as int, end as int),
            forall|k: int| start <= k < i ==> is_code_char(#[trigger] text[k]),
        decreases end - i,
    {
        let c = text[i];
        let u = c as u32;
        if !(('0' as u32 <= u && u <= '9' as u32) || ('A' as u32 <= u && u <= 'Z' as u32)) {
            assert(f[i - start] == text[i as int]);
            assert(!is_code_char(f[i - start]));
            return false;
        }
        i += 1;
    }
    assert forall|k: int| 0 <= k < f.len() implies is_code_char(#[trigger] f[k]) by {
        assert(f[k] == text[start + k]);
    }
    true
}

fn kind_at(text: &Vec<char>, start: usize, end: usize) -> (r: Option<Kind>)
    requires
        start <= end <= text.len(),
    ensures
        r == kind_of(text@.subrange(start as int, end as int)),
{
    let ghost f = text@.subrange(start as int, end as int);
    if end - start != 1 {
        assert(f.len() != 1);
        assert(f != seq!['E'] && f != seq!['W'] && f != seq!['S']);
        return None;
    }
    let c = text[start];
    assert(f =~= seq![c]);
    assert(seq!['E'][0] == 'E' && seq!['W'][0] == 'W' && seq!['S'][0] == 'S');
    if c == 'E' {
        Some(Kind::Error)
    } else if c == 'W' {
        Some(Kind::Warning)
    } else if c == 'S' {
        Some(Kind::Success)
    } else {
        assert(f != seq!['E'] && f != seq!['W'] && f != seq!['S']);
        None
    }
}

fn spaced_string_of(text: &Vec<char>, start: usize, end: usize) -> (r: String)
    requires
        start <= end <= text.len(),
    ensures
        r@ == spaced(text@.subrange(start as int, end as int)),
{
    let mut s = String::new();
    let mut j: usize = start;
    while j < end
        invariant
            start <= j <= end <= text.len(),
            s@ == spaced(text@.subrange(start as int, j as int)),
        decreases end - j,
    {
        let c = text[j];
        if c == '_' {
            s.push(' ');
        } else {
            s.push(c);
        }
        assert(s@ =~= spaced(text@.subrange(start as int, j as int + 1)));
        j += 1;
    }
    s
}

/// Reads the line `text[start..end]`.
pub fn parse_row(text: &Vec<char>, start: usize, end: usize) -> (r: Result<Option<Error>, RowFault>)
    requires
        start <= end <= text.len(),
    ensures
        row_view(r) == row(text@.subrange(start as int, end as int)),
{
    let ghost l = text@.subrange(start as int, end as int);
    let ghost f = fields(l);
    let ranges = split_fields(text, start, end);
    let hash = vec!['#'];
    assert(hash@ =~= seq!['#']);
    let section = vec!['S', 'e', 'c', 't', 'i', 'o', 'n'];
    assert(section@ =~= section_keyword());
    if has_prefix_at(text, start, end, &hash) || has_prefix_at(text, start, end, &section)
        || ranges.len() == 0 {
        return Ok(None);
    }
    if ranges.len() < 3 {
        return Err(RowFault::MissingField);
    }
    let (c0, c1) = ranges[0];
    let (k0, k1) = ranges[1];
    let (n0, n1) = ranges[2];
    if !code_is_valid(text, c0, c1) {
        return Err(RowFault::InvalidCode);
    }
    let kind = match kind_at(text, k0, k1) {
        Some(k) => k,
        None => {
            return Err(RowFault::UnknownSeverity);
        },
    };
    let prefix = vec!['E', 'R', 'R', 'C', 'O', 'D', 'E', '_'];
    assert(prefix@ =~= name_prefix());
    let name = if has_prefix_at(text, n0, n1, &prefix) {
        let p = prefix.len();
        assert(text@.subrange(n0 + p, n1 as int) =~= f[2].skip(p as int));
        string_of(text, n0 + p, n1)
    } else {
        string_of(text, n0, n1)
    };
    if name.as_str().unicode_len() == 0 {
        return Err(RowFault::EmptyName);
    }
    let code = string_of(text, c0, c1);
    let message = if ranges.len() > 3 {
        let (m0, m1) = ranges[3];
        Some(spaced_string_of(text, m0, m1))
    } else {
        None
    };
    let e = Error { code, kind, name, message };
    assert(row(l) == Ok::<Option<ErrorView>, RowFault>(Some(e@)));
    Ok(Some(e))
}

} // verus!
