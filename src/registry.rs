//! The registry: entries kept strictly ascending by code, one per code, and
//! the parser that fills it from a table text.
use vstd::prelude::*;
use crate::table::{parse_row, row, row_view, Error, ErrorView, MalformedRow, RowFault};
use crate::text::{chars_of, lines};

verus! {

/// Lexicographic order on character sequences, by code point.
pub open spec fn code_lt(a: Seq<char>, b: Seq<char>) -> bool
    decreases a.len(),
{
    if a.len() == 0 {
        b.len() > 0
    } else if b.len() == 0 {
        false
    } else if a[0] != b[0] {
        a[0] < b[0]
    } else {
        code_lt(a.drop_first(), b.drop_first())
    }
}

pub proof fn lemma_code_lt_irreflexive(a: Seq<char>, b: Seq<char>)
    ensures
        code_lt(a, b) ==> a != b && !code_lt(b, a),
    decreases a.len(),
{
    if a.len() > 0 && b.len() > 0 && a[0] == b[0] {
        lemma_code_lt_irreflexive(a.drop_first(), b.drop_first());
        if a == b {
            assert(a.drop_first() == b.drop_first());
        }
    }
}

pub proof fn lemma_code_lt_total(a: Seq<char>, b: Seq<char>)
    ensures
        a == b || code_lt(a, b) || code_lt(b, a),
    decreases a.len(),
{
    if a.len() > 0 && b.len() > 0 && a[0] == b[0] {
        lemma_code_lt_total(a.drop_first(), b.drop_first());
        if a.drop_first() == b.drop_first() {
            assert(a =~= seq![a[0]] + a.drop_first());
            assert(b =~= seq![b[0]] + b.drop_first());
        }
    }
}

pub proof fn lemma_code_lt_transitive(a: Seq<char>, b: Seq<char>, c: Seq<char>)
    requires
        code_lt(a, b),
        code_lt(b, c),
    ensures
        code_lt(a, c),
    decreases a.len(),
{
    if a.len() > 0 && b.len() > 0 && c.len() > 0 && a[0] == b[0] && b[0] == c[0] {
        lemma_code_lt_transitive(a.drop_first(), b.drop_first(), c.drop_first());
    }
}

/// Codes strictly ascending, hence each code at most once.
pub open spec fn sorted_by_code(s: Seq<ErrorView>) -> bool {
    forall|i: int, j: int| 0 <= i < j < s.len() ==> code_lt(#[trigger] s[i].code, #[trigger] s[j].code)
}

/// `e` put into a sorted sequence: it takes the place of the entry with the
/// same code, or stands before the first entry whose code is greater.
pub open spec fn insert_sorted(s: Seq<ErrorView>, e: ErrorView) -> Seq<ErrorView>
    decreases s.len(),
{
    if s.len() == 0 {
        seq![e]
    } else if s[0].code == e.code {
        seq![e] + s.drop_first()
    } else if code_lt(e.code, s[0].code) {
        seq![e] + s
    } else {
        seq![s[0]] + insert_sorted(s.drop_first(), e)
    }
}

proof fn lemma_insert_at(s: Seq<ErrorView>, e: ErrorView, i: int)
    requires
        sorted_by_code(s),
        0 <= i <= s.len(),
        forall|j: int| 0 <= j < i ==> code_lt(#[trigger] s[j].code, e.code),
        i < s.len() ==> !code_lt(s[i].code, e.code),
    ensures
        insert_sorted(s, e) == if i < s.len() && s[i].code == e.code {
            s.update(i, e)
        } else {
            s.insert(i, e)
        },
    decreases i,
{
    if i == 0 {
        if s.len() > 0 {
            lemma_code_lt_total(s[0].code, e.code);
            if s[0].code == e.code {
                assert(seq![e] + s.drop_first() =~= s.update(0, e));
            } else {
                assert(seq![e] + s =~= s.insert(0, e));
            }
        } else {
            assert(seq![e] =~= s.insert(0, e));
        }
    } else {
        lemma_code_lt_irreflexive(s[0].code, e.code);
        let t = s.drop_first();
        assert forall|j: int| 0 <= j < i - 1 implies code_lt(#[trigger] t[j].code, e.code) by {
            assert(t[j] == s[j + 1]);
        }
        lemma_insert_at(t, e, i - 1);
        if i < s.len() && s[i].code == e.code {
            assert(seq![s[0]] + t.update(i - 1, e) =~= s.update(i, e));
        } else {
            assert(seq![s[0]] + t.insert(i - 1, e) =~= s.insert(i, e));
        }
    }
}

/// The registry that a table describes: what its rows give, in order, each
/// entry replacing an earlier one with the same code.
pub open spec fn parse_lines(ls: Seq<Seq<char>>) -> Result<Seq<ErrorView>, MalformedRow>
    decreases ls.len(),
{
    if ls.len() == 0 {
        Ok(Seq::empty())
    } else {
        match parse_lines(ls.drop_last()) {
            Err(m) => Err(m),
            Ok(s) => match row(ls.last()) {
                Err(f) => Err(MalformedRow { line: (ls.len() - 1) as usize, fault: f }),
                Ok(None) => Ok(s),
                Ok(Some(e)) => Ok(insert_sorted(s, e)),
            },
        }
    }
}

pub open spec fn parse_table(t: Seq<char>) -> Result<Seq<ErrorView>, MalformedRow> {
    parse_lines(lines(t))
}

/// The entry with the given code, if there is one.
pub open spec fn lookup(s: Seq<ErrorView>, code: Seq<char>) -> Option<ErrorView> {
    if exists|i: int| 0 <= i < s.len() && (#[trigger] s[i]).code == code {
        Some(s[choose|i: int| 0 <= i < s.len() && (#[trigger] s[i]).code == code])
    } else {
        None
    }
}

/// Status entries, strictly ascending by code.
pub struct Registry {
    entries: Vec<Error>,
}

impl View for Registry {
    type V = Seq<ErrorView>;

    closed spec fn view(&self) -> Seq<ErrorView> {
        self.entries@.map_values(|e: Error| e@)
    }
}

/// Compares two codes character by character.
fn code_less(a: &String, b: &String) -> (r: bool)
    ensures
        r == code_lt(a@, b@),
{
    let la = a.as_str().unicode_len();
    let lb = b.as_str().unicode_len();
    let mut i: usize = 0;
    assert(a@.skip(0) =~= a@ && b@.skip(0) =~= b@);
    while i < la && i < lb
        invariant
            i <= la == a@.len(),
            lb == b@.len(),
            i <= lb,
            code_lt(a@, b@) == code_lt(a@.skip(i as int), b@.skip(i as int)),
        decreases la - i,
    {
        let ca = a.as_str().get_char(i);
        let cb = b.as_str().get_char(i);
        let ghost sa = a@.skip(i as int);
        let ghost sb = b@.skip(i as int);
        assert(sa[0] == ca && sb[0] == cb);
        if ca != cb {
            return ca < cb;
        }
        assert(sa.drop_first() =~= a@.skip(i + 1));
        assert(sb.drop_first() =~= b@.skip(i + 1));
        i += 1;
    }
    i < lb
}

impl Registry {
    pub open spec fn wf(&self) -> bool {
        sorted_by_code(self@)
    }

    /// A registry with no entry.
    pub fn new() -> (r: Registry)
        ensures
            r.wf(),
            r@ == Seq::<ErrorView>::empty(),
    {
        let r = Registry { entries: Vec::new() };
        assert(r@ =~= Seq::<ErrorView>::empty());
        r
    }

    /// The entries, ascending by code.
    pub fn entries(&self) -> (r: &Vec<Error>)
        ensures
            r@.map_values(|e: Error| e@) == self@,
    {
        &self.entries
    }

    /// The number of entries.
    pub fn len(&self) -> (r: usize)
        ensures
            r == self@.len(),
    {
        self.entries.len()
    }

    /// Adds `e`, replacing the entry with the same code if there is one.
    pub fn insert(&mut self, e: Error)
        requires
            old(self).wf(),
        ensures
            final(self).wf(),
            final(self)@ == insert_sorted(old(self)@, e@),
    {
        let ghost s = self@;
        let mut i: usize = 0;
        while i < self.entries.len() && code_less(&self.entries[i].code, &e.code)
            invariant
                s == self@,
                sorted_by_code(s),
                i <= self.entries.len(),
                forall|j: int| 0 <= j < i ==> code_lt(#[trigger] s[j].code, e@.code),
            decreases self.entries.len() - i,
        {
            i += 1;
        }
        proof {
            lemma_insert_at(s, e@, i as int);
        }
        if i < self.entries.len() && self.entries[i].code == e.code {
            self.entries.set(i, e);
            assert(self@ =~= s.update(i as int, e@));
        } else {
            self.entries.insert(i, e);
            assert(self@ =~= s.insert(i as int, e@));
            proof {
                if i < s.len() {
                    lemma_code_lt_total(s[i as int].code, e@.code);
                }
                assert forall|a: int, b: int| 0 <= a < b < self@.len() implies code_lt(
                    #[trigger] self@[a].code,
                    #[trigger] self@[b].code,
                ) by {
                    if b == i {
                    } else if a == i {
                        if b - 1 > i {
                            lemma_code_lt_transitive(e@.code, s[i as int].code, s[b - 1].code);
                        }
                    } else if a < i && b > i {
                    }
                }
            }
        }
    }

    /// The entry whose code is `code`; `None` where no entry has it.
    pub fn from_code(&self, code: &str) -> (r: Option<&Error>)
        requires
            self.wf(),
        ensures
            match r {
                Some(e) => lookup(self@, code@) == Some(e@),
                None => lookup(self@, code@) is None,
            },
    {
        let key = code.to_owned();
        let mut i: usize = 0;
        while i < self.entries.len()
            invariant
                self.wf(),
                key@ == code@,
                i <= self.entries.len(),
                forall|j: int| 0 <= j < i ==> (#[trigger] self@[j]).code != code@,
            decreases self.entries.len() - i,
        {
            if self.entries[i].code == key {
                proof {
                    assert(self@[i as int].code == code@);
                    assert forall|j: int| 0 <= j < self@.len() && (#[trigger] self@[j]).code == code@ implies j == i by {
                        if j < i {
                            assert(code_lt(self@[j].code, self@[i as int].code));
                            lemma_code_lt_irreflexive(self@[j].code, self@[i as int].code);
                        } else if j > i {
                            assert(code_lt(self@[i as int].code, self@[j].code));
                            lemma_code_lt_irreflexive(self@[i as int].code, self@[j].code);
                        }
                    }
                }
                return Some(&self.entries[i]);
            }
            i += 1;
        }
        None
    }
}

/// Reads a whole table text into a registry. Fails on the first line, in
/// order, that is a malformed data row.
pub fn parse_errors(text: &str) -> (r: Result<Registry, MalformedRow>)
    ensures
        match r {
            Ok(reg) => reg.wf() && parse_table(text@) == Ok::<Seq<ErrorView>, MalformedRow>(reg@),
            Err(m) => parse_table(text@) == Err::<Seq<ErrorView>, MalformedRow>(m),
        },
{
    let chars = chars_of(text);
    let ghost t = chars@;
    let mut reg = Registry::new();
    let mut failed: Option<MalformedRow> = None;
    let mut start: usize = 0;
    let mut ln: usize = 0;
    let mut i: usize = 0;
    while i < chars.len()
        invariant
            t == chars@,
            start <= i <= chars.len(),
            ln <= i,
            lines(t.take(i as int)).len() == ln + 1,
            lines(t.take(i as int))[ln as int] == t.subrange(start as int, i as int),
            reg.wf(),
            parse_lines(lines(t.take(i as int)).take(ln as int)) == match failed {
                Some(m) => Err::<Seq<ErrorView>, MalformedRow>(m),
                None => Ok(reg@),
            },
        decreases chars.len() - i,
    {
        let ghost ls = lines(t.take(i as int));
        assert(t.take(i + 1).drop_last() =~= t.take(i as int));
        if chars[i] == '\n' {
            assert(lines(t.take(i + 1)) == ls.push(Seq::empty()));
            assert(lines(t.take(i + 1)).take(ln + 1) =~= ls);
            assert(ls.drop_last() =~= ls.take(ln as int));
            if failed.is_none() {
                match parse_row(&chars, start, i) {
                    Err(f) => {
                        failed = Some(MalformedRow { line: ln, fault: f });
                    },
                    Ok(None) => {},
                    Ok(Some(e)) => {
                        reg.insert(e);
                    },
                }
            }
            ln += 1;
            start = i + 1;
            assert(t.subrange(start as int, i + 1) =~= Seq::<char>::empty());
        } else {
            assert(lines(t.take(i + 1)) == ls.update(ln as int, ls[ln as int].push(t[i as int])));
            assert(lines(t.take(i + 1)).take(ln as int) =~= ls.take(ln as int));
            assert(t.subrange(start as int, i + 1) =~= t.subrange(start as int, i as int).push(t[i as int]));
        }
        i += 1;
    }
    let ghost ls = lines(t.take(i as int));
    assert(t.take(i as int) =~= t);
    assert(ls.drop_last() =~= ls.take(ln as int));
    if failed.is_none() {
        match parse_row(&chars, start, i) {
            Err(f) => {
                failed = Some(MalformedRow { line: ln, fault: f });
            },
            Ok(None) => {},
            Ok(Some(e)) => {
                reg.insert(e);
            },
        }
    }
    match failed {
        Some(m) => Err(m),
        None => Ok(reg),
    }
}

} // verus!
