//! Rendering a registry as Rust source: a marker line, one constant per
//! entry, and a `from_code` lookup from code to constant.
use vstd::prelude::*;
use vstd::string::*;
use crate::registry::{parse_errors, parse_table, Registry};
use crate::table::{Error, ErrorView, Kind, MalformedRow};

verus! {

pub open spec fn header_text() -> Seq<char> {
    "// Autogenerated file - DO NOT EDIT\n"@
}

pub open spec fn kind_name(k: Kind) -> Seq<char> {
    match k {
        Kind::Error => "Error"@,
        Kind::Warning => "Warning"@,
        Kind::Success => "Success"@,
    }
}

/// The doc line above a constant: the description, if any.
pub open spec fn doc_text(m: Option<Seq<char>>) -> Seq<char> {
    match m {
        Some(x) => "/// "@ + x,
        None => Seq::empty(),
    }
}

/// The `message` field's value: `Some("..")` or `None`.
pub open spec fn message_text(m: Option<Seq<char>>) -> Seq<char> {
    match m {
        Some(x) => "Some(\""@ + x + "\")"@,
        None => "None"@,
    }
}

/// The constant that stands for one entry.
pub open spec fn const_text(e: ErrorView) -> Seq<char> {
    doc_text(e.message) + "\npub const "@ + e.name + ": State = State {\n    code: \""@ + e.code
        + "\",\n    name: \""@ + e.name + "\",\n    kind: Kind::"@ + kind_name(e.kind)
        + ",\n    message: "@ + message_text(e.message) + ",\n};\n"@
}

pub open spec fn consts_text(s: Seq<ErrorView>) -> Seq<char>
    decreases s.len(),
{
    if s.len() == 0 {
        Seq::empty()
    } else {
        consts_text(s.drop_last()) + const_text(s.last())
    }
}

/// The match arm of `from_code` that leads from an entry's code to its constant.
pub open spec fn arm_text(e: ErrorView) -> Seq<char> {
    "            \""@ + e.code + "\" => "@ + e.name + ","@
}

/// The arms of all entries, in order, joined by newlines.
pub open spec fn arms_text(s: Seq<ErrorView>) -> Seq<char>
    decreases s.len(),
{
    if s.len() == 0 {
        Seq::empty()
    } else if s.len() == 1 {
        arm_text(s[0])
    } else {
        arms_text(s.drop_last()) + "\n"@ + arm_text(s.last())
    }
}

pub open spec fn lookup_head() -> Seq<char> {
    "\nimpl State {\n    /// Creates a `State` from its error code.\n    pub fn from_code(s: &str) -> State {\n        match s {\n"@
}

pub open spec fn lookup_tail() -> Seq<char> {
    "\n            _ => unreachable!(),\n        }\n    }\n}\n"@
}

/// `from_code`: one arm per entry, in order, and a fault for any other code.
/// The arms are joined by newlines and followed by one more, so that a
/// registry without entries leaves a blank line before the fault.
pub open spec fn lookup_text(s: Seq<ErrorView>) -> Seq<char> {
    lookup_head() + arms_text(s) + lookup_tail()
}

/// The whole generated source for a registry.
pub open spec fn module_text(s: Seq<ErrorView>) -> Seq<char> {
    header_text() + consts_text(s) + lookup_text(s)
}

fn kind_str(k: Kind) -> (r: &'static str)
    ensures
        r@ == kind_name(k),
{
    match k {
        Kind::Error => "Error",
        Kind::Warning => "Warning",
        Kind::Success => "Success",
    }
}

impl Error {
    /// The constant that stands for this entry.
    pub fn render(&self) -> (r: String)
        ensures
            r@ == const_text(self@),
    {
        let mut s = String::new();
        match &self.message {
            Some(m) => {
                s.append("/// ");
                s.append(m.as_str());
            },
            None => {},
        }
        s.append("\npub const ");
        s.append(self.name.as_str());
        s.append(": State = State {\n    code: \"");
        s.append(self.code.as_str());
        s.append("\",\n    name: \"");
        s.append(self.name.as_str());
        s.append("\",\n    kind: Kind::");
        s.append(kind_str(self.kind));
        s.append(",\n    message: ");
        match &self.message {
            Some(m) => {
                s.append("Some(\"");
                s.append(m.as_str());
                s.append("\")");
            },
            None => {
                s.append("None");
            },
        }
        s.append(",\n};\n");
        assert(s@ =~= const_text(self@));
        s
    }
}

/// Appends the marker line that opens the generated file.
pub fn make_header(out: &mut String)
    ensures
        final(out)@ == old(out)@ + header_text(),
{
    out.append("// Autogenerated file - DO NOT EDIT\n");
}

/// Appends one constant per entry, ascending by code.
pub fn make_consts(errors: &Registry, out: &mut String)
    ensures
        final(out)@ == old(out)@ + consts_text(errors@),
{
    let es = errors.entries();
    let ghost s = errors@;
    let ghost o = out@;
    let mut i: usize = 0;
    while i < es.len()
        invariant
            es@.map_values(|e: Error| e@) == s,
            i <= es.len(),
            out@ == o + consts_text(s.take(i as int)),
        decreases es.len() - i,
    {
        let c = es[i].render();
        out.append(c.as_str());
        assert(s.take(i + 1).drop_last() =~= s.take(i as int));
        assert(s[i as int] == es@[i as int]@);
        i += 1;
    }
    assert(s.take(i as int) =~= s);
}

/// Appends the `from_code` function: an arm per entry, then the fault for
/// any other code.
pub fn make_type(errors: &Registry, out: &mut String)
    ensures
        final(out)@ == old(out)@ + lookup_text(errors@),
{
    let es = errors.entries();
    let ghost s = errors@;
    let ghost o = out@;
    out.append("\nimpl State {\n    /// Creates a `State` from its error code.\n    pub fn from_code(s: &str) -> State {\n        match s {\n");
    let mut i: usize = 0;
    while i < es.len()
        invariant
            es@.map_values(|e: Error| e@) == s,
            i <= es.len(),
            out@ == o + lookup_head() + arms_text(s.take(i as int)),
        decreases es.len() - i,
    {
        if i > 0 {
            out.append("\n");
        }
        out.append("            \"");
        out.append(es[i].code.as_str());
        out.append("\" => ");
        out.append(es[i].name.as_str());
        out.append(",");
        assert(s.take(i + 1).drop_last() =~= s.take(i as int));
        assert(s[i as int] == es@[i as int]@);
        assert(out@ =~= o + lookup_head() + arms_text(s.take(i + 1)));
        i += 1;
    }
    assert(s.take(i as int) =~= s);
    out.append("\n            _ => unreachable!(),\n        }\n    }\n}\n");
    assert(out@ =~= o + lookup_text(s));
}

/// The generated source for a table text, or the first malformed row.
/// Nothing is produced when a row is malformed.
pub fn generate(text: &str) -> (r: Result<String, MalformedRow>)
    ensures
        match parse_table(text@) {
            Ok(s) => r matches Ok(out) && out@ == module_text(s),
            Err(m) => r == Err::<String, MalformedRow>(m),
        },
{
    let errors = match parse_errors(text) {
        Ok(reg) => reg,
        Err(m) => {
            return Err(m);
        },
    };
    let mut out = String::new();
    make_header(&mut out);
    make_consts(&errors, &mut out);
    make_type(&errors, &mut out);
    assert(out@ =~= module_text(errors@));
    Ok(out)
}

} // verus!
