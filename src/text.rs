//! Characters, lines and whitespace-separated fields of a table text.
use vstd::prelude::*;

verus! {

/// `String::push` appends one character.
pub assume_specification[ String::push ](s: &mut String, ch: char)
    ensures
        final(s)@ == old(s)@.push(ch),
;

/// The Unicode `White_Space` characters, as `char::is_whitespace` has them.
pub open spec fn is_space(c: char) -> bool {
    let u = c as u32;
    (0x09 <= u && u <= 0x0D) || u == 0x20 || u == 0x85 || u == 0xA0 || u == 0x1680
        || (0x2000 <= u && u <= 0x200A) || u == 0x2028 || u == 0x2029 || u == 0x202F
        || u == 0x205F || u == 0x3000
}

pub fn is_space_char(c: char) -> (r: bool)
    ensures
        r == is_space(c),
{
    let u = c as u32;
    (0x09 <= u && u <= 0x0D) || u == 0x20 || u == 0x85 || u == 0xA0 || u == 0x1680
        || (0x2000 <= u && u <= 0x200A) || u == 0x2028 || u == 0x2029 || u == 0x202F
        || u == 0x205F || u == 0x3000
}

/// The text cut at every newline; the newlines themselves are dropped.
/// A text without newline is one line, and a text ending in a newline
/// ends with an empty line.
pub open spec fn lines(t: Seq<char>) -> Seq<Seq<char>>
    decreases t.len(),
{
    if t.len() == 0 {
        seq![Seq::empty()]
    } else {
        let prev = lines(t.drop_last());
        if t.last() == '\n' {
            prev.push(Seq::empty())
        } else {
            prev.update(prev.len() - 1, prev.last().push(t.last()))
        }
    }
}

/// The maximal runs of non-space characters of a line, in order.
pub open spec fn fields(l: Seq<char>) -> Seq<Seq<char>>
    decreases l.len(),
{
    if l.len() == 0 {
        Seq::empty()
    } else {
        let prev = fields(l.drop_last());
        let c = l.last();
        if is_space(c) {
            prev
        } else if l.len() >= 2 && !is_space(l[l.len() - 2]) {
            prev.update(prev.len() - 1, prev.last().push(c))
        } else {
            prev.push(seq![c])
        }
    }
}

/// The characters of `text`, in order.
pub fn chars_of(text: &str) -> (r: Vec<char>)
    ensures
        r@ == text@,
{
    let mut v: Vec<char> = Vec::new();
    for c in it: text.chars()
        invariant
            v@ == it.seq().take(it.index() as int),
    {
        v.push(c);
    }
    v
}

/// The bounds of the fields of `text[start..end]`, each as a pair of
/// positions in `text`.
pub fn split_fields(text: &Vec<char>, start: usize, end: usize) -> (r: Vec<(usize, usize)>)
    requires
        start <= end <= text.len(),
    ensures
        r.len() == fields(text@.subrange(start as int, end as int)).len(),
        forall|k: int|
            0 <= k < r.len() ==> start <= (#[trigger] r[k]).0 <= r[k].1 <= end && text@.subrange(
                r[k].0 as int,
                r[k].1 as int,
            ) == fields(text@.subrange(start as int, end as int))[k],
{
    let mut r: Vec<(usize, usize)> = Vec::new();
    let mut j: usize = start;
    while j < end
        invariant
            start <= j <= end <= text.len(),
            r.len() == fields(text@.subrange(start as int, j as int)).len(),
            forall|k: int|
                0 <= k < r.len() ==> start <= (#[trigger] r[k]).0 <= r[k].1 <= j
                    && text@.subrange(r[k].0 as int, r[k].1 as int) == fields(
                    text@.subrange(start as int, j as int),
                )[k],
            j > start && !is_space(text[j - 1]) ==> r.len() > 0 && r[r.len() - 1].1 == j,
        decreases end - j,
    {
        let ghost l = text@.subrange(start as int, j as int + 1);
        assert(l.drop_last() =~= text@.subrange(start as int, j as int));
        assert(l.last() == text[j as int]);
        let c = text[j];
        if is_space_char(c) {
        } else if j > start && !is_space_char(text[j - 1]) {
            assert(l[l.len() - 2] == text[j - 1]);
            let k = r.len() - 1;
            let s = r[k].0;
            proof {
                let prev = fields(l.drop_last());
                assert(text@.subrange(s as int, j as int + 1) =~= text@.subrange(
                    s as int,
                    j as int,
                ).push(c));
                assert(fields(l) == prev.update(prev.len() - 1, prev.last().push(c)));
            }
            r.set(k, (s, j + 1));
        } else {
            proof {
                assert(text@.subrange(j as int, j as int + 1) =~= seq![c]);
            }
            r.push((j, j + 1));
        }
        j += 1;
    }
    r
}

/// A string holding `text[start..end]`.
pub fn string_of(text: &Vec<char>, start: usize, end: usize) -> (r: String)
    requires
        start <= end <= text.len(),
    ensures
        r@ == text@.subrange(start as int, end as int),
{
    let mut s = String::new();
    let mut j: usize = start;
    while j < end
        invariant
            start <= j <= end <= text.len(),
            s@ == text@.subrange(start as int, j as int),
        decreases end - j,
    {
        s.push(text[j]);
        assert(s@ =~= text@.subrange(start as int, j as int + 1));
        j += 1;
    }
    s
}

} // verus!
