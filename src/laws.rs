//! Facts about every table: what the parser accepts, the order of the
//! registry, and what the lookup finds.
use vstd::prelude::*;
use crate::registry::{
    code_lt, insert_sorted, lemma_code_lt_irreflexive, lemma_code_lt_total,
    lemma_code_lt_transitive, lookup, parse_lines, parse_table, sorted_by_code,
};
use crate::table::{is_skipped, is_valid_code, row, ErrorView};
use crate::emit::{
    arm_text, arms_text, const_text, consts_text, header_text, lookup_head, lookup_tail, lookup_text,
    module_text,
};
use crate::text::{fields, lines};

verus! {

/// Putting an entry into a sorted sequence keeps it sorted; the result holds
/// the entry and every earlier element with another code.
pub proof fn lemma_insert_sorted(s: Seq<ErrorView>, e: ErrorView)
    requires
        sorted_by_code(s),
    ensures
        sorted_by_code(insert_sorted(s, e)),
        forall|x: ErrorView|
            #[trigger] insert_sorted(s, e).contains(x) <==> (x == e || (s.contains(x) && x.code
                != e.code)),
    decreases s.len(),
{
    let r = insert_sorted(s, e);
    if s.len() == 0 {
        assert forall|x: ErrorView| r.contains(x) <==> x == e by {
            if r.contains(x) {
                assert(x == r[0]);
            } else {
                assert(r[0] == e);
            }
        }
    } else {
        let t = s.drop_first();
        assert(sorted_by_code(t)) by {
            assert forall|i: int, j: int| 0 <= i < j < t.len() implies code_lt(
                #[trigger] t[i].code,
                #[trigger] t[j].code,
            ) by {
                assert(t[i] == s[i + 1] && t[j] == s[j + 1]);
            }
        }
        assert forall|x: ErrorView| t.contains(x) implies code_lt(s[0].code, x.code) by {
            let k = choose|k: int| 0 <= k < t.len() && t[k] == x;
            assert(t[k] == s[k + 1]);
        }
        assert forall|x: ErrorView| s.contains(x) <==> (x == s[0] || t.contains(x)) by {
            if s.contains(x) && x != s[0] {
                let k = choose|k: int| 0 <= k < s.len() && s[k] == x;
                assert(t[k - 1] == x);
            }
            if t.contains(x) {
                let k = choose|k: int| 0 <= k < t.len() && t[k] == x;
                assert(s[k + 1] == x);
            }
            if x == s[0] {
                assert(s[0] == x);
            }
        }
        if s[0].code == e.code {
            assert forall|x: ErrorView| t.contains(x) implies x.code != e.code by {
                lemma_code_lt_irreflexive(s[0].code, x.code);
            }
            lemma_prepend(e, t);
        } else if code_lt(e.code, s[0].code) {
            assert forall|x: ErrorView| s.contains(x) implies code_lt(e.code, x.code) by {
                if x != s[0] {
                    lemma_code_lt_transitive(e.code, s[0].code, x.code);
                }
            }
            assert forall|x: ErrorView| s.contains(x) implies x.code != e.code by {
                lemma_code_lt_irreflexive(e.code, x.code);
            }
            lemma_prepend(e, s);
        } else {
            lemma_code_lt_total(e.code, s[0].code);
            lemma_insert_sorted(t, e);
            let u = insert_sorted(t, e);
            assert(code_lt(s[0].code, e.code));
            assert forall|x: ErrorView| u.contains(x) implies code_lt(s[0].code, x.code) by {
                if x != e {
                    assert(t.contains(x));
                }
            }
            lemma_prepend(s[0], u);
            assert forall|x: ErrorView|
                r.contains(x) <==> (x == e || (s.contains(x) && x.code != e.code)) by {
                assert(r == seq![s[0]] + u);
                assert(r.contains(x) == (x == s[0] || u.contains(x)));
                assert(s.contains(x) == (x == s[0] || t.contains(x)));
                if x == s[0] {
                    lemma_code_lt_irreflexive(s[0].code, e.code);
                }
            }
        }
    }
}

/// An element before a sorted sequence whose codes are all greater keeps it
/// sorted.
proof fn lemma_prepend(e: ErrorView, s: Seq<ErrorView>)
    requires
        sorted_by_code(s),
        forall|x: ErrorView| s.contains(x) ==> code_lt(e.code, x.code),
    ensures
        sorted_by_code(seq![e] + s),
        forall|x: ErrorView| (seq![e] + s).contains(x) <==> (x == e || s.contains(x)),
{
    let r = seq![e] + s;
    assert forall|i: int, j: int| 0 <= i < j < r.len() implies code_lt(
        #[trigger] r[i].code,
        #[trigger] r[j].code,
    ) by {
        assert(r[j] == s[j - 1]);
        assert(s.contains(s[j - 1]));
        if i > 0 {
            assert(r[i] == s[i - 1]);
        }
    }
    assert forall|x: ErrorView| r.contains(x) <==> (x == e || s.contains(x)) by {
        if r.contains(x) {
            let k = choose|k: int| 0 <= k < r.len() && r[k] == x;
            if k > 0 {
                assert(s[k - 1] == x);
            }
        }
        if s.contains(x) {
            let k = choose|k: int| 0 <= k < s.len() && s[k] == x;
            assert(r[k + 1] == x);
        }
        if x == e {
            assert(r[0] == x);
        }
    }
}

/// The entry that a line gives, if it gives one.
pub open spec fn entry_of(l: Seq<char>) -> Option<ErrorView> {
    match row(l) {
        Ok(Some(e)) => Some(e),
        _ => None,
    }
}

/// Some line gives `x`.
pub open spec fn gives(ls: Seq<Seq<char>>, x: ErrorView) -> bool {
    exists|i: int| 0 <= i < ls.len() && entry_of(#[trigger] ls[i]) == Some(x)
}

/// No two lines give entries with the same code.
pub open spec fn codes_distinct(ls: Seq<Seq<char>>) -> bool {
    forall|i: int, j: int|
        0 <= i < ls.len() && 0 <= j < ls.len() && i != j && entry_of(#[trigger] ls[i]) is Some
            && entry_of(#[trigger] ls[j]) is Some ==> entry_of(ls[i])->0.code != entry_of(
            ls[j],
        )->0.code
}

proof fn lemma_parse_lines_ok(ls: Seq<Seq<char>>)
    requires
        parse_lines(ls) is Ok,
    ensures
        sorted_by_code(parse_lines(ls)->Ok_0),
        forall|x: ErrorView| parse_lines(ls)->Ok_0.contains(x) ==> gives(ls, x),
        codes_distinct(ls) ==> forall|x: ErrorView|
            gives(ls, x) ==> parse_lines(ls)->Ok_0.contains(x),
    decreases ls.len(),
{
    if ls.len() > 0 {
        let p = ls.drop_last();
        let n = ls.len() - 1;
        lemma_parse_lines_ok(p);
        let sp = parse_lines(p)->Ok_0;
        let s = parse_lines(ls)->Ok_0;
        assert forall|x: ErrorView| gives(p, x) implies gives(ls, x) by {
            let i = choose|i: int| 0 <= i < p.len() && entry_of(#[trigger] p[i]) == Some(x);
            assert(ls[i] == p[i]);
        }
        assert(codes_distinct(ls) ==> codes_distinct(p)) by {
            if codes_distinct(ls) {
                assert forall|i: int, j: int|
                    0 <= i < p.len() && 0 <= j < p.len() && i != j && entry_of(#[trigger] p[i]) is Some
                        && entry_of(#[trigger] p[j]) is Some implies entry_of(p[i])->0.code
                    != entry_of(p[j])->0.code by {
                    assert(ls[i] == p[i] && ls[j] == p[j]);
                }
            }
        }
        assert forall|x: ErrorView| gives(ls, x) && entry_of(ls[n]) != Some(x) implies gives(p, x) by {
            let i = choose|i: int| 0 <= i < ls.len() && entry_of(#[trigger] ls[i]) == Some(x);
            assert(p[i] == ls[i]);
        }
        match row(ls.last()) {
            Ok(Some(e)) => {
                lemma_insert_sorted(sp, e);
                assert(s == insert_sorted(sp, e));
                assert(s.contains(e));
                assert(entry_of(ls[n]) == Some(e));
                assert forall|x: ErrorView| s.contains(x) implies gives(ls, x) by {
                    if x == e {
                        assert(entry_of(ls[n]) == Some(x));
                    }
                }
                if codes_distinct(ls) {
                    assert forall|x: ErrorView| gives(ls, x) implies s.contains(x) by {
                        if x != e {
                            assert(gives(p, x));
                            let i = choose|i: int| 0 <= i < p.len() && entry_of(#[trigger] p[i]) == Some(x);
                            assert(ls[i] == p[i]);
                            assert(entry_of(ls[i]) is Some && entry_of(ls[n]) is Some);
                            assert(codes_distinct(p));
                            assert(sp.contains(x));
                            assert(x.code != e.code);
                            assert(insert_sorted(sp, e).contains(x));
                        }
                    }
                }
            },
            _ => {},
        }
    }
}

proof fn lemma_sorted_same_elements(a: Seq<ErrorView>, b: Seq<ErrorView>)
    requires
        sorted_by_code(a),
        sorted_by_code(b),
        forall|x: ErrorView| a.contains(x) <==> b.contains(x),
    ensures
        a == b,
    decreases a.len(),
{
    if a.len() == 0 {
        if b.len() > 0 {
            assert(b.contains(b[0]));
        }
        assert(a =~= b);
    } else {
        assert(a.contains(a[0]));
        assert(b.len() > 0);
        assert(b.contains(b[0]));
        let j = choose|j: int| 0 <= j < b.len() && b[j] == a[0];
        let k = choose|k: int| 0 <= k < a.len() && a[k] == b[0];
        if j > 0 {
            if k > 0 {
                lemma_code_lt_irreflexive(a[0].code, a[k].code);
            } else {
                lemma_code_lt_irreflexive(b[0].code, b[j].code);
            }
        }
        assert(a[0] == b[0]);
        let ta = a.drop_first();
        let tb = b.drop_first();
        assert(sorted_by_code(ta)) by {
            assert forall|i: int, l: int| 0 <= i < l < ta.len() implies code_lt(
                #[trigger] ta[i].code,
                #[trigger] ta[l].code,
            ) by {
                assert(ta[i] == a[i + 1] && ta[l] == a[l + 1]);
            }
        }
        assert(sorted_by_code(tb)) by {
            assert forall|i: int, l: int| 0 <= i < l < tb.len() implies code_lt(
                #[trigger] tb[i].code,
                #[trigger] tb[l].code,
            ) by {
                assert(tb[i] == b[i + 1] && tb[l] == b[l + 1]);
            }
        }
        assert forall|x: ErrorView| ta.contains(x) <==> tb.contains(x) by {
            if ta.contains(x) {
                let i = choose|i: int| 0 <= i < ta.len() && ta[i] == x;
                assert(a[i + 1] == x && a.contains(x));
                lemma_code_lt_irreflexive(a[0].code, a[i + 1].code);
                let l = choose|l: int| 0 <= l < b.len() && b[l] == x;
                assert(l != 0);
                assert(tb[l - 1] == x);
            }
            if tb.contains(x) {
                let i = choose|i: int| 0 <= i < tb.len() && tb[i] == x;
                assert(b[i + 1] == x && b.contains(x));
                lemma_code_lt_irreflexive(b[0].code, b[i + 1].code);
                let l = choose|l: int| 0 <= l < a.len() && a[l] == x;
                assert(l != 0);
                assert(ta[l - 1] == x);
            }
        }
        lemma_sorted_same_elements(ta, tb);
        assert(a =~= seq![a[0]] + ta);
        assert(b =~= seq![b[0]] + tb);
    }
}

/// The registry that a table gives is strictly ascending by code, whatever
/// the order of its rows.
pub proof fn law_registry_ascending(t: Seq<char>)
    requires
        parse_table(t) is Ok,
    ensures
        sorted_by_code(parse_table(t)->Ok_0),
{
    lemma_parse_lines_ok(lines(t));
}

/// Every entry of a registry comes from a data row of the table, its code
/// is five characters of `0-9` and `A-Z`, and its name is not empty.
pub proof fn law_codes_valid(t: Seq<char>)
    requires
        parse_table(t) is Ok,
    ensures
        forall|x: ErrorView| #[trigger] parse_table(t)->Ok_0.contains(x) ==> gives(lines(t), x),
        forall|i: int|
            0 <= i < parse_table(t)->Ok_0.len() ==> is_valid_code(
                (#[trigger] parse_table(t)->Ok_0[i]).code,
            ) && parse_table(t)->Ok_0[i].name.len() > 0,
{
    let ls = lines(t);
    let s = parse_table(t)->Ok_0;
    lemma_parse_lines_ok(ls);
    assert(s == parse_lines(ls)->Ok_0);
    assert forall|i: int| 0 <= i < s.len() implies is_valid_code((#[trigger] s[i]).code)
        && s[i].name.len() > 0 by {
        assert(s.contains(s[i]));
        assert(gives(ls, s[i]));
        let k = choose|k: int| 0 <= k < ls.len() && entry_of(#[trigger] ls[k]) == Some(s[i]);
    }
}

proof fn lemma_row_fault_fails(ls: Seq<Seq<char>>, k: int)
    requires
        0 <= k < ls.len(),
        row(ls[k]) is Err,
    ensures
        parse_lines(ls) is Err,
    decreases ls.len(),
{
    if k < ls.len() - 1 {
        assert(ls.drop_last()[k] == ls[k]);
        lemma_row_fault_fails(ls.drop_last(), k);
    }
}

/// A data row whose code is not five characters of `0-9` and `A-Z` makes
/// the whole table fail.
pub proof fn law_malformed_code_rejected(t: Seq<char>, k: int)
    requires
        0 <= k < lines(t).len(),
        !is_skipped(lines(t)[k]),
        !is_valid_code(fields(lines(t)[k])[0]),
    ensures
        parse_table(t) is Err,
{
    lemma_row_fault_fails(lines(t), k);
}

/// Every code of a registry leads, through the lookup, back to its own entry.
pub proof fn law_lookup_round_trip(t: Seq<char>)
    requires
        parse_table(t) is Ok,
    ensures
        forall|i: int|
            0 <= i < parse_table(t)->Ok_0.len() ==> lookup(
                parse_table(t)->Ok_0,
                (#[trigger] parse_table(t)->Ok_0[i]).code,
            ) == Some(parse_table(t)->Ok_0[i]),
{
    let s = parse_table(t)->Ok_0;
    lemma_parse_lines_ok(lines(t));
    assert forall|i: int| 0 <= i < s.len() implies lookup(s, (#[trigger] s[i]).code) == Some(s[i]) by {
        let j = choose|j: int| 0 <= j < s.len() && (#[trigger] s[j]).code == s[i].code;
        if j < i {
            lemma_code_lt_irreflexive(s[j].code, s[i].code);
        } else if j > i {
            lemma_code_lt_irreflexive(s[i].code, s[j].code);
        }
    }
}

/// Two tables whose data rows give the same entries, each code once, in
/// whatever order and among whatever other lines, give the same registry
/// and the same generated source.
pub proof fn law_row_order_irrelevant(t1: Seq<char>, t2: Seq<char>)
    requires
        parse_table(t1) is Ok,
        parse_table(t2) is Ok,
        codes_distinct(lines(t1)),
        codes_distinct(lines(t2)),
        forall|x: ErrorView| gives(lines(t1), x) <==> gives(lines(t2), x),
    ensures
        parse_table(t1) == parse_table(t2),
        module_text(parse_table(t1)->Ok_0) == module_text(parse_table(t2)->Ok_0),
{
    let a = parse_table(t1)->Ok_0;
    let b = parse_table(t2)->Ok_0;
    lemma_parse_lines_ok(lines(t1));
    lemma_parse_lines_ok(lines(t2));
    assert(a == parse_lines(lines(t1))->Ok_0);
    assert(b == parse_lines(lines(t2))->Ok_0);
    assert forall|x: ErrorView| a.contains(x) <==> b.contains(x) by {
        if a.contains(x) {
            assert(gives(lines(t1), x));
        }
        if b.contains(x) {
            assert(gives(lines(t2), x));
        }
    }
    lemma_sorted_same_elements(parse_table(t1)->Ok_0, parse_table(t2)->Ok_0);
}

proof fn lemma_rows_ok(ls: Seq<Seq<char>>)
    requires
        forall|i: int| 0 <= i < ls.len() ==> row(#[trigger] ls[i]) is Ok,
    ensures
        parse_lines(ls) is Ok,
    decreases ls.len(),
{
    if ls.len() > 0 {
        let p = ls.drop_last();
        assert forall|i: int| 0 <= i < p.len() implies row(#[trigger] p[i]) is Ok by {
            assert(p[i] == ls[i]);
        }
        lemma_rows_ok(p);
        assert(row(ls[ls.len() - 1]) is Ok);
    }
}

proof fn lemma_repeat_counts_twice(s: Seq<Seq<char>>, i: int, j: int)
    requires
        0 <= i < s.len(),
        0 <= j < s.len(),
        i != j,
        s[i] == s[j],
    ensures
        s.to_multiset().count(s[i]) >= 2,
{
    broadcast use vstd::multiset::group_multiset_axioms;
    s.to_multiset_ensures();
    let r = s.remove(i);
    r.to_multiset_ensures();
    let k = if j < i { j } else { j - 1 };
    assert(r[k] == s[i]);
    assert(r.contains(s[i]));
    assert(r.to_multiset() =~= s.to_multiset().remove(s[i]));
    assert(r.to_multiset().count(s[i]) > 0);
}

proof fn lemma_twice_has_repeat(s: Seq<Seq<char>>, a: Seq<char>)
    requires
        s.to_multiset().count(a) >= 2,
    ensures
        exists|i: int, j: int| 0 <= i < s.len() && 0 <= j < s.len() && i != j && s[i] == a && s[j] == a,
{
    broadcast use vstd::multiset::group_multiset_axioms;
    s.to_multiset_ensures();
    let i = choose|i: int| 0 <= i < s.len() && s[i] == a;
    let r = s.remove(i);
    r.to_multiset_ensures();
    assert(r.to_multiset() =~= s.to_multiset().remove(s[i]));
    assert(r.to_multiset().count(a) > 0);
    assert(r.contains(a));
    let k = choose|k: int| 0 <= k < r.len() && r[k] == a;
    let j = if k < i { k } else { k + 1 };
    assert(s[j] == a);
}

/// Shuffling the lines of a table whose data rows have distinct codes
/// changes neither whether it parses nor the registry and source it gives.
pub proof fn law_shuffled_lines(t1: Seq<char>, t2: Seq<char>)
    requires
        lines(t1).to_multiset() == lines(t2).to_multiset(),
        parse_table(t1) is Ok,
        codes_distinct(lines(t1)),
    ensures
        codes_distinct(lines(t2)),
        parse_table(t2) is Ok,
        parse_table(t1) == parse_table(t2),
        module_text(parse_table(t1)->Ok_0) == module_text(parse_table(t2)->Ok_0),
{
    let l1 = lines(t1);
    let l2 = lines(t2);
    l1.to_multiset_ensures();
    l2.to_multiset_ensures();
    assert forall|l: Seq<char>| l1.contains(l) <==> l2.contains(l) by {
        assert(l1.contains(l) <==> l1.to_multiset().count(l) > 0);
        assert(l2.contains(l) <==> l2.to_multiset().count(l) > 0);
    }
    assert forall|j: int| 0 <= j < l2.len() implies row(#[trigger] l2[j]) is Ok by {
        assert(l2.contains(l2[j]));
        let i = choose|i: int| 0 <= i < l1.len() && l1[i] == l2[j];
        if row(l1[i]) is Err {
            lemma_row_fault_fails(l1, i);
        }
    }
    lemma_rows_ok(l2);
    assert forall|i: int, j: int|
        0 <= i < l2.len() && 0 <= j < l2.len() && i != j && entry_of(#[trigger] l2[i]) is Some
            && entry_of(#[trigger] l2[j]) is Some implies entry_of(l2[i])->0.code != entry_of(
        l2[j],
    )->0.code by {
        if entry_of(l2[i])->0.code == entry_of(l2[j])->0.code {
            if l2[i] == l2[j] {
                lemma_repeat_counts_twice(l2, i, j);
                lemma_twice_has_repeat(l1, l2[i]);
                let (a, b) = choose|a: int, b: int|
                    0 <= a < l1.len() && 0 <= b < l1.len() && a != b && l1[a] == l2[i] && l1[b] == l2[i];
                assert(entry_of(l1[a]) is Some && entry_of(l1[b]) is Some);
            } else {
                assert(l1.contains(l2[i]) && l1.contains(l2[j]));
                let a = choose|a: int| 0 <= a < l1.len() && l1[a] == l2[i];
                let b = choose|b: int| 0 <= b < l1.len() && l1[b] == l2[j];
                assert(entry_of(l1[a]) is Some && entry_of(l1[b]) is Some);
            }
        }
    }
    assert forall|x: ErrorView| gives(l1, x) <==> gives(l2, x) by {
        if gives(l1, x) {
            let i = choose|i: int| 0 <= i < l1.len() && entry_of(#[trigger] l1[i]) == Some(x);
            assert(l1.contains(l1[i]));
            let j = choose|j: int| 0 <= j < l2.len() && l2[j] == l1[i];
            assert(entry_of(l2[j]) == Some(x));
        }
        if gives(l2, x) {
            let j = choose|j: int| 0 <= j < l2.len() && entry_of(#[trigger] l2[j]) == Some(x);
            assert(l2.contains(l2[j]));
            let i = choose|i: int| 0 <= i < l1.len() && l1[i] == l2[j];
            assert(entry_of(l1[i]) == Some(x));
        }
    }
    law_row_order_irrelevant(t1, t2);
}

/// `piece` stands in `big` from position `k` on.
pub open spec fn holds_at(big: Seq<char>, piece: Seq<char>, k: int) -> bool {
    0 <= k && k + piece.len() <= big.len() && big.subrange(k, k + piece.len()) == piece
}

proof fn lemma_shift(a: Seq<char>, big: Seq<char>, b: Seq<char>, piece: Seq<char>, k: int)
    requires
        holds_at(big, piece, k),
    ensures
        holds_at(a + big + b, piece, a.len() + k),
{
    assert((a + big + b).subrange(a.len() + k, a.len() + k + piece.len()) =~= big.subrange(
        k,
        k + piece.len(),
    ));
}

proof fn lemma_const_in_consts(s: Seq<ErrorView>, i: int) -> (k: int)
    requires
        0 <= i < s.len(),
    ensures
        holds_at(consts_text(s), const_text(s[i]), k),
    decreases s.len(),
{
    let p = s.drop_last();
    let c = const_text(s.last());
    if i == s.len() - 1 {
        assert((consts_text(p) + c).subrange(consts_text(p).len() as int, (consts_text(p).len() + c.len()) as int) =~= c);
        consts_text(p).len() as int
    } else {
        let k = lemma_const_in_consts(p, i);
        assert(p[i] == s[i]);
        lemma_shift(Seq::empty(), consts_text(p), c, const_text(s[i]), k);
        assert(Seq::<char>::empty() + consts_text(p) + c =~= consts_text(s));
        k
    }
}

proof fn lemma_arm_in_arms(s: Seq<ErrorView>, i: int) -> (k: int)
    requires
        0 <= i < s.len(),
    ensures
        holds_at(arms_text(s), arm_text(s[i]), k),
    decreases s.len(),
{
    if s.len() == 1 {
        assert(arms_text(s).subrange(0, arm_text(s[0]).len() as int) =~= arm_text(s[0]));
        0
    } else {
        let p = s.drop_last();
        let c = arm_text(s.last());
        let ap = arms_text(p);
        assert(arms_text(s) == ap + "\n"@ + c);
        if i == s.len() - 1 {
            assert(c.subrange(0, c.len() as int) =~= c);
            lemma_shift(ap + "\n"@, c, Seq::empty(), c, 0);
            assert(ap + "\n"@ + c + Seq::<char>::empty() =~= arms_text(s));
            assert(c.subrange(0, c.len() as int) =~= c);
            (ap + "\n"@).len() as int
        } else {
            let k = lemma_arm_in_arms(p, i);
            assert(p[i] == s[i]);
            lemma_shift(Seq::empty(), ap, "\n"@ + c, arm_text(s[i]), k);
            assert(Seq::<char>::empty() + ap + ("\n"@ + c) =~= arms_text(s));
            k
        }
    }
}

/// In the source generated for a table, entry `i` of the registry has its
/// constant, whose `code` field is the entry's code, at the first position
/// returned, and the arm of `from_code` that leads from that code to the
/// constant's name at the second. No other entry has that code, so no other
/// arm matches it.
pub proof fn law_emitted_lookup_round_trip(t: Seq<char>, i: int) -> (r: (int, int))
    requires
        parse_table(t) is Ok,
        0 <= i < parse_table(t)->Ok_0.len(),
    ensures
        holds_at(module_text(parse_table(t)->Ok_0), const_text(parse_table(t)->Ok_0[i]), r.0),
        holds_at(module_text(parse_table(t)->Ok_0), arm_text(parse_table(t)->Ok_0[i]), r.1),
        forall|j: int|
            0 <= j < parse_table(t)->Ok_0.len() && j != i ==> (#[trigger] parse_table(t)->Ok_0[j]).code
                != parse_table(t)->Ok_0[i].code,
{
    let s = parse_table(t)->Ok_0;
    let m = module_text(s);
    law_registry_ascending(t);
    let ka = lemma_const_in_consts(s, i);
    lemma_shift(header_text(), consts_text(s), lookup_text(s), const_text(s[i]), ka);
    assert(header_text() + consts_text(s) + lookup_text(s) =~= m);
    let kb = lemma_arm_in_arms(s, i);
    let before = header_text() + consts_text(s) + lookup_head();
    lemma_shift(before, arms_text(s), lookup_tail(), arm_text(s[i]), kb);
    assert(before + arms_text(s) + lookup_tail() =~= m);
    assert forall|j: int| 0 <= j < s.len() && j != i implies (#[trigger] s[j]).code != s[i].code by {
        if i < j {
            lemma_code_lt_irreflexive(s[i].code, s[j].code);
        } else {
            lemma_code_lt_irreflexive(s[j].code, s[i].code);
        }
    }
    (header_text().len() + ka, before.len() + kb)
}

/// A code that no entry of the registry has is found by no lookup, and the
/// generated `from_code` ends with the catch-all arm that faults, after the
/// arms of the registry's entries alone.
pub proof fn law_unknown_code_faults(t: Seq<char>, c: Seq<char>)
    requires
        parse_table(t) is Ok,
        forall|i: int| 0 <= i < parse_table(t)->Ok_0.len() ==> (#[trigger] parse_table(t)->Ok_0[i]).code != c,
    ensures
        lookup(parse_table(t)->Ok_0, c) is None,
        module_text(parse_table(t)->Ok_0) == header_text() + consts_text(parse_table(t)->Ok_0)
            + lookup_head() + arms_text(parse_table(t)->Ok_0) + lookup_tail(),
        holds_at(
            module_text(parse_table(t)->Ok_0),
            lookup_tail(),
            module_text(parse_table(t)->Ok_0).len() - lookup_tail().len(),
        ),
{
    let s = parse_table(t)->Ok_0;
    let m = module_text(s);
    let before = header_text() + consts_text(s) + lookup_head() + arms_text(s);
    assert(before + lookup_tail() =~= m);
    assert(m.subrange(before.len() as int, m.len() as int) =~= lookup_tail());
}

} // verus!
