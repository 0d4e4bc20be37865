use crate::display::{
    cells_text, row_text,
    digit_char, document_text, entries_text, items_text, lines_text, nat_text, rows_text,
    section_text, separator, value_text,
};
use crate::parser::{
    commit, empty_section, entry_stops, header_end, header_name_start, header_text, parse_entries,
    parse_cells, parse_entry, parse_items, parse_value, value_start, walk_doc, walk_fails,
};
use crate::section::{cell_shaped, name_shaped, row_shaped, rows_model, section_model, sections_model, Section, SectionModel};
use crate::value::Row;
use crate::text::{
    delimiter, digit_end, digits_value, escape, is_blank, is_digit_char, is_key_char, key_end,
    lemma_digit_end, lemma_escape_round_trip, lemma_key_end, lemma_scan_past_escaped, scan_end,
    find_char, is_space, lemma_escape_front, lemma_skip_lines_at_least, skip_blanks, skip_lines,
    trim_end, unescape, cell_escape_char, escape_char,
};
use crate::value::{
    entry_models, key_shaped, model_of, models, readable, readable_entries, readable_items, Model,
    Value,
};
use vstd::prelude::*;

verus! {

/// What may follow a written value without running into it: nothing, a
/// blank, a line break, a comma or a closing bracket.
pub open spec fn ends_token(t: Seq<char>) -> bool {
    t.len() == 0 || t[0] == ' ' || t[0] == '\n' || t[0] == ',' || t[0] == ']' || t[0] == '}'
}

proof fn lemma_digit_char(d: int)
    requires
        0 <= d < 10,
    ensures
        is_digit_char(digit_char(d)),
        digit_char(d) as int - '0' as int == d,
{
}

/// The decimal digits of `m` are digits and read back as `m`.
proof fn lemma_nat_text(m: nat)
    ensures
        nat_text(m).len() > 0,
        forall|i: int| 0 <= i < nat_text(m).len() ==> is_digit_char(#[trigger] nat_text(m)[i]),
        digits_value(nat_text(m)) == m,
    decreases m,
{
    if m < 10 {
        lemma_digit_char(m as int);
        assert(nat_text(m).drop_last() =~= Seq::<char>::empty());
        assert(digits_value(nat_text(m).drop_last()) == 0);
        assert(nat_text(m).last() == digit_char(m as int));
    } else {
        lemma_nat_text(m / 10);
        lemma_digit_char((m % 10) as int);
        let t = nat_text(m);
        assert(t.drop_last() =~= nat_text(m / 10));
        assert(forall|i: int|
            0 <= i < nat_text(m / 10).len() ==> #[trigger] t[i] == nat_text(m / 10)[i]);
        assert(t.last() == digit_char((m % 10) as int));
        assert(digits_value(t) == digits_value(nat_text(m / 10)) * 10 + (m % 10) as int);
        assert((m / 10) * 10 + m % 10 == m) by (nonlinear_arith);
    }
}

/// A scalar (string, integer, float or boolean) written in quoted form reads
/// back as itself, whatever precedes it and whatever token-ending text follows.
proof fn lemma_scalar_round_trip(v: Value, p: Seq<char>, t: Seq<char>)
    requires
        readable(v),
        ends_token(t),
        !(v is Array),
        !(v is Dictionary),
    ensures
        parse_value(p + value_text(v, true) + t, p.len() as int) == Some(
            (model_of(v), p.len() + value_text(v, true).len() as int),
        ),
{
    let w = value_text(v, true);
    let s = p + w + t;
    let q = p.len() as int;
    assert(s.subrange(q, q + w.len()) =~= w);
    assert(forall|i: int| 0 <= i < w.len() ==> #[trigger] s[q + i] == w[i]);
    match v {
        Value::String(x) => {
            assert(w =~= seq!['"'] + escape(x@, false) + seq!['"']);
            assert(s[q] == '"');
            assert(value_start(s, q) == q);
            let lead = p + seq!['"'];
            lemma_scan_past_escaped(lead, x@, t, false);
            assert(s =~= lead + escape(x@, false) + seq![delimiter(false)] + t);
            let e = scan_end(s, q + 1, '"');
            assert(e == q + 1 + escape(x@, false).len());
            assert(s.subrange(q + 1, e) =~= escape(x@, false));
            lemma_escape_round_trip(x@, false);
        },
        Value::Integer(n) => {
            lemma_nat_text(n as nat);
            assert(w == nat_text(n as nat));
            assert(value_start(s, q) == q);
            lemma_digit_end(s, q, q + w.len());
            assert(s.subrange(q, q + w.len()) =~= w);
        },
        Value::Float(x) => {
            let k = digit_end(x@, 0);
            assert(w == x@);
            assert(forall|i: int| 0 <= i < k ==> is_digit_char(#[trigger] x@[i])) by {
                assert forall|i: int| 0 <= i < k implies is_digit_char(#[trigger] x@[i]) by {
                    lemma_digit_run_in(x@, 0, i);
                }
            }
            assert(forall|i: int|
                k + 1 <= i < x@.len() ==> is_digit_char(#[trigger] x@[i])) by {
                assert forall|i: int| k + 1 <= i < x@.len() implies is_digit_char(
                    #[trigger] x@[i],
                ) by {
                    lemma_digit_run_in(x@, k + 1, i);
                }
            }
            assert(is_digit_char(s[q]));
            assert(value_start(s, q) == q);
            lemma_digit_end(s, q, q + k);
            lemma_digit_end(s, q + k + 1, q + w.len());
        },
        Value::Boolean(b) => {
            assert(value_start(s, q) == q);
            if b {
                assert(s.subrange(q, q + 4) =~= seq!['t', 'r', 'u', 'e']);
            } else {
                assert(s.subrange(q, q + 5) =~= seq!['f', 'a', 'l', 's', 'e']);
            }
        },
        _ => {},
    }
}

proof fn lemma_digit_run_in(s: Seq<char>, i: int, j: int)
    requires
        0 <= i <= j < digit_end(s, i),
    ensures
        is_digit_char(s[j]),
    decreases j - i,
{
    if i < j {
        lemma_digit_run_in(s, i + 1, j);
    }
}

/// A readable value's text is not empty and opens with a character that
/// starts a value.
proof fn lemma_first_char(v: Value)
    requires
        readable(v),
    ensures
        value_text(v, true).len() > 0,
        ({
            let c = value_text(v, true)[0];
            c == '"' || c == '[' || c == '{' || c == 't' || c == 'f' || is_digit_char(c)
        }),
{
    match v {
        Value::Integer(n) => {
            lemma_nat_text(n as nat);
        },
        Value::Float(x) => {
            lemma_digit_run_in(x@, 0, 0);
        },
        _ => {},
    }
}

proof fn lemma_items_text_prefix(a: Seq<Value>, k: int, n: int)
    requires
        0 <= k <= n <= a.len(),
    ensures
        items_text(a, k).len() <= items_text(a, n).len(),
        items_text(a, n).subrange(0, items_text(a, k).len() as int) == items_text(a, k),
    decreases n - k,
{
    if k < n {
        lemma_items_text_prefix(a, k, n - 1);
        assert(items_text(a, n).subrange(0, items_text(a, k).len() as int) =~= items_text(
            a,
            n - 1,
        ).subrange(0, items_text(a, k).len() as int));
    } else {
        assert(items_text(a, n).subrange(0, items_text(a, k).len() as int) =~= items_text(a, k));
    }
}

proof fn lemma_entries_text_prefix(a: Seq<(String, Value)>, k: int, n: int)
    requires
        0 <= k <= n <= a.len(),
    ensures
        entries_text(a, k).len() <= entries_text(a, n).len(),
        entries_text(a, n).subrange(0, entries_text(a, k).len() as int) == entries_text(a, k),
    decreases n - k,
{
    if k < n {
        lemma_entries_text_prefix(a, k, n - 1);
        assert(entries_text(a, n).subrange(0, entries_text(a, k).len() as int) =~= entries_text(
            a,
            n - 1,
        ).subrange(0, entries_text(a, k).len() as int));
    } else {
        assert(entries_text(a, n).subrange(0, entries_text(a, k).len() as int) =~= entries_text(
            a,
            k,
        ));
    }
}

proof fn lemma_readable_items(a: Seq<Value>, n: int, i: int)
    requires
        readable_items(a, n),
        0 <= i < n <= a.len(),
    ensures
        readable(a[i]),
    decreases n,
{
    if i < n - 1 {
        lemma_readable_items(a, n - 1, i);
    }
}

proof fn lemma_readable_entries(a: Seq<(String, Value)>, n: int, i: int)
    requires
        readable_entries(a, n),
        0 <= i < n <= a.len(),
    ensures
        key_shaped(a[i].0@),
        readable(a[i].1),
    decreases n,
{
    if i < n - 1 {
        lemma_readable_entries(a, n - 1, i);
    }
}

/// A readable value written in quoted form (as a dictionary entry writes
/// it) reads back as the same value, whatever precedes it and whatever
/// token-ending text follows.
pub proof fn lemma_value_round_trip(v: Value, p: Seq<char>, t: Seq<char>)
    requires
        readable(v),
        ends_token(t),
    ensures
        parse_value(p + value_text(v, true) + t, p.len() as int) == Some(
            (model_of(v), p.len() + value_text(v, true).len() as int),
        ),
    decreases v, 0int,
{
    broadcast use vstd::std_specs::vec::group_vec_axioms;

    let w = value_text(v, true);
    let s = p + w + t;
    let q = p.len() as int;
    match v {
        Value::Array(a) => {
            assert(decreases_to!(v => a));
            assert(decreases_to!(a => a@));
            assert(w =~= seq!['[', ' '] + items_text(a@, a@.len() as int) + seq![' ', ']']);
            assert(s[q] == '[');
            assert(value_start(s, q) == q);
            lemma_items_round_trip(a@, p, t);
        },
        Value::Dictionary(d) => {
            assert(decreases_to!(v => d));
            d.lemma_pairs_decrease();
            assert(w =~= seq!['{', ' '] + entries_text(d.pairs(), d.pairs().len() as int) + seq![
                ' ',
                '}',
            ]);
            assert(s[q] == '{');
            assert(value_start(s, q) == q);
            lemma_entries_round_trip(d.pairs(), p, t);
        },
        _ => lemma_scalar_round_trip(v, p, t),
    }
}

/// `p`, then an array written with elements `a`, then `t`.
pub open spec fn array_text(p: Seq<char>, a: Seq<Value>, t: Seq<char>) -> Seq<char> {
    p + (seq!['[', ' '] + items_text(a, a.len() as int) + seq![' ', ']']) + t
}

/// `p`, then a dictionary written with entries `a`, then `t`.
pub open spec fn dict_text(p: Seq<char>, a: Seq<(String, Value)>, t: Seq<char>) -> Seq<char> {
    p + (seq!['{', ' '] + entries_text(a, a.len() as int) + seq![' ', '}']) + t
}

proof fn lemma_items_round_trip(a: Seq<Value>, p: Seq<char>, t: Seq<char>)
    requires
        readable_items(a, a.len() as int),
        ends_token(t),
    ensures
        parse_items(array_text(p, a, t), p.len() as int + 1, Seq::empty()) == Some(
            (
                models(a, a.len() as int),
                p.len() as int + 4 + items_text(a, a.len() as int).len() as int,
            ),
        ),
    decreases a, a.len() + 1,
{
    let n = a.len() as int;
    let s = array_text(p, a, t);
    let pl = p.len() as int;
    let body = items_text(a, n);
    if n == 0 {
        assert(body.len() == 0);
        assert(s =~= p + seq!['[', ' ', ' ', ']'] + t);
        assert(skip_lines(s, pl + 3) == pl + 3);
        assert(skip_lines(s, pl + 2) == pl + 3);
        assert(skip_lines(s, pl + 1) == pl + 3);
    } else {
        assert(items_text(a, 0) =~= Seq::<char>::empty());
        assert(models(a, 0) =~= Seq::<Model>::empty());
        lemma_item_at(a, 0, p, t);
        lemma_items_from(a, 1, p, t);
    }
}

/// Reading the element written at index `k` gives its model.
#[verifier::rlimit(100)]
proof fn lemma_item_at(a: Seq<Value>, k: int, p: Seq<char>, t: Seq<char>)
    requires
        readable_items(a, a.len() as int),
        ends_token(t),
        0 <= k < a.len(),
    ensures
        ({
            let s = array_text(p, a, t);
            let off = p.len() as int + 2 + items_text(a, k).len() as int;
            let q = if k == 0 {
                off
            } else {
                off + 2
            };
            &&& skip_lines(s, if k == 0 {
                p.len() as int + 1
            } else {
                off + 1
            }) == q
            &&& s[q] != ']' && s[q] != ','
            &&& (k > 0 ==> s[off] == ',' && skip_lines(s, off) == off)
            &&& parse_value(s, q) == Some(
                (model_of(a[k]), p.len() as int + 2 + items_text(a, k + 1).len() as int),
            )
        }),
    decreases a, 0int,
{
    let n = a.len() as int;
    let s = array_text(p, a, t);
    let pl = p.len() as int;
    let body = items_text(a, n);
    let off = pl + 2 + items_text(a, k).len() as int;
    lemma_items_text_prefix(a, k + 1, n);
    lemma_readable_items(a, n, k);
    lemma_first_char(a[k]);
    let wk = value_text(a[k], true);
    let x = separator(k) + wk;
    assert(items_text(a, k + 1) == items_text(a, k) + x);
    let l1 = items_text(a, k + 1).len() as int;
    let r = body.subrange(l1, body.len() as int);
    assert(body =~= items_text(a, k + 1) + r);
    let head = p + seq!['[', ' '] + items_text(a, k);
    let rest = r + seq![' ', ']'] + t;
    assert(s =~= head + x + rest);
    let q = if k == 0 {
        off
    } else {
        off + 2
    };
    assert(head.len() == off);
    if k == 0 {
        assert(s[pl + 1] == ' ');
        assert(s[q] == wk[0]);
    } else {
        assert(s[off] == ',');
        assert(s[off + 1] == ' ');
        assert(s[q] == wk[0]);
    }
    assert(skip_lines(s, q) == q);
    if k == 0 {
        assert(skip_lines(s, pl + 1) == q);
    } else {
        assert(skip_lines(s, off + 1) == q);
        assert(skip_lines(s, off) == off);
    }
    let lead = s.subrange(0, q);
    let t2 = s.subrange(q + wk.len(), s.len() as int);
    assert(s =~= lead + wk + t2);
    if k + 1 < n {
        lemma_items_text_prefix(a, k + 2, n);
        assert(items_text(a, k + 2) == items_text(a, k + 1) + separator(k + 1) + value_text(
            a[k + 1],
            true,
        ));
        assert(r =~= body.subrange(l1, body.len() as int));
        assert(body.subrange(0, items_text(a, k + 2).len() as int) == items_text(a, k + 2));
        assert(body[l1] == items_text(a, k + 2)[l1]);
        assert(t2[0] == ',');
    } else {
        assert(r.len() == 0);
        assert(t2[0] == ' ');
    }
    lemma_value_round_trip(a[k], lead, t2);
}

proof fn lemma_items_from(a: Seq<Value>, k: int, p: Seq<char>, t: Seq<char>)
    requires
        readable_items(a, a.len() as int),
        ends_token(t),
        1 <= k <= a.len(),
    ensures
        parse_items(
            array_text(p, a, t),
            p.len() as int + 2 + items_text(a, k).len() as int,
            models(a, k),
        ) == Some(
            (
                models(a, a.len() as int),
                p.len() as int + 4 + items_text(a, a.len() as int).len() as int,
            ),
        ),
    decreases a, a.len() - k + 1,
{
    let n = a.len() as int;
    let s = array_text(p, a, t);
    let pl = p.len() as int;
    let off = pl + 2 + items_text(a, k).len() as int;
    if k == n {
        assert(s =~= (p + seq!['['] + seq![' '] + items_text(a, n)) + seq![' ', ']'] + t);
        assert(s[off] == ' ');
        assert(s[off + 1] == ']');
        assert(skip_lines(s, off + 1) == off + 1);
        assert(skip_lines(s, off) == off + 1);
    } else {
        lemma_item_at(a, k, p, t);
        lemma_items_from(a, k + 1, p, t);
        lemma_items_text_prefix(a, k + 1, n);
        lemma_readable_items(a, n, k);
        lemma_first_char(a[k]);
        let e = pl + 2 + items_text(a, k + 1).len() as int;
        assert(items_text(a, k + 1) == items_text(a, k) + separator(k) + value_text(a[k], true));
        assert(models(a, k + 1) == models(a, k).push(model_of(a[k])));
        assert(e <= s.len());
        assert(parse_items(s, off + 1, models(a, k)) == parse_items(s, e, models(a, k + 1)));
        assert(parse_items(s, off, models(a, k)) == parse_items(s, off + 1, models(a, k)));
    }
}

proof fn lemma_entries_round_trip(a: Seq<(String, Value)>, p: Seq<char>, t: Seq<char>)
    requires
        readable_entries(a, a.len() as int),
        ends_token(t),
    ensures
        parse_entries(dict_text(p, a, t), p.len() as int + 1, Map::empty()) == Some(
            (
                entry_models(a, a.len() as int),
                p.len() as int + 4 + entries_text(a, a.len() as int).len() as int,
            ),
        ),
    decreases a, a.len() + 1,
{
    let n = a.len() as int;
    let s = dict_text(p, a, t);
    let pl = p.len() as int;
    let body = entries_text(a, n);
    if n == 0 {
        assert(body.len() == 0);
        assert(s =~= p + seq!['{', ' ', ' ', '}'] + t);
        assert(skip_blanks(s, pl + 3) == pl + 3);
        assert(skip_blanks(s, pl + 2) == pl + 3);
        assert(skip_blanks(s, pl + 1) == pl + 3);
        assert(entry_models(a, 0) =~= Map::<Seq<char>, Model>::empty());
    } else {
        assert(entries_text(a, 0) =~= Seq::<char>::empty());
        assert(entry_models(a, 0) =~= Map::<Seq<char>, Model>::empty());
        lemma_entry_at(a, 0, p, t);
        lemma_entries_from(a, 1, p, t);
    }
}

/// Where an entry `sep key = value` stands in `s`: the characters of its
/// parts, and how blanks around `=` are skipped.
proof fn lemma_entry_chars(
    s: Seq<char>,
    head: Seq<char>,
    sep: Seq<char>,
    key: Seq<char>,
    wk: Seq<char>,
    rest: Seq<char>,
)
    requires
        s == head + (sep + key + seq![' ', '=', ' '] + wk) + rest,
        key_shaped(key),
        wk.len() > 0,
        !is_blank(wk[0]),
    ensures
        ({
            let q = head.len() as int + sep.len() as int;
            let ke = q + key.len() as int;
            &&& forall|j: int| q <= j < ke ==> is_key_char(#[trigger] s[j])
            &&& s[q] == key[0]
            &&& s[ke] == ' ' && s[ke + 1] == '=' && s[ke + 2] == ' ' && s[ke + 3] == wk[0]
            &&& skip_blanks(s, ke) == ke + 1
            &&& skip_blanks(s, ke + 2) == ke + 3
            &&& s.subrange(q, ke) == key
            &&& s == s.subrange(0, ke + 3) + wk + s.subrange(
                ke + 3 + wk.len() as int,
                s.len() as int,
            )
            &&& s.subrange(ke + 3 + wk.len() as int, s.len() as int) == rest
        }),
{
    let q = head.len() as int + sep.len() as int;
    let ke = q + key.len() as int;
    assert(forall|j: int| 0 <= j < key.len() ==> #[trigger] s[q + j] == key[j]);
    assert forall|j: int| q <= j < ke implies is_key_char(#[trigger] s[j]) by {
        assert(s[q + (j - q)] == key[j - q]);
    }
    assert(skip_blanks(s, ke + 1) == ke + 1);
    assert(skip_blanks(s, ke + 3) == ke + 3);
    assert(s.subrange(q, ke) =~= key);
    assert(s.subrange(ke + 3 + wk.len() as int, s.len() as int) =~= rest);
    assert(s =~= s.subrange(0, ke + 3) + wk + s.subrange(
        ke + 3 + wk.len() as int,
        s.len() as int,
    ));
}

/// After the text of entry `k`, the entries' text goes on with a comma, or ends.
proof fn lemma_entries_rest(a: Seq<(String, Value)>, k: int)
    requires
        0 <= k < a.len(),
    ensures
        ({
            let body = entries_text(a, a.len() as int);
            let l1 = entries_text(a, k + 1).len() as int;
            l1 <= body.len() && (l1 == body.len() || body[l1] == ',')
        }),
{
    let n = a.len() as int;
    lemma_entries_text_prefix(a, k + 1, n);
    if k + 1 < n {
        lemma_entries_text_prefix(a, k + 2, n);
        let l1 = entries_text(a, k + 1).len() as int;
        assert(entries_text(a, k + 2) =~= entries_text(a, k + 1) + (separator(k + 1) + a[k
            + 1].0@ + seq![' ', '=', ' '] + value_text(a[k + 1].1, true)));
        assert(entries_text(a, n).subrange(0, entries_text(a, k + 2).len() as int)[l1]
            == entries_text(a, n)[l1]);
    }
}

/// An entry whose key, `=` and value stand at the given places reads as
/// that key and value.
proof fn lemma_parse_entry_from(s: Seq<char>, q: int, ke: int, key: Seq<char>, m: Model, e: int)
    requires
        0 <= q < ke,
        ke + 3 <= s.len(),
        forall|j: int| q <= j < ke ==> is_key_char(#[trigger] s[j]),
        s[ke] == ' ',
        s[ke + 1] == '=',
        skip_blanks(s, ke) == ke + 1,
        skip_blanks(s, ke + 2) == ke + 3,
        s.subrange(q, ke) == key,
        parse_value(s, ke + 3) == Some((m, e)),
    ensures
        parse_entry(s, q) == Some((key, m, e)),
{
    lemma_key_end(s, q, ke);
}

/// Reading the entry written at index `k` gives its name and the model of
/// its value.
#[verifier::rlimit(100)]
#[verifier::spinoff_prover]
proof fn lemma_entry_at(a: Seq<(String, Value)>, k: int, p: Seq<char>, t: Seq<char>)
    requires
        readable_entries(a, a.len() as int),
        ends_token(t),
        0 <= k < a.len(),
    ensures
        ({
            let s = dict_text(p, a, t);
            let off = p.len() as int + 2 + entries_text(a, k).len() as int;
            let q = if k == 0 {
                off
            } else {
                off + 2
            };
            &&& skip_blanks(s, if k == 0 {
                p.len() as int + 1
            } else {
                off + 1
            }) == q
            &&& s[q] != '}' && s[q] != ',' && s[q] != '\n'
            &&& (k > 0 ==> s[off] == ',' && skip_blanks(s, off) == off)
            &&& parse_entry(s, q) == Some(
                (
                    a[k].0@,
                    model_of(a[k].1),
                    p.len() as int + 2 + entries_text(a, k + 1).len() as int,
                ),
            )
        }),
    decreases a, 0int,
{
    let n = a.len() as int;
    let s = dict_text(p, a, t);
    let pl = p.len() as int;
    let body = entries_text(a, n);
    let off = pl + 2 + entries_text(a, k).len() as int;
    lemma_entries_text_prefix(a, k + 1, n);
    lemma_readable_entries(a, n, k);
    let key = a[k].0@;
    let wk = value_text(a[k].1, true);
    lemma_first_char(a[k].1);
    let x = separator(k) + key + seq![' ', '=', ' '] + wk;
    let l1 = entries_text(a, k + 1).len() as int;
    let r = body.subrange(l1, body.len() as int);
    let head = p + seq!['{', ' '] + entries_text(a, k);
    let rest = r + seq![' ', '}'] + t;
    assert(s == head + x + rest) by {
        assert(entries_text(a, k + 1) =~= entries_text(a, k) + x);
        assert(body =~= entries_text(a, k + 1) + r);
        assert(s =~= head + x + rest);
    }
    assert(head.len() == off);
    let q = if k == 0 {
        off
    } else {
        off + 2
    };
    let ke = q + key.len();
    lemma_entry_chars(s, head, separator(k), key, wk, rest);
    assert(is_key_char(key[0]));
    assert(skip_blanks(s, q) == q);
    if k == 0 {
        assert(s[pl + 1] == ' ');
        assert(skip_blanks(s, pl + 1) == q);
    } else {
        assert(s[off] == ',');
        assert(s[off + 1] == ' ');
        assert(skip_blanks(s, off + 1) == q);
        assert(skip_blanks(s, off) == off);
    }
    let lead = s.subrange(0, ke + 3);
    let t2 = s.subrange(ke + 3 + wk.len(), s.len() as int);
    lemma_entries_rest(a, k);
    assert(t2 == rest);
    lemma_value_round_trip(a[k].1, lead, t2);
    lemma_parse_entry_from(s, q, ke, key, model_of(a[k].1), ke + 3 + wk.len());
}

proof fn lemma_entries_from(a: Seq<(String, Value)>, k: int, p: Seq<char>, t: Seq<char>)
    requires
        readable_entries(a, a.len() as int),
        ends_token(t),
        1 <= k <= a.len(),
    ensures
        parse_entries(
            dict_text(p, a, t),
            p.len() as int + 2 + entries_text(a, k).len() as int,
            entry_models(a, k),
        ) == Some(
            (
                entry_models(a, a.len() as int),
                p.len() as int + 4 + entries_text(a, a.len() as int).len() as int,
            ),
        ),
    decreases a, a.len() - k + 1,
{
    let n = a.len() as int;
    let s = dict_text(p, a, t);
    let pl = p.len() as int;
    let off = pl + 2 + entries_text(a, k).len() as int;
    if k == n {
        assert(s =~= (p + seq!['{'] + seq![' '] + entries_text(a, n)) + seq![' ', '}'] + t);
        assert(s[off] == ' ');
        assert(s[off + 1] == '}');
        assert(skip_blanks(s, off + 1) == off + 1);
        assert(skip_blanks(s, off) == off + 1);
    } else {
        lemma_entry_at(a, k, p, t);
        lemma_entries_from(a, k + 1, p, t);
        lemma_entries_text_prefix(a, k + 1, n);
        let e = pl + 2 + entries_text(a, k + 1).len() as int;
        assert(entries_text(a, k + 1) == entries_text(a, k) + separator(k) + a[k].0@ + seq![
            ' ',
            '=',
            ' ',
        ] + value_text(a[k].1, true));
        assert(entry_models(a, k + 1) == entry_models(a, k).insert(a[k].0@, model_of(a[k].1)));
        assert(e <= s.len());
        assert(parse_entries(s, off + 1, entry_models(a, k)) == parse_entries(
            s,
            e,
            entry_models(a, k + 1),
        ));
        assert(parse_entries(s, off, entry_models(a, k)) == parse_entries(
            s,
            off + 1,
            entry_models(a, k),
        ));
    }
}

/// A section without rows whose entries are readable.
pub open spec fn plain_section(section: Section) -> bool {
    &&& readable_entries(section.dictionary.pairs(), section.dictionary.pairs().len() as int)
    &&& forall|j: int| 0 <= j < section.rows@.len() ==> row_shaped(#[trigger] section.rows@[j]@)
}

/// Sections with shaped names whose entries have key-shaped names and
/// readable values: what reading a text gives.
pub open spec fn shaped_sections(s: Seq<(String, Section)>) -> bool {
    forall|i: int|
        0 <= i < s.len() ==> name_shaped(#[trigger] s[i].0@) && readable(
            Value::Dictionary(s[i].1.dictionary),
        )
}

/// Every table row holds string cells shaped to read back as themselves.
pub open spec fn shaped_rows(s: Seq<(String, Section)>) -> bool {
    forall|i: int, j: int|
        0 <= i < s.len() && 0 <= j < s[i].1.rows@.len() ==> row_shaped(
            #[trigger] s[i].1.rows@[j]@,
        )
}

/// Sections with shaped names and plain bodies.
pub open spec fn plain_sections(s: Seq<(String, Section)>) -> bool {
    forall|i: int| 0 <= i < s.len() as int ==> name_shaped(#[trigger] s[i].0@) && plain_section(s[i].1)
}

/// Walking from `a` and from `b` comes to the same thing when both skip to
/// the same place.
proof fn lemma_walk_same_start(
    s: Seq<char>,
    a: int,
    b: int,
    name: Option<Seq<char>>,
    cur: SectionModel,
    acc: Map<Seq<char>, SectionModel>,
)
    requires
        0 <= a <= b <= skip_lines(s, b),
        skip_lines(s, a) == skip_lines(s, b),
    ensures
        walk_doc(s, a, name, cur, acc) == walk_doc(s, b, name, cur, acc),
        walk_fails(s, a) == walk_fails(s, b),
{
}

proof fn lemma_lines_text_prefix(a: Seq<(String, Value)>, k: int, n: int)
    requires
        0 <= k <= n <= a.len() as int,
    ensures
        lines_text(a, k).len() as int <= lines_text(a, n).len() as int,
        lines_text(a, n).subrange(0, lines_text(a, k).len() as int) == lines_text(a, k),
    decreases n - k,
{
    if k < n {
        lemma_lines_text_prefix(a, k, n - 1);
        assert(lines_text(a, n).subrange(0, lines_text(a, k).len() as int) =~= lines_text(
            a,
            n - 1,
        ).subrange(0, lines_text(a, k).len() as int));
    } else {
        assert(lines_text(a, n).subrange(0, lines_text(a, k).len() as int) =~= lines_text(a, k));
    }
}

/// Reading entry line `k` of a section body written as `h`, a line break,
/// the entry lines, then `t` (which opens with a line break).
#[verifier::rlimit(100)]
#[verifier::spinoff_prover]
proof fn lemma_line_at(a: Seq<(String, Value)>, k: int, h: Seq<char>, t: Seq<char>)
    requires
        readable_entries(a, a.len() as int),
        0 <= k < a.len() as int,
    ensures
        ({
            let s = h + seq!['\n'] + lines_text(a, a.len() as int) + t;
            let at = h.len() as int + lines_text(a, k).len() as int;
            let q = at + 1;
            &&& s[at] == '\n'
            &&& skip_lines(s, at) == q
            &&& s[q] != '[' && s[q] != '|' && s[q] != '#'
            &&& key_end(s, q) != q && !entry_stops(s, q)
            &&& parse_entry(s, q) == Some(
                (a[k].0@, model_of(a[k].1), h.len() as int + lines_text(a, k + 1).len() as int),
            )
        }),
{
    let n = a.len() as int;
    let s = h + seq!['\n'] + lines_text(a, n) + t;
    let body = lines_text(a, n);
    let at = h.len() as int + lines_text(a, k).len() as int;
    let q = at + 1;
    lemma_lines_text_prefix(a, k + 1, n);
    lemma_readable_entries(a, n, k);
    let key = a[k].0@;
    let wk = value_text(a[k].1, true);
    lemma_first_char(a[k].1);
    let x = key + seq![' ', '=', ' '] + wk + seq!['\n'];
    let l1 = lines_text(a, k + 1).len() as int;
    let r = body.subrange(l1, body.len() as int);
    let head = h + seq!['\n'] + lines_text(a, k);
    let rest = seq!['\n'] + r + t;
    assert(s == head + (key + seq![' ', '=', ' '] + wk) + rest) by {
        assert(lines_text(a, k + 1) =~= lines_text(a, k) + x);
        assert(body =~= lines_text(a, k + 1) + r);
        assert(s =~= head + (key + seq![' ', '=', ' '] + wk) + rest);
    }
    assert(head.len() as int == q);
    lemma_entry_chars(s, head, Seq::empty(), key, wk, rest);
    assert(Seq::<char>::empty() + key =~= key);
    assert(s == head + (Seq::<char>::empty() + key + seq![' ', '=', ' '] + wk) + rest);
    assert(is_key_char(key[0]));
    if k == 0 {
        assert(s[at] == '\n');
    } else {
        assert(lines_text(a, k) == lines_text(a, k - 1) + a[k - 1].0@ + seq![' ', '=', ' ']
            + value_text(a[k - 1].1, true) + seq!['\n']);
        assert(s[at] == lines_text(a, k)[lines_text(a, k).len() as int - 1]);
        assert(s[at] == '\n');
    }
    assert(skip_lines(s, q) == q);
    assert(skip_lines(s, at) == q);
    let ke = q + key.len() as int;
    let lead = s.subrange(0, ke + 3);
    let tail = s.subrange(ke + 3 + wk.len() as int, s.len() as int);
    assert(tail == rest);
    lemma_key_end(s, q, ke);
    lemma_value_round_trip(a[k].1, lead, tail);
    lemma_parse_entry_from(s, q, ke, key, model_of(a[k].1), ke + 3 + wk.len() as int);
    assert(ke + 3 + wk.len() as int == h.len() as int + lines_text(a, k + 1).len() as int);
}

/// Walking a section body's entry lines from line `k` on enters them into
/// the current section, in order.
proof fn lemma_lines_from(
    a: Seq<(String, Value)>,
    k: int,
    h: Seq<char>,
    t: Seq<char>,
    name: Option<Seq<char>>,
    acc: Map<Seq<char>, SectionModel>,
)
    requires
        readable_entries(a, a.len() as int),
        0 <= k <= a.len() as int,
    ensures
        ({
            let s = h + seq!['\n'] + lines_text(a, a.len() as int) + t;
            let end = h.len() as int + lines_text(a, a.len() as int).len() as int;
            &&& walk_doc(
                s,
                h.len() as int + lines_text(a, k).len() as int,
                name,
                (entry_models(a, k), Seq::empty()),
                acc,
            ) == walk_doc(s, end, name, (entry_models(a, a.len() as int), Seq::empty()), acc)
            &&& walk_fails(s, h.len() as int + lines_text(a, k).len() as int) == walk_fails(s, end)
        }),
    decreases a.len() as int - k,
{
    if k < a.len() as int {
        lemma_line_at(a, k, h, t);
        lemma_lines_from(a, k + 1, h, t, name, acc);
        lemma_lines_text_prefix(a, k + 1, a.len() as int);
        assert(entry_models(a, k + 1) == entry_models(a, k).insert(a[k].0@, model_of(a[k].1)));
    }
}

proof fn lemma_find_char_at(s: Seq<char>, i: int, e: int, c: char)
    requires
        0 <= i <= e < s.len(),
        forall|j: int| i <= j < e ==> #[trigger] s[j] != c,
        s[e] == c,
    ensures
        find_char(s, i, c) == e,
    decreases e - i,
{
    if i < e {
        lemma_find_char_at(s, i + 1, e, c);
    }
}

proof fn lemma_document_text_prefix(a: Seq<(String, Section)>, k: int, n: int)
    requires
        0 <= k <= n <= a.len(),
    ensures
        document_text(a, k).len() <= document_text(a, n).len(),
        document_text(a, n).subrange(0, document_text(a, k).len() as int) == document_text(a, k),
    decreases n - k,
{
    if k < n {
        lemma_document_text_prefix(a, k, n - 1);
        assert(document_text(a, n).subrange(0, document_text(a, k).len() as int)
            =~= document_text(a, n - 1).subrange(0, document_text(a, k).len() as int));
    } else {
        assert(document_text(a, n).subrange(0, document_text(a, k).len() as int) =~= document_text(
            a,
            k,
        ));
    }
}

/// Walking a written document from section `k` on, in the state that the
/// sections before it leave, reads the remaining sections and fails nowhere.
#[verifier::rlimit(100)]
#[verifier::spinoff_prover]
proof fn lemma_doc_from(
    a: Seq<(String, Section)>,
    k: int,
    name: Option<Seq<char>>,
    cur: SectionModel,
    acc: Map<Seq<char>, SectionModel>,
)
    requires
        plain_sections(a),
        0 <= k < a.len(),
        commit(name, cur, acc) == sections_model(a, k),
    ensures
        walk_doc(
            document_text(a, a.len() as int),
            document_text(a, k).len() as int,
            name,
            cur,
            acc,
        ) == sections_model(a, a.len() as int),
        !walk_fails(document_text(a, a.len() as int), document_text(a, k).len() as int),
    decreases a.len() - k,
{
    let n = a.len() as int;
    let s = document_text(a, n);
    let off = document_text(a, k).len() as int;
    let nm = a[k].0@;
    let sec = a[k].1;
    let e = sec.dictionary.pairs();
    lemma_document_text_prefix(a, k + 1, n);
    let next = document_text(a, k + 1).len() as int;
    let r = s.subrange(next, s.len() as int);
    let h = document_text(a, k) + seq!['['] + nm + seq![']'];
    assert(s == h + seq!['\n'] + section_text(sec) + seq!['\n'] + r) by {
        assert(document_text(a, k + 1) =~= document_text(a, k) + seq!['['] + nm + seq![']', '\n']
            + section_text(sec) + seq!['\n']);
        assert(s =~= document_text(a, k + 1) + r);
        assert(s =~= h + seq!['\n'] + section_text(sec) + seq!['\n'] + r);
    }
    let hend = h.len() as int;
    assert(hend == off + nm.len() + 2);
    // the header
    assert(s[off] == '[');
    assert(forall|j: int| 0 <= j < nm.len() ==> #[trigger] s[off + 1 + j] == nm[j]);
    assert(s[off + 1 + nm.len()] == ']');
    assert(skip_lines(s, off) == off);
    if nm.len() > 0 {
        assert(!is_blank(s[off + 1]));
    }
    assert(header_name_start(s, off) == off + 1);
    assert(forall|j: int| off + 1 <= j < off + 1 + nm.len() ==> #[trigger] s[j] != ']') by {
        assert forall|j: int| off + 1 <= j < off + 1 + nm.len() implies #[trigger] s[j] != ']' by {
            assert(s[off + 1 + (j - off - 1)] == nm[j - off - 1]);
        }
    }
    lemma_find_char_at(s, off + 1, off + 1 + nm.len(), ']');
    assert(header_end(s, off) == hend);
    assert(header_text(s, off) =~= nm);
    // the section's body
    lemma_section_body(sec, h, r, Some(nm), commit(name, cur, acc));
    let lend = hend + 1 + section_text(sec).len() as int;
    // the blank line, then the next header or the end
    assert(s[lend] == '\n');
    lemma_skip_lines_at_least(s, next);
    if k + 1 < n {
        assert(document_text(a, k + 2).len() <= s.len()) by {
            lemma_document_text_prefix(a, k + 2, n);
        }
        assert(s[next] == '[') by {
            lemma_document_text_prefix(a, k + 2, n);
            assert(document_text(a, k + 2) =~= document_text(a, k + 1) + seq!['['] + a[k
                + 1].0@ + seq![']', '\n'] + section_text(a[k + 1].1) + seq!['\n']);
            assert(s.subrange(0, document_text(a, k + 2).len() as int)[next] == s[next]);
        }
        assert(skip_lines(s, next) == next);
        assert(lend + 1 == next);
        assert(skip_lines(s, lend) == next);
        lemma_walk_same_start(
            s,
            lend,
            next,
            Some(nm),
            section_model(sec),
            commit(name, cur, acc),
        );
        assert(commit(Some(nm), section_model(sec), commit(name, cur, acc)) == sections_model(
            a,
            k + 1,
        ));
        lemma_doc_from(a, k + 1, Some(nm), section_model(sec), commit(name, cur, acc));
    } else {
        assert(next == s.len());
        assert(lend + 1 == next);
        assert(skip_lines(s, lend) == s.len());
    }
}

/// Reading back the text of a document gives the document again, without a
/// grammar error: for documents with at least one section, section names
/// without `]` that do not open with a blank, entries with readable values,
/// and table cells shaped to read back as themselves.
pub proof fn lemma_document_round_trip(a: Seq<(String, Section)>)
    requires
        a.len() > 0,
        plain_sections(a),
    ensures
        !walk_fails(document_text(a, a.len() as int), 0),
        walk_doc(document_text(a, a.len() as int), 0, None, empty_section(), Map::empty())
            == sections_model(a, a.len() as int),
{
    assert(document_text(a, 0) =~= Seq::<char>::empty());
    assert(sections_model(a, 0) =~= Map::<Seq<char>, SectionModel>::empty());
    lemma_doc_from(a, 0, None, empty_section(), Map::empty());
}

proof fn lemma_cells_text_prefix(a: Seq<Value>, k: int, n: int)
    requires
        0 <= k <= n <= a.len() as int,
    ensures
        cells_text(a, k).len() as int <= cells_text(a, n).len() as int,
        cells_text(a, n).subrange(0, cells_text(a, k).len() as int) == cells_text(a, k),
    decreases n - k,
{
    if k < n {
        lemma_cells_text_prefix(a, k, n - 1);
        assert(cells_text(a, n).subrange(0, cells_text(a, k).len() as int) =~= cells_text(
            a,
            n - 1,
        ).subrange(0, cells_text(a, k).len() as int));
    } else {
        assert(cells_text(a, n).subrange(0, cells_text(a, k).len() as int) =~= cells_text(a, k));
    }
}

/// A shaped cell, written between `| ` and ` |`, reads back as itself.
#[verifier::rlimit(100)]
#[verifier::spinoff_prover]
proof fn lemma_cell_at(x: Seq<char>, h: Seq<char>, t: Seq<char>, acc: Seq<Model>)
    requires
        cell_shaped(x),
    ensures
        ({
            let s = h + seq!['|', ' '] + escape(x, true) + seq![' ', '|'] + t;
            let c = h.len() as int + 1;
            let end = h.len() as int + 3 + escape(x, true).len() as int;
            &&& s[c - 1] == '|'
            &&& c < s.len() as int
            &&& parse_cells(s, c, acc) == parse_cells(s, end + 1, acc.push(Model::Str(x)))
        }),
{
    let w = escape(x, true);
    let s = h + seq!['|', ' '] + w + seq![' ', '|'] + t;
    let c = h.len() as int + 1;
    let end = h.len() as int + 3 + w.len() as int;
    assert(s[c] == ' ');
    assert(s[end] == '|');
    if x.len() as int == 0 {
        assert(w =~= Seq::<char>::empty());
        assert(s[c + 1] == ' ');
        assert(skip_blanks(s, end) == end);
        assert(skip_blanks(s, c + 1) == end);
        assert(skip_blanks(s, c) == end);
        assert(scan_end(s, end, '|') == end);
        assert(s.subrange(end, end) =~= Seq::<char>::empty());
        assert(trim_end(Seq::<char>::empty()) == Seq::<char>::empty());
        assert(unescape(Seq::<char>::empty(), true) == Seq::<char>::empty());
        assert(end < s.len());
        assert(parse_cells(s, c, acc) == parse_cells(
            s,
            end + 1,
            acc.push(Model::Str(unescape(trim_end(s.subrange(end, end)), true))),
        ));
        assert(x =~= Seq::<char>::empty());
    } else {
        lemma_escape_front(x, true);
        let q = c + 1;
        assert(w[0] == escape_char(x[0], true)[0]);
        assert(s[q] == w[0]);
        assert(s[q] != ' ' && s[q] != '\t' && s[q] != '#' && s[q] != '\n' && s[q] != '\r');
        assert(skip_blanks(s, q) == q);
        assert(skip_blanks(s, c) == q);
        // the cell's text runs to the `|` after its trailing space
        let xs = x.push(' ');
        assert(xs.drop_last() =~= x);
        assert(escape(xs, true) == w + seq![' ']);
        let pre = s.subrange(0, q);
        lemma_scan_past_escaped(pre, xs, t, true);
        assert(s =~= pre + escape(xs, true) + seq![delimiter(true)] + t);
        assert(scan_end(s, q, '|') == end);
        assert(s.subrange(q, end) =~= w + seq![' ']);
        assert((w + seq![' ']).drop_last() =~= w);
        assert(trim_end(w + seq![' ']) == trim_end(w));
        assert(w.last() == cell_escape_char(x.last()).last());
        assert(!is_space(w.last()));
        assert(trim_end(w) == w);
        lemma_escape_round_trip(x, true);
        assert(end < s.len());
        assert(unescape(trim_end(s.subrange(q, end)), true) == x);
        assert(parse_cells(s, c, acc) == parse_cells(
            s,
            end + 1,
            acc.push(Model::Str(unescape(trim_end(s.subrange(q, end)), true))),
        ));
    }
}

/// The cells of a written row from cell `k` on read back as themselves.
proof fn lemma_cells_from(row: Seq<Value>, k: int, h: Seq<char>, t: Seq<char>)
    requires
        row_shaped(row),
        0 <= k <= row.len() as int,
    ensures
        ({
            let s = h + cells_text(row, row.len() as int) + seq!['|', '\n'] + t;
            parse_cells(s, h.len() as int + cells_text(row, k).len() as int + 1, models(row, k)) == (
                models(row, row.len() as int),
                h.len() as int + cells_text(row, row.len() as int).len() as int + 2,
            )
        }),
    decreases row.len() as int - k,
{
    let n = row.len() as int;
    let s = h + cells_text(row, n) + seq!['|', '\n'] + t;
    let body = cells_text(row, n);
    let c = h.len() as int + cells_text(row, k).len() as int + 1;
    if k == n {
        assert(s =~= (h + body) + seq!['|', '\n'] + t);
        assert(s[c] == '\n');
        assert(skip_blanks(s, c) == c);
    } else {
        lemma_cells_text_prefix(row, k + 1, n);
        let x = row[k]->String_0@;
        assert(value_text(row[k], false) == escape(x, true));
        assert(cells_text(row, k + 1) == cells_text(row, k) + seq!['|', ' '] + escape(x, true)
            + seq![' ']);
        let l1 = cells_text(row, k + 1).len() as int;
        let r = body.subrange(l1, body.len() as int);
        assert(body =~= cells_text(row, k + 1) + r);
        let hh = h + cells_text(row, k);
        let tt = r.subrange(1, r.len() as int) + seq!['|', '\n'] + t;
        if k + 1 < n {
            lemma_cells_text_prefix(row, k + 2, n);
            assert(cells_text(row, k + 2) =~= cells_text(row, k + 1) + (seq!['|', ' ']
                + value_text(row[k + 1], false) + seq![' ']));
            assert(body.subrange(0, cells_text(row, k + 2).len() as int)[l1] == body[l1]);
            assert(r[0] == '|');
            assert(s =~= hh + seq!['|', ' '] + escape(x, true) + seq![' ', '|'] + (r.subrange(
                1,
                r.len() as int,
            ) + seq!['|', '\n'] + t));
        } else {
            assert(r.len() as int == 0);
            assert(s =~= hh + seq!['|', ' '] + escape(x, true) + seq![' ', '|'] + (seq!['\n']
                + t));
        }
        let tail = s.subrange(hh.len() as int + 4 + escape(x, true).len() as int, s.len() as int);
        assert(s =~= hh + seq!['|', ' '] + escape(x, true) + seq![' ', '|'] + tail);
        lemma_cell_at(x, hh, tail, models(row, k));
        lemma_cells_from(row, k + 1, h, t);
        assert(models(row, k + 1) == models(row, k).push(model_of(row[k])));
        assert(model_of(row[k]) == Model::Str(x));
        assert(hh.len() as int + 3 + escape(x, true).len() as int + 1 == h.len() as int + cells_text(row, k + 1).len() as int
            + 1);
    }
}

proof fn lemma_rows_text_prefix(a: Seq<Row>, k: int, n: int)
    requires
        0 <= k <= n <= a.len() as int,
    ensures
        rows_text(a, k).len() as int <= rows_text(a, n).len() as int,
        rows_text(a, n).subrange(0, rows_text(a, k).len() as int) == rows_text(a, k),
    decreases n - k,
{
    if k < n {
        lemma_rows_text_prefix(a, k, n - 1);
        assert(rows_text(a, n).subrange(0, rows_text(a, k).len() as int) =~= rows_text(
            a,
            n - 1,
        ).subrange(0, rows_text(a, k).len() as int));
    } else {
        assert(rows_text(a, n).subrange(0, rows_text(a, k).len() as int) =~= rows_text(a, k));
    }
}

/// Walking a section's written rows from row `j` on appends them to the
/// current section.
#[verifier::rlimit(100)]
#[verifier::spinoff_prover]
proof fn lemma_rows_from(
    rows: Seq<Row>,
    j: int,
    h: Seq<char>,
    t: Seq<char>,
    name: Option<Seq<char>>,
    d: Map<Seq<char>, Model>,
    acc: Map<Seq<char>, SectionModel>,
)
    requires
        forall|i: int| 0 <= i < rows.len() as int ==> row_shaped(#[trigger] rows[i]@),
        0 <= j <= rows.len() as int,
    ensures
        ({
            let s = h + rows_text(rows, rows.len() as int) + t;
            let at = h.len() as int + rows_text(rows, j).len() as int;
            let end = h.len() as int + rows_text(rows, rows.len() as int).len() as int;
            &&& walk_doc(s, at, name, (d, rows_model(rows, j)), acc) == walk_doc(
                s,
                end,
                name,
                (d, rows_model(rows, rows.len() as int)),
                acc,
            )
            &&& walk_fails(s, at) == walk_fails(s, end)
        }),
    decreases rows.len() as int - j,
{
    let m = rows.len() as int;
    if j < m {
        let s = h + rows_text(rows, m) + t;
        let body = rows_text(rows, m);
        let at = h.len() as int + rows_text(rows, j).len() as int;
        lemma_rows_text_prefix(rows, j + 1, m);
        let row = rows[j]@;
        assert(rows_text(rows, j + 1) == rows_text(rows, j) + row_text(row));
        let l1 = rows_text(rows, j + 1).len() as int;
        let rest = body.subrange(l1, body.len() as int) + t;
        let hh = h + rows_text(rows, j);
        assert(s == hh + cells_text(row, row.len() as int) + seq!['|', '\n'] + rest) by {
            assert(body =~= rows_text(rows, j + 1) + body.subrange(l1, body.len() as int));
            assert(s =~= hh + cells_text(row, row.len() as int) + seq!['|', '\n'] + rest);
        }
        lemma_cells_from(row, 0, hh, rest);
        assert(cells_text(row, 0) =~= Seq::<char>::empty());
        assert(models(row, 0) =~= Seq::<Model>::empty());
        if row.len() as int > 0 {
            lemma_cells_text_prefix(row, 1, row.len() as int);
            assert(cells_text(row, 1) == cells_text(row, 0) + seq!['|', ' '] + value_text(
                row[0],
                false,
            ) + seq![' ']);
            assert(cells_text(row, 1)[0] == '|');
            assert(cells_text(row, row.len() as int).subrange(
                0,
                cells_text(row, 1).len() as int,
            )[0] == cells_text(row, row.len() as int)[0]);
            assert(cells_text(row, row.len() as int)[0] == '|');
        }
        assert(s[at] == '|');
        assert(skip_lines(s, at) == at);
        lemma_rows_from(rows, j + 1, h, t, name, d, acc);
        assert(rows_model(rows, j + 1) == rows_model(rows, j).push(
            models(rows[j]@, rows[j]@.len() as int),
        ));
    }
}

/// Walking a written section body (its lines and rows) reads the section.
#[verifier::rlimit(100)]
#[verifier::spinoff_prover]
proof fn lemma_section_body(
    sec: Section,
    h: Seq<char>,
    r: Seq<char>,
    name: Option<Seq<char>>,
    acc: Map<Seq<char>, SectionModel>,
)
    requires
        plain_section(sec),
    ensures
        ({
            let s = h + seq!['\n'] + section_text(sec) + seq!['\n'] + r;
            let fin = h.len() as int + 1 + section_text(sec).len() as int;
            &&& s[fin] == '\n'
            &&& walk_doc(s, h.len() as int, name, empty_section(), acc) == walk_doc(
                s,
                fin,
                name,
                section_model(sec),
                acc,
            )
            &&& walk_fails(s, h.len() as int) == walk_fails(s, fin)
        }),
{
    let e = sec.dictionary.pairs();
    let rows = sec.rows@;
    let lt = lines_text(e, e.len() as int);
    let rt = rows_text(rows, rows.len() as int);
    let s = h + seq!['\n'] + section_text(sec) + seq!['\n'] + r;
    let fin = h.len() as int + 1 + section_text(sec).len() as int;
    assert(section_text(sec) == lt + rt);
    let t = rt + seq!['\n'] + r;
    assert(s == h + seq!['\n'] + lt + t) by {
        assert(s =~= h + seq!['\n'] + lt + t);
    }
    lemma_lines_from(e, 0, h, t, name, acc);
    assert(lines_text(e, 0) =~= Seq::<char>::empty());
    assert(entry_models(e, 0) =~= Map::<Seq<char>, Model>::empty());
    assert((entry_models(e, 0), Seq::<Seq<Model>>::empty()) == empty_section());
    let lend = h.len() as int + lt.len() as int;
    assert(s[lend] == '\n') by {
        if lt.len() as int > 0 {
            lemma_lines_text_prefix(e, e.len() as int - 1, e.len() as int);
            assert(lt[lt.len() as int - 1] == '\n');
        }
    }
    let hh = h + seq!['\n'] + lt;
    let tt = seq!['\n'] + r;
    assert(s == hh + rt + tt) by {
        assert(s =~= hh + rt + tt);
    }
    lemma_rows_from(rows, 0, hh, tt, name, entry_models(e, e.len() as int), acc);
    assert(rows_text(rows, 0) =~= Seq::<char>::empty());
    assert(rows_model(rows, 0) =~= Seq::<Seq<Model>>::empty());
    lemma_skip_lines_at_least(s, lend + 1);
    assert(skip_lines(s, lend) == skip_lines(s, lend + 1));
    lemma_walk_same_start(
        s,
        lend,
        lend + 1,
        name,
        (entry_models(e, e.len() as int), Seq::<Seq<Model>>::empty()),
        acc,
    );
    assert(fin == hh.len() as int + rt.len() as int);
    assert(section_model(sec) == (entry_models(e, e.len() as int), rows_model(
        rows,
        rows.len() as int,
    )));
    assert(s[fin] == '\n');
}

} // verus!
