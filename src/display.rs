use crate::section::Section;
use crate::text::{cell_escape_char, chars_of, escape, push_str, quote_escape_char, string_of};
use crate::value::{Row, Value};
use vstd::prelude::*;

verus! {

broadcast use vstd::std_specs::vec::group_vec_axioms;

pub open spec fn digit_char(d: int) -> char {
    if d == 0 {
        '0'
    } else if d == 1 {
        '1'
    } else if d == 2 {
        '2'
    } else if d == 3 {
        '3'
    } else if d == 4 {
        '4'
    } else if d == 5 {
        '5'
    } else if d == 6 {
        '6'
    } else if d == 7 {
        '7'
    } else if d == 8 {
        '8'
    } else {
        '9'
    }
}

/// The decimal digits of `m`.
pub open spec fn nat_text(m: nat) -> Seq<char>
    decreases m,
{
    if m < 10 {
        seq![digit_char(m as int)]
    } else {
        nat_text(m / 10) + seq![digit_char((m % 10) as int)]
    }
}

/// How an integer is written: decimal digits, `-` before a negative one.
pub open spec fn int_text(n: int) -> Seq<char> {
    if n < 0 {
        seq!['-'] + nat_text((-n) as nat)
    } else {
        nat_text(n as nat)
    }
}

/// How a boolean is written.
pub open spec fn bool_text(b: bool) -> Seq<char> {
    if b {
        seq!['t', 'r', 'u', 'e']
    } else {
        seq!['f', 'a', 'l', 's', 'e']
    }
}

/// How a string is written: as a table cell writes it, or in double quotes.
pub open spec fn string_text(s: Seq<char>, quoted: bool) -> Seq<char> {
    if quoted {
        seq!['"'] + escape(s, false) + seq!['"']
    } else {
        escape(s, true)
    }
}

/// `, ` before every element but the first.
pub open spec fn separator(i: int) -> Seq<char> {
    if i == 0 {
        Seq::empty()
    } else {
        seq![',', ' ']
    }
}

/// How a value is written: a string as a table cell writes it or quoted
/// (`quoted`), an array as `[ v, v ]` and a dictionary as `{ k = v, k = v }`,
/// their strings always quoted.
pub open spec fn value_text(v: Value, quoted: bool) -> Seq<char>
    decreases v, 0int,
    via value_text_decreases
{
    match v {
        Value::String(s) => string_text(s@, quoted),
        Value::Integer(n) => int_text(n as int),
        Value::Float(t) => t@,
        Value::Boolean(b) => bool_text(b),
        Value::Array(a) => seq!['[', ' '] + items_text(a@, a@.len() as int) + seq![' ', ']'],
        Value::Dictionary(d) => seq!['{', ' '] + entries_text(d.pairs(), d.pairs().len() as int)
            + seq![' ', '}'],
    }
}

/// The first `n` array elements as an array writes them.
pub open spec fn items_text(s: Seq<Value>, n: int) -> Seq<char>
    decreases s, n,
{
    if n <= 0 || n > s.len() {
        Seq::empty()
    } else {
        items_text(s, n - 1) + separator(n - 1) + value_text(s[n - 1], true)
    }
}

/// The first `n` entries as a nested dictionary writes them.
pub open spec fn entries_text(s: Seq<(String, Value)>, n: int) -> Seq<char>
    decreases s, n,
{
    if n <= 0 || n > s.len() {
        Seq::empty()
    } else {
        entries_text(s, n - 1) + separator(n - 1) + s[n - 1].0@ + seq![' ', '=', ' '] + value_text(
            s[n - 1].1,
            true,
        )
    }
}

#[via_fn]
proof fn value_text_decreases(v: Value, quoted: bool) {
    broadcast use vstd::std_specs::vec::group_vec_axioms;

    match v {
        Value::Array(a) => {
            assert(decreases_to!(v => a));
            assert(decreases_to!(a => a@));
        },
        Value::Dictionary(d) => {
            assert(decreases_to!(v => d));
            d.lemma_pairs_decrease();
        },
        _ => {},
    }
}

/// The first `n` cells of a row, each as `| cell `.
pub open spec fn cells_text(row: Seq<Value>, n: int) -> Seq<char>
    decreases n,
{
    if n <= 0 || n > row.len() {
        Seq::empty()
    } else {
        cells_text(row, n - 1) + seq!['|', ' '] + value_text(row[n - 1], false) + seq![' ']
    }
}

/// How a table row is written: `| cell | cell |` and a line break.
pub open spec fn row_text(row: Seq<Value>) -> Seq<char> {
    cells_text(row, row.len() as int) + seq!['|', '\n']
}

/// The first `n` rows.
pub open spec fn rows_text(rows: Seq<Row>, n: int) -> Seq<char>
    decreases n,
{
    if n <= 0 || n > rows.len() {
        Seq::empty()
    } else {
        rows_text(rows, n - 1) + row_text(rows[n - 1]@)
    }
}

/// The first `n` entries of a section, one `key = value` line each.
pub open spec fn lines_text(s: Seq<(String, Value)>, n: int) -> Seq<char>
    decreases n,
{
    if n <= 0 || n > s.len() {
        Seq::empty()
    } else {
        lines_text(s, n - 1) + s[n - 1].0@ + seq![' ', '=', ' '] + value_text(s[n - 1].1, true)
            + seq!['\n']
    }
}

/// How a section's body is written: its entry lines, then its rows.
pub open spec fn section_text(section: Section) -> Seq<char> {
    lines_text(section.dictionary.pairs(), section.dictionary.pairs().len() as int) + rows_text(
        section.rows@,
        section.rows@.len() as int,
    )
}

/// The first `n` sections of a document, each as `[name]`, its body and a
/// blank line.
pub open spec fn document_text(s: Seq<(String, Section)>, n: int) -> Seq<char>
    decreases n,
{
    if n <= 0 || n > s.len() {
        Seq::empty()
    } else {
        document_text(s, n - 1) + seq!['['] + s[n - 1].0@ + seq![']', '\n'] + section_text(
            s[n - 1].1,
        ) + seq!['\n']
    }
}

fn digit(d: u64) -> (c: char)
    requires
        d < 10,
    ensures
        c == digit_char(d as int),
{
    if d == 0 {
        '0'
    } else if d == 1 {
        '1'
    } else if d == 2 {
        '2'
    } else if d == 3 {
        '3'
    } else if d == 4 {
        '4'
    } else if d == 5 {
        '5'
    } else if d == 6 {
        '6'
    } else if d == 7 {
        '7'
    } else if d == 8 {
        '8'
    } else {
        '9'
    }
}

fn push_nat(out: &mut Vec<char>, m: u64)
    ensures
        final(out)@ == old(out)@ + nat_text(m as nat),
    decreases m,
{
    if m >= 10 {
        push_nat(out, m / 10);
    }
    out.push(digit(m % 10));
    assert(out@ =~= old(out)@ + nat_text(m as nat));
}

fn push_int(out: &mut Vec<char>, n: i64)
    ensures
        final(out)@ == old(out)@ + int_text(n as int),
{
    if n < 0 {
        out.push('-');
        let m: u64 = if n == i64::MIN {
            9223372036854775808u64
        } else {
            (-n) as u64
        };
        push_nat(out, m);
        assert(out@ =~= old(out)@ + int_text(n as int));
    } else {
        push_nat(out, n as u64);
    }
}

/// Appends `s` with each character escaped for a table cell (`cell`) or for
/// a quoted string.
fn push_escaped(out: &mut Vec<char>, s: &str, cell: bool)
    ensures
        final(out)@ == old(out)@ + escape(s@, cell),
{
    let chars = chars_of(s);
    let mut i: usize = 0;
    while i < chars.len()
        invariant
            chars@ == s@,
            i <= chars@.len(),
            out@ == old(out)@ + escape(chars@.subrange(0, i as int), cell),
        decreases chars.len() - i,
    {
        let c = chars[i];
        let ghost before = out@;
        if c == '\\' {
            out.push('\\');
            out.push('\\');
        } else if c == '\n' {
            out.push('\\');
            out.push('n');
        } else if cell && c == '\t' {
            out.push('\\');
            out.push('t');
        } else if cell && c == '|' {
            out.push('\\');
            out.push('|');
        } else if !cell && c == '"' {
            out.push('\\');
            out.push('"');
        } else {
            out.push(c);
        }
        proof {
            let p = chars@.subrange(0, i as int + 1);
            assert(p.drop_last() =~= chars@.subrange(0, i as int));
            assert(out@ =~= before + if cell {
                cell_escape_char(c)
            } else {
                quote_escape_char(c)
            });
        }
        i = i + 1;
    }
    assert(chars@.subrange(0, chars@.len() as int) =~= s@);
}

/// Appends `v` as text. Strings are written as table cells write them, or
/// quoted (`quoted`); the elements of arrays and dictionaries always quoted.
fn write_value(v: &Value, quoted: bool, out: &mut Vec<char>)
    ensures
        final(out)@ == old(out)@ + value_text(*v, quoted),
    decreases v,
{
    match v {
        Value::String(s) => {
            if quoted {
                out.push('"');
                push_escaped(out, s.as_str(), false);
                out.push('"');
                assert(out@ =~= old(out)@ + string_text(s@, quoted));
            } else {
                push_escaped(out, s.as_str(), true);
            }
        },
        Value::Integer(n) => push_int(out, *n),
        Value::Float(t) => push_str(out, t.as_str()),
        Value::Boolean(b) => {
            if *b {
                out.push('t');
                out.push('r');
                out.push('u');
                out.push('e');
            } else {
                out.push('f');
                out.push('a');
                out.push('l');
                out.push('s');
                out.push('e');
            }
            assert(out@ =~= old(out)@ + bool_text(*b));
        },
        Value::Array(a) => {
            out.push('[');
            out.push(' ');
            let mut i: usize = 0;
            while i < a.len()
                invariant
                    v is Array && v->Array_0 == *a,
                    i <= a@.len(),
                    out@ == old(out)@ + seq!['[', ' '] + items_text(a@, i as int),
                decreases a.len() - i,
            {
                let ghost before = out@;
                if i > 0 {
                    out.push(',');
                    out.push(' ');
                }
                assert(out@ =~= before + separator(i as int));
                proof {
                    assert(decreases_to!(v => v->Array_0));
                    assert(decreases_to!(v->Array_0 => v->Array_0[i as int]));
                }
                write_value(&a[i], true, out);
                assert(out@ =~= old(out)@ + seq!['[', ' '] + items_text(a@, i + 1));
                i = i + 1;
            }
            out.push(' ');
            out.push(']');
            assert(out@ =~= old(out)@ + value_text(*v, quoted));
        },
        Value::Dictionary(d) => {
            out.push('{');
            out.push(' ');
            let entries = d.as_slice();
            let mut i: usize = 0;
            while i < entries.len()
                invariant
                    v is Dictionary && v->Dictionary_0 == *d,
                    entries@ == d.pairs(),
                    i <= entries@.len(),
                    out@ == old(out)@ + seq!['{', ' '] + entries_text(entries@, i as int),
                decreases entries.len() - i,
            {
                let ghost before = out@;
                if i > 0 {
                    out.push(',');
                    out.push(' ');
                }
                assert(out@ =~= before + separator(i as int));
                push_str(out, entries[i].0.as_str());
                out.push(' ');
                out.push('=');
                out.push(' ');
                proof {
                    d.lemma_value_decreases(i as int);
                    assert(decreases_to!(v => v->Dictionary_0));
                }
                write_value(&entries[i].1, true, out);
                assert(out@ =~= old(out)@ + seq!['{', ' '] + entries_text(entries@, i + 1));
                i = i + 1;
            }
            out.push(' ');
            out.push('}');
            assert(out@ =~= old(out)@ + value_text(*v, quoted));
        },
    }
}

impl Value {
    /// The value as text: a string as a table cell writes it, anything else
    /// as a dictionary entry writes it.
    pub fn to_string(&self) -> (r: String)
        ensures
            r@ == value_text(*self, false),
    {
        let mut out: Vec<char> = Vec::new();
        write_value(self, false, &mut out);
        string_of(out.as_slice())
    }

    /// The value as a dictionary entry writes it: strings quoted.
    pub fn to_quoted_string(&self) -> (r: String)
        ensures
            r@ == value_text(*self, true),
    {
        let mut out: Vec<char> = Vec::new();
        write_value(self, true, &mut out);
        string_of(out.as_slice())
    }
}

/// Appends one table row: `| cell | cell |` and a line break.
fn write_row(row: &Vec<Value>, out: &mut Vec<char>)
    ensures
        final(out)@ == old(out)@ + row_text(row@),
{
    let mut i: usize = 0;
    while i < row.len()
        invariant
            i <= row@.len(),
            out@ == old(out)@ + cells_text(row@, i as int),
        decreases row.len() - i,
    {
        out.push('|');
        out.push(' ');
        write_value(&row[i], false, out);
        out.push(' ');
        assert(out@ =~= old(out)@ + cells_text(row@, i + 1));
        i = i + 1;
    }
    out.push('|');
    out.push('\n');
    assert(out@ =~= old(out)@ + row_text(row@));
}

/// Appends a section's body: one `key = value` line per entry, then one line
/// per row.
pub(crate) fn write_section(section: &Section, out: &mut Vec<char>)
    ensures
        final(out)@ == old(out)@ + section_text(*section),
{
    let entries = section.dictionary.as_slice();
    let mut i: usize = 0;
    while i < entries.len()
        invariant
            entries@ == section.dictionary.pairs(),
            i <= entries@.len(),
            out@ == old(out)@ + lines_text(entries@, i as int),
        decreases entries.len() - i,
    {
        push_str(out, entries[i].0.as_str());
        out.push(' ');
        out.push('=');
        out.push(' ');
        write_value(&entries[i].1, true, out);
        out.push('\n');
        assert(out@ =~= old(out)@ + lines_text(entries@, i + 1));
        i = i + 1;
    }
    let ghost mid = out@;
    let mut j: usize = 0;
    while j < section.rows.len()
        invariant
            j <= section.rows@.len(),
            out@ == mid + rows_text(section.rows@, j as int),
        decreases section.rows.len() - j,
    {
        write_row(&section.rows[j], out);
        assert(out@ =~= mid + rows_text(section.rows@, j + 1));
        j = j + 1;
    }
    assert(out@ =~= old(out)@ + section_text(*section));
}

impl Section {
    /// The section's body as text.
    pub fn to_string(&self) -> (r: String)
        ensures
            r@ == section_text(*self),
    {
        let mut out: Vec<char> = Vec::new();
        write_section(self, &mut out);
        string_of(out.as_slice())
    }
}

} // verus!
