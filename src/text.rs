use vstd::prelude::*;
use vstd::std_specs::iter::IteratorSpec;

verus! {

/// Space and tab: the only characters the grammar skips between tokens.
pub open spec fn is_blank(c: char) -> bool {
    c == ' ' || c == '\t'
}

/// Characters allowed in a key: `[A-Za-z0-9_-]`.
pub open spec fn is_key_char(c: char) -> bool {
    ('a' <= c && c <= 'z') || ('A' <= c && c <= 'Z') || ('0' <= c && c <= '9') || c == '_' || c
        == '-'
}

pub open spec fn is_digit_char(c: char) -> bool {
    '0' <= c && c <= '9'
}

/// The first index at or after `i` that does not hold a space or a tab.
pub open spec fn skip_blanks(s: Seq<char>, i: int) -> int
    decreases s.len() - i,
{
    if 0 <= i < s.len() && is_blank(s[i]) {
        skip_blanks(s, i + 1)
    } else {
        i
    }
}

/// The first index at or after `i` that holds `c`, or the length of `s`.
pub open spec fn find_char(s: Seq<char>, i: int, c: char) -> int
    decreases s.len() - i,
{
    if i < 0 || i >= s.len() {
        s.len() as int
    } else if s[i] == c {
        i
    } else {
        find_char(s, i + 1, c)
    }
}

/// The decimal value of a run of ASCII digits.
pub open spec fn digits_value(s: Seq<char>) -> int
    decreases s.len(),
{
    if s.len() == 0 {
        0
    } else {
        digits_value(s.drop_last()) * 10 + (s.last() as int - '0' as int)
    }
}

pub proof fn lemma_skip_blanks(s: Seq<char>, i: int)
    requires
        0 <= i <= s.len(),
    ensures
        i <= skip_blanks(s, i) <= s.len(),
        forall|j: int| i <= j < skip_blanks(s, i) ==> is_blank(#[trigger] s[j]),
        skip_blanks(s, i) < s.len() ==> !is_blank(s[skip_blanks(s, i)]),
    decreases s.len() - i,
{
    if i < s.len() && is_blank(s[i]) {
        lemma_skip_blanks(s, i + 1);
    }
}

pub proof fn lemma_find_char(s: Seq<char>, i: int, c: char)
    requires
        0 <= i <= s.len(),
    ensures
        i <= find_char(s, i, c) <= s.len(),
        forall|j: int| i <= j < find_char(s, i, c) ==> #[trigger] s[j] != c,
        find_char(s, i, c) < s.len() ==> s[find_char(s, i, c)] == c,
    decreases s.len() - i,
{
    if i < s.len() && s[i] != c {
        lemma_find_char(s, i + 1, c);
    }
}

/// The characters of `s`, in order.
pub(crate) fn chars_of(s: &str) -> (r: Vec<char>)
    ensures
        r@ == s@,
{
    broadcast use vstd::string::group_string_axioms;

    let mut it = s.chars();
    let mut v: Vec<char> = Vec::new();
    loop
        invariant
            v@ + it.remaining() == s@,
            it.decrease() is Some,
        decreases it.decrease()->Some_0,
    {
        let ghost before = it.remaining();
        match it.next() {
            Some(c) => {
                v.push(c);
                assert(v@ + it.remaining() =~= s@);
            },
            None => {
                assert(it.remaining() == before);
                assert(before.len() == 0);
                assert(v@ =~= s@);
                return v;
            },
        }
    }
}

/// Relies on `String`'s `FromIterator<&char>`: the string made of the given characters.
#[verifier::external_body]
pub(crate) fn string_of(c: &[char]) -> (r: String)
    ensures
        r@ == c@,
{
    c.iter().collect()
}

/// Appends the characters of `s` to `out`.
pub(crate) fn push_str(out: &mut Vec<char>, s: &str)
    ensures
        final(out)@ == old(out)@ + s@,
{
    let mut t = chars_of(s);
    out.append(&mut t);
}

/// How `{:?}` writes a string: in double quotes, with `"`, `\`, newline,
/// tab, carriage return and NUL escaped by a backslash, and the other ASCII
/// control characters as `\u{..}`.
pub open spec fn debug_quoted(s: Seq<char>) -> Seq<char> {
    seq!['"'] + debug_escaped(s) + seq!['"']
}

pub open spec fn debug_escaped(s: Seq<char>) -> Seq<char>
    decreases s.len(),
{
    if s.len() == 0 {
        Seq::empty()
    } else {
        debug_escaped(s.drop_last()) + debug_char(s.last())
    }
}

pub open spec fn hex_digit(d: int) -> char {
    if d < 10 {
        (('0' as int) + d) as char
    } else {
        (('a' as int) + d - 10) as char
    }
}

/// Lower-case hexadecimal digits of a code below 0x100, without leading zeros.
pub open spec fn small_hex(n: int) -> Seq<char> {
    if n < 16 {
        seq![hex_digit(n)]
    } else {
        seq![hex_digit(n / 16), hex_digit(n % 16)]
    }
}

pub open spec fn debug_char(c: char) -> Seq<char> {
    if c == '"' {
        seq!['\\', '"']
    } else if c == '\\' {
        seq!['\\', '\\']
    } else if c == '\n' {
        seq!['\\', 'n']
    } else if c == '\t' {
        seq!['\\', 't']
    } else if c == '\r' {
        seq!['\\', 'r']
    } else if c == '\0' {
        seq!['\\', '0']
    } else if (c as int) < 0x20 || c == '\u{7F}' {
        seq!['\\', 'u', '{'] + small_hex(c as int) + seq!['}']
    } else {
        seq![c]
    }
}

fn hex_char(d: u32) -> (r: char)
    requires
        d < 16,
    ensures
        r == hex_digit(d as int),
{
    let digits: [char; 16] = [
        '0', '1', '2', '3', '4', '5', '6', '7', '8', '9', 'a', 'b', 'c', 'd', 'e', 'f',
    ];
    let r = digits[d as usize];
    assert(r == hex_digit(d as int)) by {
        assert(digits@ == seq![
            '0', '1', '2', '3', '4', '5', '6', '7', '8', '9', 'a', 'b', 'c', 'd', 'e', 'f',
        ]);
    }
    r
}

fn push_debug_char(out: &mut Vec<char>, c: char)
    ensures
        final(out)@ == old(out)@ + debug_char(c),
{
    if c == '"' {
        out.push('\\');
        out.push('"');
    } else if c == '\\' {
        out.push('\\');
        out.push('\\');
    } else if c == '\n' {
        out.push('\\');
        out.push('n');
    } else if c == '\t' {
        out.push('\\');
        out.push('t');
    } else if c == '\r' {
        out.push('\\');
        out.push('r');
    } else if c == '\0' {
        out.push('\\');
        out.push('0');
    } else if (c as u32) < 0x20 || c == '\u{7F}' {
        let n = c as u32;
        out.push('\\');
        out.push('u');
        out.push('{');
        if n >= 16 {
            out.push(hex_char(n / 16));
        }
        out.push(hex_char(n % 16));
        out.push('}');
    } else {
        out.push(c);
    }
    assert(out@ =~= old(out)@ + debug_char(c));
}

/// Appends `s` as `{:?}` writes it.
pub(crate) fn push_debug_quoted(out: &mut Vec<char>, s: &str)
    ensures
        final(out)@ == old(out)@ + debug_quoted(s@),
{
    let chars = chars_of(s);
    let ghost start = out@;
    out.push('"');
    let mut i: usize = 0;
    while i < chars.len()
        invariant
            chars@ == s@,
            i <= chars@.len(),
            out@ == start + seq!['"'] + debug_escaped(chars@.subrange(0, i as int)),
        decreases chars.len() - i,
    {
        push_debug_char(out, chars[i]);
        proof {
            let p = chars@.subrange(0, i as int + 1);
            assert(p.drop_last() =~= chars@.subrange(0, i as int));
        }
        i = i + 1;
    }
    out.push('"');
    assert(chars@.subrange(0, chars@.len() as int) =~= s@);
    assert(out@ =~= start + debug_quoted(s@));
}

/// The first index at or after `i` that does not hold an ASCII digit.
pub open spec fn digit_end(s: Seq<char>, i: int) -> int
    decreases s.len() - i,
{
    if 0 <= i < s.len() && is_digit_char(s[i]) {
        digit_end(s, i + 1)
    } else {
        i
    }
}

/// The first index at or after `i` that does not hold a key character.
pub open spec fn key_end(s: Seq<char>, i: int) -> int
    decreases s.len() - i,
{
    if 0 <= i < s.len() && is_key_char(s[i]) {
        key_end(s, i + 1)
    } else {
        i
    }
}

pub proof fn lemma_digit_end(s: Seq<char>, i: int, e: int)
    requires
        0 <= i <= e <= s.len(),
        forall|j: int| i <= j < e ==> is_digit_char(#[trigger] s[j]),
        e == s.len() || !is_digit_char(s[e]),
    ensures
        digit_end(s, i) == e,
    decreases e - i,
{
    if i < e {
        lemma_digit_end(s, i + 1, e);
    }
}

pub proof fn lemma_digit_end_at_least(s: Seq<char>, i: int)
    requires
        0 <= i <= s.len(),
    ensures
        i <= digit_end(s, i) <= s.len(),
        i < s.len() && is_digit_char(s[i]) ==> digit_end(s, i) > i,
    decreases s.len() - i,
{
    if i < s.len() && is_digit_char(s[i]) {
        lemma_digit_end_at_least(s, i + 1);
    }
}

pub proof fn lemma_key_end(s: Seq<char>, i: int, e: int)
    requires
        0 <= i <= e <= s.len(),
        forall|j: int| i <= j < e ==> is_key_char(#[trigger] s[j]),
        e == s.len() || !is_key_char(s[e]),
    ensures
        key_end(s, i) == e,
    decreases e - i,
{
    if i < e {
        lemma_key_end(s, i + 1, e);
    }
}

/// The first `stop` at or after `i` that is not escaped by a backslash, or the
/// length of `s`.
pub open spec fn scan_end(s: Seq<char>, i: int, stop: char) -> int
    decreases s.len() - i,
{
    if i < 0 || i >= s.len() {
        s.len() as int
    } else if s[i] == stop {
        i
    } else if s[i] == '\\' && i + 1 < s.len() {
        scan_end(s, i + 2, stop)
    } else {
        scan_end(s, i + 1, stop)
    }
}

pub proof fn lemma_scan_end(s: Seq<char>, i: int, stop: char)
    requires
        0 <= i <= s.len(),
    ensures
        i <= scan_end(s, i, stop) <= s.len(),
        scan_end(s, i, stop) < s.len() ==> s[scan_end(s, i, stop)] == stop,
    decreases s.len() - i,
{
    if i < s.len() && s[i] != stop {
        if s[i] == '\\' && i + 1 < s.len() {
            lemma_scan_end(s, i + 2, stop);
        } else {
            lemma_scan_end(s, i + 1, stop);
        }
    }
}

/// What a backslash followed by `c` stands for: in a table cell `\|`, `\\`,
/// `\n` and `\t`; in a quoted string `\"`, `\\` and `\n`. Any other pair
/// stands for itself.
pub open spec fn unescape_pair(c: char, cell: bool) -> Seq<char> {
    if c == '\\' {
        seq!['\\']
    } else if c == 'n' {
        seq!['\n']
    } else if cell && c == '|' {
        seq!['|']
    } else if cell && c == 't' {
        seq!['\t']
    } else if !cell && c == '"' {
        seq!['"']
    } else {
        seq!['\\', c]
    }
}

/// The text that escaped characters stand for.
pub open spec fn unescape(t: Seq<char>, cell: bool) -> Seq<char>
    decreases t.len(),
{
    if t.len() == 0 {
        Seq::empty()
    } else if t[0] == '\\' && t.len() > 1 {
        unescape_pair(t[1], cell) + unescape(t.subrange(2, t.len() as int), cell)
    } else {
        seq![t[0]] + unescape(t.subrange(1, t.len() as int), cell)
    }
}

/// Whitespace that ends of table cells lose: the characters Unicode calls
/// White_Space, as `str::trim_end` has them.
pub open spec fn is_space(c: char) -> bool {
    ('\t' <= c && c <= '\r') || c == ' ' || c == '\u{85}' || c == '\u{A0}' || c == '\u{1680}'
        || ('\u{2000}' <= c && c <= '\u{200A}') || c == '\u{2028}' || c == '\u{2029}' || c
        == '\u{202F}' || c == '\u{205F}' || c == '\u{3000}'
}

/// `t` without trailing whitespace.
pub open spec fn trim_end(t: Seq<char>) -> Seq<char>
    decreases t.len(),
{
    if t.len() > 0 && is_space(t.last()) {
        trim_end(t.drop_last())
    } else {
        t
    }
}

/// How a table cell writes a character: backslash, newline, tab and `|` escaped.
pub open spec fn cell_escape_char(c: char) -> Seq<char> {
    if c == '\\' {
        seq!['\\', '\\']
    } else if c == '\n' {
        seq!['\\', 'n']
    } else if c == '\t' {
        seq!['\\', 't']
    } else if c == '|' {
        seq!['\\', '|']
    } else {
        seq![c]
    }
}

/// How a quoted string writes a character: backslash, newline and `"` escaped.
pub open spec fn quote_escape_char(c: char) -> Seq<char> {
    if c == '\\' {
        seq!['\\', '\\']
    } else if c == '\n' {
        seq!['\\', 'n']
    } else if c == '"' {
        seq!['\\', '"']
    } else {
        seq![c]
    }
}

/// `s` with each character written as `cell_escape_char` (or
/// `quote_escape_char`) writes it.
pub open spec fn escape(s: Seq<char>, cell: bool) -> Seq<char>
    decreases s.len(),
{
    if s.len() == 0 {
        Seq::empty()
    } else {
        escape(s.drop_last(), cell) + if cell {
            cell_escape_char(s.last())
        } else {
            quote_escape_char(s.last())
        }
    }
}

/// The first index at or after `i` that holds neither a space, a tab nor a
/// line break.
pub open spec fn skip_lines(s: Seq<char>, i: int) -> int
    decreases s.len() - i,
{
    if 0 <= i < s.len() && (is_blank(s[i]) || s[i] == '\n' || s[i] == '\r') {
        skip_lines(s, i + 1)
    } else {
        i
    }
}

pub proof fn lemma_skip_lines_blanks(s: Seq<char>, i: int)
    requires
        0 <= i <= s.len(),
    ensures
        skip_lines(s, skip_blanks(s, i)) == skip_lines(s, i),
    decreases s.len() - i,
{
    if i < s.len() && is_blank(s[i]) {
        lemma_skip_lines_blanks(s, i + 1);
    }
}

pub proof fn lemma_skip_lines_at_least(s: Seq<char>, i: int)
    requires
        0 <= i <= s.len(),
    ensures
        i <= skip_lines(s, i) <= s.len(),
    decreases s.len() - i,
{
    if i < s.len() && (is_blank(s[i]) || s[i] == '\n' || s[i] == '\r') {
        lemma_skip_lines_at_least(s, i + 1);
    }
}

/// Digit runs grow in value as they grow in length.
pub proof fn lemma_digits_grow(s: Seq<char>, a: int, j: int, k: int)
    requires
        0 <= a <= j <= k <= s.len(),
        forall|i: int| a <= i < k ==> is_digit_char(#[trigger] s[i]),
    ensures
        0 <= digits_value(s.subrange(a, j)) <= digits_value(s.subrange(a, k)),
    decreases k - a,
{
    if k > a {
        let t = s.subrange(a, k);
        assert(t.drop_last() =~= s.subrange(a, k - 1));
        if j < k {
            lemma_digits_grow(s, a, j, k - 1);
        } else {
            lemma_digits_grow(s, a, k - 1, k - 1);
        }
    }
}

/// How one character is escaped (see [`escape`]).
pub open spec fn escape_char(c: char, cell: bool) -> Seq<char> {
    if cell {
        cell_escape_char(c)
    } else {
        quote_escape_char(c)
    }
}

/// The delimiter that ends an escaped text: `|` for a cell, `"` for a quoted string.
pub open spec fn delimiter(cell: bool) -> char {
    if cell {
        '|'
    } else {
        '"'
    }
}

pub proof fn lemma_escape_front(x: Seq<char>, cell: bool)
    requires
        x.len() > 0,
    ensures
        escape(x, cell) == escape_char(x[0], cell) + escape(x.subrange(1, x.len() as int), cell),
    decreases x.len(),
{
    let rest = x.subrange(1, x.len() as int);
    if x.len() == 1 {
        assert(x.drop_last() =~= Seq::<char>::empty());
        assert(rest =~= Seq::<char>::empty());
        assert(escape(x.drop_last(), cell) == Seq::<char>::empty());
        assert(escape(rest, cell) == Seq::<char>::empty());
        assert(x.last() == x[0]);
        assert(escape(x, cell) =~= escape_char(x[0], cell));
    } else {
        let d = x.drop_last();
        lemma_escape_front(d, cell);
        assert(rest.drop_last() =~= d.subrange(1, d.len() as int));
        assert(rest.last() == x.last());
        assert(escape(x, cell) =~= escape_char(x[0], cell) + escape(rest, cell));
    }
}

/// Unescaping undoes escaping, whatever follows the escaped text.
pub proof fn lemma_unescape_escape(x: Seq<char>, t: Seq<char>, cell: bool)
    ensures
        unescape(escape(x, cell) + t, cell) == x + unescape(t, cell),
    decreases x.len(),
{
    if x.len() == 0 {
        assert(escape(x, cell) + t =~= t);
        assert(x + unescape(t, cell) =~= unescape(t, cell));
    } else {
        lemma_escape_front(x, cell);
        let rest = x.subrange(1, x.len() as int);
        lemma_unescape_escape(rest, t, cell);
        let e = escape_char(x[0], cell);
        let tail = escape(rest, cell) + t;
        let whole = escape(x, cell) + t;
        assert(whole =~= e + tail);
        if e.len() == 2 {
            assert(whole[0] == '\\');
            assert(whole.subrange(2, whole.len() as int) =~= tail);
            assert(unescape_pair(whole[1], cell) =~= seq![x[0]]);
        } else {
            assert(whole[0] == x[0]);
            assert(whole.subrange(1, whole.len() as int) =~= tail);
        }
        assert(x =~= seq![x[0]] + rest);
    }
}

/// Reading an escaped text back gives the text that was escaped: a cell written
/// as `a\|b` reads as `a|b`.
pub proof fn lemma_escape_round_trip(x: Seq<char>, cell: bool)
    ensures
        unescape(escape(x, cell), cell) == x,
{
    lemma_unescape_escape(x, Seq::<char>::empty(), cell);
    assert(escape(x, cell) + Seq::<char>::empty() =~= escape(x, cell));
    assert(unescape(Seq::<char>::empty(), cell) =~= Seq::<char>::empty());
    assert(x + Seq::<char>::empty() =~= x);
}

/// An escaped text holds no unescaped delimiter: scanning for the delimiter
/// stops exactly at the one written after it.
pub proof fn lemma_scan_past_escaped(p: Seq<char>, x: Seq<char>, t: Seq<char>, cell: bool)
    ensures
        scan_end(p + escape(x, cell) + seq![delimiter(cell)] + t, p.len() as int, delimiter(cell))
            == p.len() + escape(x, cell).len(),
    decreases x.len(),
{
    let d = delimiter(cell);
    let s = p + escape(x, cell) + seq![d] + t;
    if x.len() == 0 {
        assert(s[p.len() as int] == d);
    } else {
        lemma_escape_front(x, cell);
        let rest = x.subrange(1, x.len() as int);
        let e = escape_char(x[0], cell);
        let lead = p + e;
        lemma_scan_past_escaped(lead, rest, t, cell);
        assert(s =~= lead + escape(rest, cell) + seq![d] + t);
        if e.len() == 2 {
            assert(s[p.len() as int] == '\\');
            assert(p.len() + 1 < s.len());
        } else {
            assert(s[p.len() as int] == x[0]);
        }
    }
}

/// Trimming keeps a prefix, and what is left does not end with whitespace.
pub proof fn lemma_trim_end(t: Seq<char>)
    ensures
        trim_end(t).len() <= t.len(),
        trim_end(t) == t.subrange(0, trim_end(t).len() as int),
        trim_end(t).len() > 0 ==> !is_space(trim_end(t).last()),
    decreases t.len(),
{
    if t.len() > 0 && is_space(t.last()) {
        lemma_trim_end(t.drop_last());
        assert(trim_end(t) == trim_end(t.drop_last()));
        assert(t.drop_last().subrange(0, trim_end(t).len() as int) =~= t.subrange(
            0,
            trim_end(t).len() as int,
        ));
    } else {
        assert(t.subrange(0, t.len() as int) =~= t);
    }
}

/// What a cell's escapes stand for begins and ends as its text does, or with
/// a character that an escape gives.
pub proof fn lemma_unescape_ends(t: Seq<char>)
    requires
        t.len() > 0,
    ensures
        unescape(t, true).len() > 0,
        ({
            let u = unescape(t, true);
            &&& u[0] == t[0] || u[0] == '\n' || u[0] == '|' || u[0] == '\t'
            &&& u.last() == t.last() || u.last() == '\\' || u.last() == '\n' || u.last() == '|'
                || u.last() == '\t'
        }),
    decreases t.len(),
{
    let rest = if t[0] == '\\' && t.len() > 1 {
        t.subrange(2, t.len() as int)
    } else {
        t.subrange(1, t.len() as int)
    };
    let head = if t[0] == '\\' && t.len() > 1 {
        unescape_pair(t[1], true)
    } else {
        seq![t[0]]
    };
    assert(unescape(t, true) == head + unescape(rest, true));
    assert(head.len() > 0);
    if rest.len() > 0 {
        lemma_unescape_ends(rest);
        assert(rest.last() == t.last());
        assert((head + unescape(rest, true)).last() == unescape(rest, true).last());
    } else {
        assert(unescape(rest, true) =~= Seq::<char>::empty());
        assert(head + unescape(rest, true) =~= head);
        if t[0] == '\\' && t.len() > 1 {
            assert(t.last() == t[1]);
        }
    }
}

} // verus!
