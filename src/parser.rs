use crate::name_map::NameMap;
use crate::section::{
    cell_shaped, doc_model, lemma_doc_model, name_shaped, row_shaped, lemma_rows_model_prefix, rows_model, section_model, Section,
    SectionModel, DEFAULT_NAME,
};
use crate::text::{
    chars_of, digit_end, digits_value, find_char, is_digit_char, is_key_char, is_space, key_end,
    lemma_digit_end, lemma_digit_end_at_least, lemma_digits_grow, lemma_find_char, lemma_key_end, lemma_scan_end, lemma_skip_blanks, scan_end,
    skip_blanks, skip_lines, lemma_skip_lines_at_least, lemma_trim_end, lemma_unescape_ends, lemma_skip_lines_blanks, string_of, trim_end, unescape, unescape_pair,
};
use crate::value::{
    dict_model, float_shaped, key_shaped, lemma_dict_model, lemma_models_prefix,
    lemma_readable_dict, lemma_readable_items_prefix, model_of, models, readable, readable_items,
    Dictionary, Model, Value,
};
use vstd::prelude::*;

verus! {

/// One structural unit of the input.
#[derive(Debug, PartialEq)]
pub enum Element {
    Section(String),
    Row(Vec<Value>),
    Entry(String, Value),
    Comment(String),
}

/// A grammar error, attributed to the most recently opened section.
#[derive(Clone, Debug, PartialEq, Eq)]
pub struct ParserError {
    pub section: String,
    pub desc: String,
}

/// Single-pass reader over Ion text: a cursor with one character of
/// lookahead, the working set of still wanted sections, and capacity hints.
pub struct Parser {
    input: Vec<char>,
    pos: usize,
    accepted_sections: Option<Vec<Vec<char>>>,
    section_capacity: usize,
    row_capacity: usize,
    array_capacity: usize,
    last_section: Option<String>,
}

impl Parser {
    /// The whole input, as characters.
    pub closed spec fn text(&self) -> Seq<char> {
        self.input@
    }

    /// Index of the next character to read.
    pub closed spec fn at(&self) -> int {
        self.pos as int
    }

    /// The names still wanted, or `None` when no filter is configured.
    pub closed spec fn wanted(&self) -> Option<Seq<Seq<char>>> {
        match self.accepted_sections {
            Some(v) => Some(v@.map_values(|n: Vec<char>| n@)),
            None => None,
        }
    }

    /// The section that an error is attributed to: the last header read, or `unknown`.
    pub closed spec fn error_section(&self) -> Seq<char> {
        match self.last_section {
            Some(s) => s@,
            None => seq!['u', 'n', 'k', 'n', 'o', 'w', 'n'],
        }
    }

    pub closed spec fn wf(&self) -> bool {
        self.pos <= self.input.len()
    }

    /// Whether a section header has been read.
    pub closed spec fn header_seen(&self) -> bool {
        self.last_section is Some
    }

    /// Everything but the cursor position is as in `o`.
    pub closed spec fn keeps(&self, o: &Self) -> bool {
        &&& self.input == o.input
        &&& self.accepted_sections == o.accepted_sections
        &&& self.last_section == o.last_section
        &&& self.section_capacity == o.section_capacity
        &&& self.row_capacity == o.row_capacity
        &&& self.array_capacity == o.array_capacity
    }

    /// The character under the cursor, if any.
    pub open spec fn current(&self) -> Option<char> {
        if 0 <= self.at() < self.text().len() {
            Some(self.text()[self.at()])
        } else {
            None
        }
    }

    /// What a change of position alone leaves as it was.
    pub proof fn lemma_keeps(&self, o: &Self)
        requires
            self.keeps(o),
        ensures
            self.text() == o.text(),
            self.wanted() == o.wanted(),
            self.error_section() == o.error_section(),
            self.header_seen() == o.header_seen(),
    {
    }

    pub fn new(input: &str) -> (r: Parser)
        ensures
            r.wf(),
            r.text() == input@,
            r.at() == 0,
            r.wanted() is None,
            r.error_section() == seq!['u', 'n', 'k', 'n', 'o', 'w', 'n'],
            !r.header_seen(),
    {
        Self::new_filtered_opt(input, None)
    }

    pub fn new_filtered(input: &str, accepted_sections: Vec<&str>) -> (r: Parser)
        ensures
            r.wf(),
            r.text() == input@,
            r.at() == 0,
            r.wanted() is Some,
            r.wanted()->Some_0.len() == accepted_sections@.len(),
            forall|i: int|
                0 <= i < accepted_sections@.len() ==> #[trigger] r.wanted()->Some_0[i]
                    == accepted_sections@[i]@,
            r.error_section() == seq!['u', 'n', 'k', 'n', 'o', 'w', 'n'],
            !r.header_seen(),
    {
        let mut names: Vec<Vec<char>> = Vec::with_capacity(accepted_sections.len());
        let mut i: usize = 0;
        while i < accepted_sections.len()
            invariant
                i <= accepted_sections.len(),
                names@.len() == i,
                forall|j: int| 0 <= j < i ==> #[trigger] names@[j]@ == accepted_sections@[j]@,
            decreases accepted_sections.len() - i,
        {
            names.push(chars_of(accepted_sections[i]));
            i = i + 1;
        }
        Self::new_filtered_opt(input, Some(names))
    }

    /// Sets how many rows each section reserves room for; no effect on the result.
    pub fn with_section_capacity(self, section_capacity: usize) -> (r: Self)
        ensures
            r.text() == self.text(),
            r.at() == self.at(),
            r.wf() == self.wf(),
            r.wanted() == self.wanted(),
            r.error_section() == self.error_section(),
    {
        let mut r = self;
        r.section_capacity = section_capacity;
        r
    }

    /// Sets how many cells each row reserves room for; no effect on the result.
    pub fn with_row_capacity(self, row_capacity: usize) -> (r: Self)
        ensures
            r.text() == self.text(),
            r.at() == self.at(),
            r.wf() == self.wf(),
            r.wanted() == self.wanted(),
            r.error_section() == self.error_section(),
    {
        let mut r = self;
        r.row_capacity = row_capacity;
        r
    }

    /// Sets how many elements each array reserves room for; no effect on the result.
    pub fn with_array_capacity(self, array_capacity: usize) -> (r: Self)
        ensures
            r.text() == self.text(),
            r.at() == self.at(),
            r.wf() == self.wf(),
            r.wanted() == self.wanted(),
            r.error_section() == self.error_section(),
    {
        let mut r = self;
        r.array_capacity = array_capacity;
        r
    }

    fn new_filtered_opt(input: &str, accepted_sections: Option<Vec<Vec<char>>>) -> (r: Parser)
        ensures
            r.wf(),
            r.text() == input@,
            r.at() == 0,
            r.accepted_sections == accepted_sections,
            r.last_section is None,
    {
        Parser {
            input: chars_of(input),
            pos: 0,
            accepted_sections,
            section_capacity: 16,
            row_capacity: 8,
            array_capacity: 2,
            last_section: None,
        }
    }

    fn peek(&self) -> (r: Option<char>)
        requires
            self.wf(),
        ensures
            r == self.current(),
    {
        if self.pos < self.input.len() {
            Some(self.input[self.pos])
        } else {
            None
        }
    }

    /// Consumes the character under the cursor and returns it with its index.
    pub fn next_char(&mut self) -> (r: Option<(usize, char)>)
        requires
            old(self).wf(),
        ensures
            final(self).wf(),
            final(self).keeps(old(self)),
            match old(self).current() {
                Some(c) => r == Some((old(self).at() as usize, c)) && final(self).at() == old(self).at() + 1,
                None => r is None && final(self).at() == old(self).at(),
            },
    {
        if self.pos < self.input.len() {
            let c = self.input[self.pos];
            let at = self.pos;
            self.pos = self.pos + 1;
            Some((at, c))
        } else {
            None
        }
    }

    /// Skips spaces and tabs.
    fn ws(&mut self)
        requires
            old(self).wf(),
        ensures
            final(self).wf(),
            final(self).keeps(old(self)),
            old(self).at() <= final(self).at() == skip_blanks(old(self).text(), old(self).at()),
    {
        proof {
            lemma_skip_blanks(self.input@, self.pos as int);
        }
        while self.pos < self.input.len() && (self.input[self.pos] == ' ' || self.input[self.pos]
            == '\t')
            invariant
                self.wf(),
                self.keeps(old(self)),
                old(self).at() <= self.pos,
                skip_blanks(self.input@, self.pos as int) == skip_blanks(
                    old(self).text(),
                    old(self).at(),
                ),
            decreases self.input.len() - self.pos,
        {
            self.pos = self.pos + 1;
        }
    }

    /// Skips spaces, tabs and line breaks.
    fn skip_space(&mut self)
        requires
            old(self).wf(),
        ensures
            final(self).wf(),
            final(self).keeps(old(self)),
            old(self).at() <= final(self).at() == skip_lines(old(self).text(), old(self).at()),
    {
        proof {
            lemma_skip_lines_at_least(self.input@, self.pos as int);
        }
        loop
            invariant
                self.wf(),
                self.keeps(old(self)),
                old(self).pos <= self.pos,
                skip_lines(self.input@, self.pos as int) == skip_lines(
                    old(self).input@,
                    old(self).pos as int,
                ),
            decreases self.input.len() - self.pos,
        {
            proof {
                lemma_skip_lines_blanks(self.input@, self.pos as int);
                lemma_skip_blanks(self.input@, self.pos as int);
            }
            self.ws();
            let before = self.pos;
            if !self.newline() {
                return;
            }
            proof {
                let t = self.input@;
                if before + 1 < t.len() && t[before as int] == '\r' && t[before + 1] == '\n' {
                    assert(skip_lines(t, before + 1) == skip_lines(t, before + 2));
                }
            }
        }
    }

    /// Consumes one line break, `\n` or `\r\n` (or a lone `\r`).
    fn newline(&mut self) -> (r: bool)
        requires
            old(self).wf(),
        ensures
            final(self).wf(),
            final(self).keeps(old(self)),
            r == (old(self).current() == Some('\n') || old(self).current() == Some('\r')),
            !r ==> final(self).at() == old(self).at(),
            r && old(self).current() == Some('\n') ==> final(self).at() == old(self).at() + 1,
            r && old(self).current() == Some('\r') ==> final(self).at() == if old(self).at() + 1
                < old(self).text().len() && old(self).text()[old(self).at() + 1] == '\n' {
                old(self).at() + 2
            } else {
                old(self).at() + 1
            },
    {
        match self.peek() {
            Some('\n') => {
                self.pos = self.pos + 1;
                true
            },
            Some('\r') => {
                self.pos = self.pos + 1;
                self.eat('\n');
                true
            },
            _ => false,
        }
    }

    /// Consumes everything up to and including the next `\n`.
    fn skip_line(&mut self)
        requires
            old(self).wf(),
        ensures
            final(self).wf(),
            final(self).keeps(old(self)),
            old(self).at() < old(self).text().len() ==> final(self).at() > old(self).at(),
            final(self).at() == if find_char(old(self).text(), old(self).at(), '\n') < old(self).text().len() {
                find_char(old(self).text(), old(self).at(), '\n') + 1
            } else {
                old(self).text().len() as int
            },
    {
        proof {
            lemma_find_char(self.input@, self.pos as int, '\n');
        }
        while self.pos < self.input.len() && self.input[self.pos] != '\n'
            invariant
                self.wf(),
                self.keeps(old(self)),
                old(self).at() <= self.pos,
                find_char(self.input@, self.pos as int, '\n') == find_char(
                    old(self).text(),
                    old(self).at(),
                    '\n',
                ),
            decreases self.input.len() - self.pos,
        {
            self.pos = self.pos + 1;
        }
        if self.pos < self.input.len() {
            self.pos = self.pos + 1;
        }
    }

    /// Consumes `ch` if it is under the cursor.
    fn eat(&mut self, ch: char) -> (r: bool)
        requires
            old(self).wf(),
        ensures
            final(self).wf(),
            final(self).keeps(old(self)),
            r == (old(self).current() == Some(ch)),
            final(self).at() == if r {
                old(self).at() + 1
            } else {
                old(self).at()
            },
    {
        if self.pos < self.input.len() && self.input[self.pos] == ch {
            self.pos = self.pos + 1;
            true
        } else {
            false
        }
    }

    /// A copy of the characters in `[start, end)`.
    fn copy_range(&self, start: usize, end: usize) -> (r: Vec<char>)
        requires
            start <= end <= self.input.len(),
        ensures
            r@ == self.input@.subrange(start as int, end as int),
    {
        let mut out: Vec<char> = Vec::with_capacity(end - start);
        let mut i: usize = start;
        while i < end
            invariant
                start <= i <= end <= self.input.len(),
                out@ == self.input@.subrange(start as int, i as int),
            decreases end - i,
        {
            out.push(self.input[i]);
            i = i + 1;
            assert(out@ =~= self.input@.subrange(start as int, i as int));
        }
        out
    }

    /// Moves the cursor to the next `ch` (or to the end); returns where it started.
    fn advance_to(&mut self, ch: char) -> (start: usize)
        requires
            old(self).wf(),
        ensures
            final(self).wf(),
            final(self).keeps(old(self)),
            start == old(self).at() <= final(self).at(),
            final(self).at() == find_char(old(self).text(), old(self).at(), ch),
    {
        proof {
            lemma_find_char(self.input@, self.pos as int, ch);
        }
        let start = self.pos;
        while self.pos < self.input.len() && self.input[self.pos] != ch
            invariant
                self.wf(),
                self.keeps(old(self)),
                start == old(self).at() <= self.pos,
                find_char(self.input@, self.pos as int, ch) == find_char(
                    old(self).text(),
                    old(self).at(),
                    ch,
                ),
            decreases self.input.len() - self.pos,
        {
            self.pos = self.pos + 1;
        }
        start
    }

    /// Reads from the cursor up to and including the next `ch`, or to the end
    /// of the input; `None` only at the end of the input.
    pub fn slice_to_inc(&mut self, ch: char) -> (r: Option<String>)
        requires
            old(self).wf(),
        ensures
            final(self).wf(),
            final(self).keeps(old(self)),
            old(self).at() <= final(self).at(),
            ({
                let s = old(self).text();
                let p = old(self).at();
                let f = find_char(s, p, ch);
                let e = if f < s.len() {
                    f + 1
                } else {
                    s.len() as int
                };
                if p == s.len() {
                    r is None && final(self).at() == p
                } else {
                    (r matches Some(t) && t@ == s.subrange(p, e)) && final(self).at() == e
                }
            }),
    {
        if self.pos == self.input.len() {
            return None;
        }
        let start = self.advance_to(ch);
        if self.pos < self.input.len() {
            self.pos = self.pos + 1;
        }
        let chars = self.copy_range(start, self.pos);
        Some(string_of(chars.as_slice()))
    }

    /// Reads from the cursor up to the next `ch`, which is consumed but not
    /// returned, or to the end of the input; `None` only at the end of the input.
    pub fn slice_to_exc(&mut self, ch: char) -> (r: Option<String>)
        requires
            old(self).wf(),
        ensures
            final(self).wf(),
            final(self).keeps(old(self)),
            old(self).at() <= final(self).at(),
            ({
                let s = old(self).text();
                let p = old(self).at();
                let f = find_char(s, p, ch);
                if p == s.len() {
                    r is None && final(self).at() == p
                } else {
                    (r matches Some(t) && t@ == s.subrange(p, f)) && final(self).at() == (if f
                        < s.len() {
                        f + 1
                    } else {
                        f
                    })
                }
            }),
    {
        if self.pos == self.input.len() {
            return None;
        }
        let start = self.advance_to(ch);
        let chars = self.copy_range(start, self.pos);
        if self.pos < self.input.len() {
            self.pos = self.pos + 1;
        }
        Some(string_of(chars.as_slice()))
    }

    /// Reads the longest run of characters, from the cursor on, that satisfy
    /// `predicate`; `None` when that run is empty.
    pub fn slice_while<F: Fn(char) -> bool>(&mut self, predicate: F) -> (r: Option<String>)
        requires
            old(self).wf(),
            forall|c: char| predicate.requires((c,)),
        ensures
            final(self).wf(),
            final(self).keeps(old(self)),
            old(self).at() <= final(self).at(),
            forall|j: int|
                old(self).at() <= j < final(self).at() ==> predicate.ensures(
                    (#[trigger] old(self).text()[j],),
                    true,
                ),
            final(self).at() < final(self).text().len() ==> predicate.ensures(
                (final(self).text()[final(self).at()],),
                false,
            ),
            final(self).at() == old(self).at() ==> r is None,
            final(self).at() > old(self).at() ==> (r matches Some(t) && t@ == old(self).text().subrange(old(self).at(), final(self).at())),
    {
        let start = self.pos;
        let mut going = true;
        while going && self.pos < self.input.len()
            invariant
                self.wf(),
                self.keeps(old(self)),
                forall|c: char| predicate.requires((c,)),
                start == old(self).at() <= self.pos,
                forall|j: int|
                    start <= j < self.pos ==> predicate.ensures(
                        (#[trigger] self.input@[j],),
                        true,
                    ),
                !going ==> self.pos < self.input.len() && predicate.ensures(
                    (self.input@[self.pos as int],),
                    false,
                ),
            decreases self.input.len() - self.pos, if going { 1int } else { 0int },
        {
            if predicate(self.input[self.pos]) {
                self.pos = self.pos + 1;
            } else {
                going = false;
            }
        }
        if self.pos == start {
            None
        } else {
            let chars = self.copy_range(start, self.pos);
            Some(string_of(chars.as_slice()))
        }
    }
}

/// Where a value starts when the reader is at `p`: past blanks, one optional
/// line break and more blanks.
pub open spec fn value_start(s: Seq<char>, p: int) -> int {
    let a = skip_blanks(s, p);
    let b = if a < s.len() && s[a] == '\n' {
        a + 1
    } else if a < s.len() && s[a] == '\r' {
        if a + 1 < s.len() && s[a + 1] == '\n' {
            a + 2
        } else {
            a + 1
        }
    } else {
        a
    };
    skip_blanks(s, b)
}

/// What reading a value from `p` gives, and where it stops; `None` where
/// the reader fails or finds no value.
pub open spec fn parse_value(s: Seq<char>, p: int) -> Option<(Model, int)>
    decreases s.len() - p, 1int,
{
    let q = value_start(s, p);
    if !(0 <= p <= q < s.len()) {
        None
    } else if s[q] == '"' {
        let e = scan_end(s, q + 1, '"');
        if e < s.len() {
            Some((Model::Str(unescape(s.subrange(q + 1, e), false)), e + 1))
        } else {
            None
        }
    } else if s[q] == '[' {
        match parse_items(s, q + 1, Seq::empty()) {
            Some((items, e)) => Some((Model::Arr(items), e)),
            None => None,
        }
    } else if s[q] == '{' {
        match parse_entries(s, q + 1, Map::empty()) {
            Some((m, e)) => Some((Model::Dict(m), e)),
            None => None,
        }
    } else if is_digit_char(s[q]) {
        let e1 = digit_end(s, q);
        if e1 < s.len() && s[e1] == '.' {
            let e2 = digit_end(s, e1 + 1);
            Some((Model::Float(s.subrange(q, e2)), e2))
        } else if digits_value(s.subrange(q, e1)) <= i64::MAX {
            Some((Model::Int(digits_value(s.subrange(q, e1))), e1))
        } else {
            None
        }
    } else if q + 4 <= s.len() && s.subrange(q, q + 4) == seq!['t', 'r', 'u', 'e'] {
        Some((Model::Bool(true), q + 4))
    } else if q + 5 <= s.len() && s.subrange(q, q + 5) == seq!['f', 'a', 'l', 's', 'e'] {
        Some((Model::Bool(false), q + 5))
    } else {
        None
    }
}

/// What reading array elements from `p` (past the `[`) adds to `acc`, and
/// where it stops (past the `]`). Commas, blanks and line breaks between
/// elements are skipped.
pub open spec fn parse_items(s: Seq<char>, p: int, acc: Seq<Model>) -> Option<(Seq<Model>, int)>
    decreases s.len() - p, 2int,
{
    let q = skip_lines(s, p);
    if !(0 <= p <= q < s.len()) {
        None
    } else if s[q] == ']' {
        Some((acc, q + 1))
    } else if s[q] == ',' {
        parse_items(s, q + 1, acc)
    } else {
        match parse_value(s, q) {
            Some((v, m)) => if q < m <= s.len() {
                parse_items(s, m, acc.push(v))
            } else {
                None
            },
            None => None,
        }
    }
}

/// What reading `key = value` from `q` gives, and where it stops.
pub open spec fn parse_entry(s: Seq<char>, q: int) -> Option<(Seq<char>, Model, int)>
    decreases s.len() - q, 0int,
{
    let ke = key_end(s, q);
    let z = skip_blanks(s, ke);
    let w = skip_blanks(s, z + 1);
    if 0 <= q < ke <= z < w <= s.len() && s[z] == '=' {
        match parse_value(s, w) {
            Some((v, e)) => Some((s.subrange(q, ke), v, e)),
            None => None,
        }
    } else {
        None
    }
}

/// What reading dictionary entries from `p` (past the `{`) enters into `acc`,
/// and where it stops (past the `}`). Commas, line breaks and blanks between
/// entries are skipped; a later entry replaces an earlier one.
pub open spec fn parse_entries(s: Seq<char>, p: int, acc: Map<Seq<char>, Model>) -> Option<
    (Map<Seq<char>, Model>, int),
>
    decreases s.len() - p, 2int,
{
    let q = skip_blanks(s, p);
    if !(0 <= p <= q < s.len()) {
        None
    } else if s[q] == '}' {
        Some((acc, q + 1))
    } else if s[q] == ',' || s[q] == '\n' {
        parse_entries(s, q + 1, acc)
    } else {
        match parse_entry(s, q) {
            Some((k, v, n)) => if q < n <= s.len() {
                parse_entries(s, n, acc.insert(k, v))
            } else {
                None
            },
            None => None,
        }
    }
}

/// At `v` stands a `t` or `f` that starts neither `true` nor `false`.
pub open spec fn no_value_at(s: Seq<char>, v: int) -> bool {
    &&& 0 <= v < s.len() && (s[v] == 't' || s[v] == 'f')
    &&& !(v + 4 <= s.len() && s.subrange(v, v + 4) == seq!['t', 'r', 'u', 'e'])
    &&& !(v + 5 <= s.len() && s.subrange(v, v + 5) == seq!['f', 'a', 'l', 's', 'e'])
}

/// The description of the error that reading a value from `p` fails with.
pub open spec fn value_error(s: Seq<char>, p: int) -> Seq<char>
    decreases s.len() - p, 1int,
{
    let q = value_start(s, p);
    if !(0 <= p <= q < s.len()) {
        "Cannot read a value"@
    } else if s[q] == '"' {
        "Cannot finish string"@
    } else if s[q] == '[' {
        items_error(s, q + 1)
    } else if s[q] == '{' {
        entries_error(s, q + 1)
    } else if is_digit_char(s[q]) {
        "number too large to fit in target type"@
    } else {
        "Cannot read a value"@
    }
}

/// The description of the error that reading array elements from `p` fails with.
pub open spec fn items_error(s: Seq<char>, p: int) -> Seq<char>
    decreases s.len() - p, 2int,
{
    let q = skip_lines(s, p);
    if !(0 <= p <= q < s.len()) || s[q] == ']' {
        "Cannot finish an array"@
    } else if s[q] == ',' {
        items_error(s, q + 1)
    } else if no_value_at(s, value_start(s, q)) {
        "Cannot finish an array"@
    } else {
        match parse_value(s, q) {
            Some((_, m)) => if q < m <= s.len() {
                items_error(s, m)
            } else {
                "Cannot finish an array"@
            },
            None => value_error(s, q),
        }
    }
}

/// The description of the error that reading `key = value` at `q` fails with.
pub open spec fn entry_error(s: Seq<char>, q: int) -> Seq<char>
    decreases s.len() - q, 0int,
{
    let ke = key_end(s, q);
    let z = skip_blanks(s, ke);
    let w = skip_blanks(s, z + 1);
    if !(z < s.len() && s[z] == '=') {
        "Expected the '=' key value separator"@
    } else if 0 <= q < ke <= z < w <= s.len() {
        value_error(s, w)
    } else {
        "Cannot read a value"@
    }
}

/// The description of the error that reading dictionary entries from `p` fails with.
pub open spec fn entries_error(s: Seq<char>, p: int) -> Seq<char>
    decreases s.len() - p, 2int,
{
    let q = skip_blanks(s, p);
    if !(0 <= p <= q < s.len()) || s[q] == '}' {
        "Cannot finish a dictionary"@
    } else if s[q] == ',' || s[q] == '\n' {
        entries_error(s, q + 1)
    } else if key_end(s, q) == q || entry_stops(s, q) {
        "Wrong entry of a dictionary"@
    } else {
        match parse_entry(s, q) {
            Some((_, _, n)) => if q < n <= s.len() {
                entries_error(s, n)
            } else {
                "Cannot finish a dictionary"@
            },
            None => entry_error(s, q),
        }
    }
}

/// The index just past the line break that ends the line holding `i`, or
/// the end of the input.
pub open spec fn line_after(s: Seq<char>, i: int) -> int {
    if find_char(s, i, '\n') < s.len() {
        find_char(s, i, '\n') + 1
    } else {
        s.len() as int
    }
}

/// What reading table cells from `p` (past the row's first `|`) adds to
/// `acc`, and where the row ends: at a comment (consumed to the end of its
/// line), a line break (consumed) or the end of the input. Each cell runs to
/// the next unescaped `|`, trailing whitespace dropped, escapes resolved.
pub open spec fn parse_cells(s: Seq<char>, p: int, acc: Seq<Model>) -> (Seq<Model>, int)
    decreases s.len() - p,
{
    let q = skip_blanks(s, p);
    if !(0 <= p <= q < s.len()) {
        (acc, q)
    } else if s[q] == '#' {
        (acc, line_after(s, q + 1))
    } else if s[q] == '\n' {
        (acc, q + 1)
    } else if s[q] == '\r' {
        (
            acc,
            if q + 1 < s.len() && s[q + 1] == '\n' {
                q + 2
            } else {
                q + 1
            },
        )
    } else {
        let e = scan_end(s, q, '|');
        let n = if e < s.len() {
            e + 1
        } else {
            e
        };
        if q <= e <= s.len() && q < n {
            parse_cells(s, n, acc.push(Model::Str(unescape(trim_end(s.subrange(q, e)), true))))
        } else {
            (acc, n)
        }
    }
}

/// The text of a section header read from the cursor at `p` (which holds `[`).
pub open spec fn header_name_start(s: Seq<char>, p: int) -> int {
    skip_blanks(s, p + 1)
}

impl Parser {
    fn create_error(&self, message: &str) -> (r: ParserError)
        ensures
            r.section@ == self.error_section(),
            r.desc@ == message@,
    {
        let section = match &self.last_section {
            Some(s) => s.clone(),
            None => {
                proof {
                    reveal_strlit("unknown");
                }
                "unknown".to_owned()
            },
        };
        ParserError { section, desc: message.to_owned() }
    }

    /// Moves the cursor to the next `stop` that no backslash escapes (or to
    /// the end); returns where it started.
    fn scan_to(&mut self, stop: char) -> (start: usize)
        requires
            old(self).wf(),
        ensures
            final(self).wf(),
            final(self).keeps(old(self)),
            start == old(self).at() <= final(self).at(),
            final(self).at() == scan_end(old(self).text(), old(self).at(), stop),
    {
        proof {
            lemma_scan_end(self.input@, self.pos as int, stop);
        }
        let start = self.pos;
        while self.pos < self.input.len() && self.input[self.pos] != stop
            invariant
                self.wf(),
                self.keeps(old(self)),
                start == old(self).at() <= self.pos,
                scan_end(self.input@, self.pos as int, stop) == scan_end(
                    self.input@,
                    start as int,
                    stop,
                ),
            decreases self.input.len() - self.pos,
        {
            if self.input[self.pos] == '\\' && self.pos + 1 < self.input.len() {
                self.pos = self.pos + 2;
            } else {
                self.pos = self.pos + 1;
            }
        }
        start
    }

    /// The end of `[a, e)` once trailing whitespace is dropped.
    fn trimmed_end(&self, a: usize, e: usize) -> (k: usize)
        requires
            a <= e <= self.input.len(),
        ensures
            a <= k <= e,
            self.input@.subrange(a as int, k as int) == trim_end(
                self.input@.subrange(a as int, e as int),
            ),
    {
        let mut k = e;
        while k > a && is_space_char(self.input[k - 1])
            invariant
                a <= k <= e <= self.input.len(),
                trim_end(self.input@.subrange(a as int, e as int)) == trim_end(
                    self.input@.subrange(a as int, k as int),
                ),
            decreases k,
        {
            assert(self.input@.subrange(a as int, k as int).drop_last() =~= self.input@.subrange(
                a as int,
                k - 1,
            ));
            k = k - 1;
        }
        k
    }

    /// The text that the characters in `[a, b)` stand for.
    fn unescape_range(&self, a: usize, b: usize, cell: bool) -> (r: Vec<char>)
        requires
            a <= b <= self.input.len(),
        ensures
            r@ == unescape(self.input@.subrange(a as int, b as int), cell),
    {
        let ghost s = self.input@;
        let mut out: Vec<char> = Vec::new();
        let mut j: usize = a;
        assert(unescape(s.subrange(a as int, b as int), cell) =~= out@ + unescape(
            s.subrange(j as int, b as int),
            cell,
        ));
        while j < b
            invariant
                s == self.input@,
                a <= j <= b <= s.len(),
                unescape(s.subrange(a as int, b as int), cell) == out@ + unescape(
                    s.subrange(j as int, b as int),
                    cell,
                ),
            decreases b - j,
        {
            let ghost t = s.subrange(j as int, b as int);
            let c = self.input[j];
            if c == '\\' && j + 1 < b {
                let ghost before = out@;
                push_unescaped(&mut out, self.input[j + 1], cell);
                assert(t.subrange(2, t.len() as int) =~= s.subrange(j + 2, b as int));
                assert(out@ + unescape(s.subrange(j + 2, b as int), cell) =~= before + unescape(
                    t,
                    cell,
                ));
                j = j + 2;
            } else {
                let ghost before = out@;
                out.push(c);
                assert(t.subrange(1, t.len() as int) =~= s.subrange(j + 1, b as int));
                assert(out@ + unescape(s.subrange(j + 1, b as int), cell) =~= before + unescape(
                    t,
                    cell,
                ));
                j = j + 1;
            }
        }
        assert(unescape(s.subrange(b as int, b as int), cell) =~= Seq::<char>::empty());
        assert(out@ =~= unescape(s.subrange(a as int, b as int), cell));
        out
    }

    /// Reads a quoted string; the cursor is on its opening `"`.
    pub fn finish_string(&mut self) -> (r: Result<Option<Value>, ParserError>)
        requires
            old(self).wf(),
        ensures
            final(self).wf(),
            final(self).keeps(old(self)),
            final(self).at() >= old(self).at(),
            r matches Ok(Some(v)) ==> final(self).at() > old(self).at() && v.wf() && readable(v),
            ({
                let s = old(self).text();
                let q = if old(self).at() < s.len() {
                    old(self).at() + 1
                } else {
                    old(self).at()
                };
                let e = scan_end(s, q, '"');
                if e < s.len() {
                    final(self).at() == e + 1 && (r matches Ok(Some(Value::String(t))) && t@
                        == unescape(s.subrange(q, e), false))
                } else {
                    r matches Err(err) && err.section@ == old(self).error_section() && err.desc@
                        == "Cannot finish string"@
                }
            }),
    {
        if self.pos < self.input.len() {
            self.pos = self.pos + 1;
        }
        let start = self.scan_to('"');
        if self.pos == self.input.len() {
            return Err(self.create_error("Cannot finish string"));
        }
        let content = self.unescape_range(start, self.pos, false);
        self.pos = self.pos + 1;
        Ok(Some(Value::String(string_of(content.as_slice()))))
    }

    /// Reads a run of ASCII digits.
    fn integer(&mut self) -> (r: Option<String>)
        requires
            old(self).wf(),
        ensures
            final(self).wf(),
            final(self).keeps(old(self)),
            old(self).at() <= final(self).at() == digit_end(old(self).text(), old(self).at()),
            final(self).at() == old(self).at() ==> r is None,
            final(self).at() > old(self).at() ==> (r matches Some(t) && t@ == old(
                self,
            ).text().subrange(old(self).at(), final(self).at())),
    {
        let r = self.slice_while(is_digit);
        proof {
            lemma_digit_end(self.input@, old(self).pos as int, self.pos as int);
        }
        r
    }

    /// Reads a key: one or more of `[A-Za-z0-9_-]`.
    fn key_name(&mut self) -> (r: Option<String>)
        requires
            old(self).wf(),
        ensures
            final(self).wf(),
            final(self).keeps(old(self)),
            old(self).at() <= final(self).at() == key_end(old(self).text(), old(self).at()),
            final(self).at() == old(self).at() ==> r is None,
            final(self).at() > old(self).at() ==> (r matches Some(t) && t@ == old(
                self,
            ).text().subrange(old(self).at(), final(self).at())),
    {
        let r = self.slice_while(is_key);
        proof {
            lemma_key_end(self.input@, old(self).pos as int, self.pos as int);
        }
        r
    }

    /// The value of the digits in `[a, b)`, if it fits in an `i64`.
    fn digits_to_i64(&self, a: usize, b: usize) -> (r: Option<i64>)
        requires
            a <= b <= self.input.len(),
            forall|i: int| a <= i < b ==> is_digit_char(#[trigger] self.input@[i]),
        ensures
            match r {
                Some(v) => v == digits_value(self.input@.subrange(a as int, b as int)),
                None => digits_value(self.input@.subrange(a as int, b as int)) > i64::MAX,
            },
    {
        let mut v: i64 = 0;
        let mut j: usize = a;
        while j < b
            invariant
                a <= j <= b <= self.input.len(),
                forall|i: int| a <= i < b ==> is_digit_char(#[trigger] self.input@[i]),
                v == digits_value(self.input@.subrange(a as int, j as int)),
            decreases b - j,
        {
            let d = (self.input[j] as u32 - '0' as u32) as i64;
            proof {
                let t = self.input@.subrange(a as int, j + 1);
                assert(t.drop_last() =~= self.input@.subrange(a as int, j as int));
                lemma_digits_grow(self.input@, a as int, j + 1, b as int);
            }
            if v > (i64::MAX - d) / 10 {
                return None;
            }
            v = v * 10 + d;
            j = j + 1;
        }
        Some(v)
    }

    /// Reads an integer (`[0-9]+`) or a float (`[0-9]+.[0-9]*`).
    fn number(&mut self) -> (r: Result<Option<Value>, ParserError>)
        requires
            old(self).wf(),
        ensures
            final(self).wf(),
            final(self).keeps(old(self)),
            final(self).at() >= old(self).at(),
            r matches Ok(Some(v)) ==> final(self).at() > old(self).at() && v.wf() && readable(v),
            ({
                let s = old(self).text();
                let p = old(self).at();
                let e1 = digit_end(s, p);
                if e1 == p {
                    r == Ok::<Option<Value>, ParserError>(None) && final(self).at() == p
                } else if e1 < s.len() && s[e1] == '.' {
                    final(self).at() == digit_end(s, e1 + 1) && (r matches Ok(
                        Some(Value::Float(t)),
                    ) && t@ == s.subrange(p, digit_end(s, e1 + 1)))
                } else if digits_value(s.subrange(p, e1)) <= i64::MAX {
                    final(self).at() == e1 && (r matches Ok(Some(Value::Integer(v))) && v
                        == digits_value(s.subrange(p, e1)))
                } else {
                    r matches Err(err) && err.section@ == old(self).error_section() && err.desc@
                        == "number too large to fit in target type"@
                }
            }),
    {
        let start = self.pos;
        if self.integer().is_none() {
            return Ok(None);
        }
        let e1 = self.pos;
        if self.eat('.') {
            self.integer();
            proof {
                lemma_float_shape(self.input@, start as int);
            }
            let text = self.copy_range(start, self.pos);
            Ok(Some(Value::Float(string_of(text.as_slice()))))
        } else {
            assert(forall|i: int| start <= i < e1 ==> is_digit_char(#[trigger] self.input@[i])) by {
                assert forall|i: int| start <= i < e1 implies is_digit_char(
                    #[trigger] self.input@[i],
                ) by {
                    lemma_digit_run(self.input@, start as int, i);
                }
            }
            proof {
                lemma_digits_grow(self.input@, start as int, start as int, e1 as int);
            }
            match self.digits_to_i64(start, e1) {
                Some(v) => Ok(Some(Value::Integer(v))),
                None => Err(self.create_error("number too large to fit in target type")),
            }
        }
    }

    /// Reads `true` or `false`; `None` when neither is at the cursor.
    fn boolean(&mut self) -> (r: Result<Option<Value>, ParserError>)
        requires
            old(self).wf(),
        ensures
            final(self).wf(),
            final(self).keeps(old(self)),
            final(self).at() >= old(self).at(),
            r matches Ok(Some(v)) ==> final(self).at() > old(self).at() && v.wf() && readable(v),
            ({
                let s = old(self).text();
                let p = old(self).at();
                if p + 4 <= s.len() && s.subrange(p, p + 4) == seq!['t', 'r', 'u', 'e'] {
                    r == Ok::<Option<Value>, ParserError>(Some(Value::Boolean(true)))
                        && final(self).at() == p + 4
                } else if p + 5 <= s.len() && s.subrange(p, p + 5) == seq![
                    'f',
                    'a',
                    'l',
                    's',
                    'e',
                ] {
                    r == Ok::<Option<Value>, ParserError>(Some(Value::Boolean(false)))
                        && final(self).at() == p + 5
                } else {
                    r == Ok::<Option<Value>, ParserError>(None) && final(self).at() == p
                }
            }),
    {
        let p = self.pos;
        let n = self.input.len();
        if n - p >= 4 && self.input[p] == 't' && self.input[p + 1] == 'r' && self.input[p + 2]
            == 'u' && self.input[p + 3] == 'e' {
            assert(self.input@.subrange(p as int, p + 4) =~= seq!['t', 'r', 'u', 'e']);
            self.pos = p + 4;
            Ok(Some(Value::Boolean(true)))
        } else if n - p >= 5 && self.input[p] == 'f' && self.input[p + 1] == 'a' && self.input[p
            + 2] == 'l' && self.input[p + 3] == 's' && self.input[p + 4] == 'e' {
            assert(self.input@.subrange(p as int, p + 5) =~= seq!['f', 'a', 'l', 's', 'e']);
            self.pos = p + 5;
            Ok(Some(Value::Boolean(false)))
        } else {
            proof {
                if p + 4 <= n && self.input@.subrange(p as int, p + 4) == seq!['t', 'r', 'u', 'e'] {
                    assert(self.input@.subrange(p as int, p + 4)[0] == self.input@[p as int]);
                    assert(self.input@.subrange(p as int, p + 4)[1] == self.input@[p + 1]);
                    assert(self.input@.subrange(p as int, p + 4)[2] == self.input@[p + 2]);
                    assert(self.input@.subrange(p as int, p + 4)[3] == self.input@[p + 3]);
                }
                if p + 5 <= n && self.input@.subrange(p as int, p + 5) == seq![
                    'f',
                    'a',
                    'l',
                    's',
                    'e',
                ] {
                    assert(self.input@.subrange(p as int, p + 5)[0] == self.input@[p as int]);
                    assert(self.input@.subrange(p as int, p + 5)[1] == self.input@[p + 1]);
                    assert(self.input@.subrange(p as int, p + 5)[2] == self.input@[p + 2]);
                    assert(self.input@.subrange(p as int, p + 5)[3] == self.input@[p + 3]);
                    assert(self.input@.subrange(p as int, p + 5)[4] == self.input@[p + 4]);
                }
            }
            Ok(None)
        }
    }
}

fn is_digit(c: char) -> (r: bool)
    ensures
        r == is_digit_char(c),
{
    '0' <= c && c <= '9'
}

fn is_key(c: char) -> (r: bool)
    ensures
        r == is_key_char(c),
{
    ('a' <= c && c <= 'z') || ('A' <= c && c <= 'Z') || ('0' <= c && c <= '9') || c == '_' || c
        == '-'
}

fn is_space_char(c: char) -> (r: bool)
    ensures
        r == is_space(c),
{
    ('\t' <= c && c <= '\r') || c == ' ' || c == '\u{85}' || c == '\u{A0}' || c == '\u{1680}'
        || ('\u{2000}' <= c && c <= '\u{200A}') || c == '\u{2028}' || c == '\u{2029}' || c
        == '\u{202F}' || c == '\u{205F}' || c == '\u{3000}'
}

fn push_unescaped(out: &mut Vec<char>, c: char, cell: bool)
    ensures
        final(out)@ == old(out)@ + unescape_pair(c, cell),
{
    if c == '\\' {
        out.push('\\');
    } else if c == 'n' {
        out.push('\n');
    } else if cell && c == '|' {
        out.push('|');
    } else if cell && c == 't' {
        out.push('\t');
    } else if !cell && c == '"' {
        out.push('"');
    } else {
        out.push('\\');
        out.push(c);
    }
    assert(out@ =~= old(out)@ + unescape_pair(c, cell));
}

proof fn lemma_key_run(s: Seq<char>, i: int, j: int)
    requires
        0 <= i <= j < key_end(s, i),
    ensures
        is_key_char(s[j]),
    decreases j - i,
{
    if i < j {
        lemma_key_run(s, i + 1, j);
    }
}

/// The text of a number with a `.` is shaped as a float.
proof fn lemma_float_shape(s: Seq<char>, q: int)
    requires
        0 <= q < digit_end(s, q) < s.len(),
        s[digit_end(s, q)] == '.',
    ensures
        float_shaped(s.subrange(q, digit_end(s, digit_end(s, q) + 1))),
{
    let e1 = digit_end(s, q);
    lemma_digit_end_at_least(s, e1 + 1);
    let e2 = digit_end(s, e1 + 1);
    let t = s.subrange(q, e2);
    assert forall|j: int| 0 <= j < e1 - q implies is_digit_char(#[trigger] t[j]) by {
        lemma_digit_run(s, q, q + j);
    }
    lemma_digit_end(t, 0, e1 - q);
    assert forall|j: int| e1 - q + 1 <= j < e2 - q implies is_digit_char(#[trigger] t[j]) by {
        lemma_digit_run(s, e1 + 1, q + j);
    }
    lemma_digit_end(t, e1 - q + 1, e2 - q);
}

proof fn lemma_digit_run(s: Seq<char>, i: int, j: int)
    requires
        0 <= i <= j < digit_end(s, i),
    ensures
        is_digit_char(s[j]),
    decreases j - i,
{
    if i < j {
        lemma_digit_run(s, i + 1, j);
    }
}

impl Parser {
    /// Reads one table cell: leading blanks skipped, up to the next unescaped
    /// `|` (consumed) or the end, trailing whitespace dropped, escapes resolved.
    fn cell(&mut self) -> (r: String)
        requires
            old(self).wf(),
        ensures
            final(self).wf(),
            final(self).keeps(old(self)),
            final(self).at() >= old(self).at(),
            old(self).at() < old(self).text().len() ==> final(self).at() > old(self).at(),
            ({
                let s = old(self).text();
                let q = skip_blanks(s, old(self).at());
                let e = scan_end(s, q, '|');
                &&& r@ == unescape(trim_end(s.subrange(q, e)), true)
                &&& final(self).at() == if e < s.len() {
                    e + 1
                } else {
                    e
                }
            }),
    {
        self.ws();
        let start = self.scan_to('|');
        let end = self.trimmed_end(start, self.pos);
        let content = self.unescape_range(start, end, true);
        if self.pos < self.input.len() {
            self.pos = self.pos + 1;
        }
        string_of(content.as_slice())
    }

    /// Reads a comment from `#` to the end of its line, line break included.
    fn comment(&mut self) -> (r: Option<Element>)
        requires
            old(self).wf(),
        ensures
            final(self).wf(),
            final(self).keeps(old(self)),
            r is Some <==> old(self).current() == Some('#'),
            r is None ==> final(self).at() == old(self).at(),
            r matches Some(e) ==> final(self).at() > old(self).at() && final(self).at()
                == line_after(old(self).text(), old(self).at() + 1) && (e matches Element::Comment(
                t,
            ) && t@ == old(self).text().subrange(
                old(self).at() + 1,
                line_after(old(self).text(), old(self).at() + 1),
            )),
    {
        if !self.eat('#') {
            return None;
        }
        proof {
            lemma_find_char(self.input@, self.pos as int, '\n');
        }
        let text = match self.slice_to_inc('\n') {
            Some(t) => t,
            None => String::new(),
        };
        Some(Element::Comment(text))
    }

    /// Reads a table row; the cursor is on its first `|`. A comment, a line
    /// break or the end of the input ends the row.
    fn row(&mut self) -> (r: Element)
        requires
            old(self).wf(),
            old(self).current() == Some('|'),
        ensures
            final(self).wf(),
            final(self).keeps(old(self)),
            final(self).at() > old(self).at(),
            r matches Element::Row(cells) && row_shaped(cells@) && (forall|i: int|
                0 <= i < cells@.len() ==> #[trigger] cells@[i] is String) && parse_cells(
                old(self).text(),
                old(self).at() + 1,
                Seq::empty(),
            ) == (models(cells@, cells@.len() as int), final(self).at()),
    {
        let ghost s = self.input@;
        let mut row: Vec<Value> = Vec::with_capacity(self.row_capacity);
        self.eat('|');
        let ghost begin = self.pos as int;
        loop
            invariant_except_break
                parse_cells(s, begin, Seq::empty()) == parse_cells(
                    s,
                    self.pos as int,
                    models(row@, row@.len() as int),
                ),
            invariant
                self.wf(),
                self.keeps(old(self)),
                s == self.input@,
                begin == old(self).pos + 1,
                self.pos >= begin,
                forall|i: int| 0 <= i < row@.len() ==> #[trigger] row@[i] is String,
                row_shaped(row@),
            ensures
                parse_cells(s, begin, Seq::empty()) == (
                    models(row@, row@.len() as int),
                    self.pos as int,
                ),
            decreases self.input.len() - self.pos,
        {
            proof {
                lemma_skip_blanks(s, self.pos as int);
            }
            self.ws();
            let ghost q = self.pos as int;
            if self.comment().is_some() {
                break;
            }
            if self.newline() {
                break;
            }
            if self.peek().is_none() {
                break;
            }
            proof {
                lemma_scan_end(s, q, '|');
            }
            let ghost old_row = row@;
            let ghost q0 = self.pos as int;
            let c = self.cell();
            proof {
                assert(skip_blanks(s, q0) == q0);
                let e = scan_end(s, q0, '|');
                let t = trim_end(s.subrange(q0, e));
                lemma_trim_end(s.subrange(q0, e));
                if t.len() > 0 {
                    assert(t[0] == s.subrange(q0, e)[0]);
                    assert(t[0] == s[q0]);
                    lemma_unescape_ends(t);
                }
                assert(cell_shaped(c@));
            }
            let ghost cv = Value::String(c);
            row.push(Value::String(c));
            proof {
                lemma_models_prefix(row@, old_row, old_row.len() as int);
                assert(row@[old_row.len() as int] == cv);
                assert(models(row@, row@.len() as int) == models(
                    old_row,
                    old_row.len() as int,
                ).push(model_of(cv)));
            }
        }
        Element::Row(row)
    }

    /// Consumes `=` with optional blanks around it; false when there is no `=`.
    fn keyval_sep(&mut self) -> (r: bool)
        requires
            old(self).wf(),
        ensures
            final(self).wf(),
            final(self).keeps(old(self)),
            final(self).at() >= old(self).at(),
            r == (skip_blanks(old(self).text(), old(self).at()) < old(self).text().len() && old(
                self,
            ).text()[skip_blanks(old(self).text(), old(self).at())] == '='),
            r ==> final(self).at() == skip_blanks(
                old(self).text(),
                skip_blanks(old(self).text(), old(self).at()) + 1,
            ),
    {
        self.ws();
        if !self.expect('=') {
            return false;
        }
        self.ws();
        true
    }

    fn expect(&mut self, ch: char) -> (r: bool)
        requires
            old(self).wf(),
        ensures
            final(self).wf(),
            final(self).keeps(old(self)),
            r == (old(self).current() == Some(ch)),
            final(self).at() == if r {
                old(self).at() + 1
            } else {
                old(self).at()
            },
    {
        self.eat(ch)
    }

    /// Reads `key = value`; `None` when no key is at the cursor, or when the
    /// value is a `t` or `f` that starts neither `true` nor `false`.
    fn entry(&mut self) -> (r: Result<Option<Element>, ParserError>)
        requires
            old(self).wf(),
        ensures
            final(self).wf(),
            final(self).keeps(old(self)),
            final(self).at() >= old(self).at(),
            !(r matches Ok(None)) ==> final(self).at() > old(self).at(),
            key_end(old(self).text(), old(self).at()) == old(self).at() ==> r matches Ok(None),
            r matches Ok(Some(e)) ==> (e matches Element::Entry(k, v) && v.wf() && readable(v)
                && key_shaped(k@) && parse_entry(
                old(self).text(),
                old(self).at(),
            ) == Some((k@, model_of(v), final(self).at()))),
            parse_entry(old(self).text(), old(self).at()) is Some ==> r matches Ok(Some(_)),
            entry_stops(old(self).text(), old(self).at()) ==> r matches Ok(None),
            key_end(old(self).text(), old(self).at()) >= old(self).at(),
            key_end(old(self).text(), old(self).at()) > old(self).at() && !entry_stops(
                old(self).text(),
                old(self).at(),
            ) && parse_entry(old(self).text(), old(self).at()) is None ==> r is Err,
            r matches Err(e) ==> e.section@ == old(self).error_section() && e.desc@ == entry_error(
                old(self).text(),
                old(self).at(),
            ),
        decreases old(self).text().len() - old(self).at(), 0int,
    {
        let ghost s = self.input@;
        let ghost q = self.pos as int;
        let key = match self.key_name() {
            Some(k) => k,
            None => {
                assert(key_end(s, q) == q);
                return Ok(None);
            },
        };
        let ghost ke = self.pos as int;
        proof {
            lemma_skip_blanks(s, ke);
            assert forall|j: int| 0 <= j < key@.len() implies is_key_char(#[trigger] key@[j]) by {
                lemma_key_run(s, q, q + j);
            }
        }
        if !self.keyval_sep() {
            return Err(self.create_error("Expected the '=' key value separator"));
        }
        proof {
            lemma_skip_blanks(s, skip_blanks(s, ke) + 1);
        }
        assert(self.pos == skip_blanks(s, skip_blanks(s, ke) + 1));
        match self.value() {
            Ok(Some(v)) => Ok(Some(Element::Entry(key, v))),
            Ok(None) => Ok(None),
            Err(e) => Err(e),
        }
    }

    /// Reads a value: a quoted string, an array, a dictionary, a number or a
    /// boolean, after optional blanks and one optional line break. `None` when
    /// a `t` or `f` starts neither `true` nor `false`.
    fn value(&mut self) -> (r: Result<Option<Value>, ParserError>)
        requires
            old(self).wf(),
        ensures
            final(self).wf(),
            final(self).keeps(old(self)),
            final(self).at() >= old(self).at(),
            r matches Ok(Some(v)) ==> final(self).at() > old(self).at() && v.wf() && readable(v)
                && parse_value(
                old(self).text(),
                old(self).at(),
            ) == Some((model_of(v), final(self).at())),
            parse_value(old(self).text(), old(self).at()) is Some ==> r matches Ok(Some(_)),
            ({
                let t = old(self).text();
                let v = value_start(t, old(self).at());
                let no_value = no_value_at(t, v);
                &&& no_value ==> (r matches Ok(None))
                &&& (parse_value(t, old(self).at()) is None && !no_value) ==> r is Err
            }),
            r matches Err(e) ==> e.section@ == old(self).error_section() && e.desc@ == value_error(
                old(self).text(),
                old(self).at(),
            ),
        decreases old(self).text().len() - old(self).at(), 1int,
    {
        self.ws();
        self.newline();
        self.ws();
        assert(self.pos == value_start(self.input@, old(self).pos as int));
        match self.peek() {
            Some('"') => self.finish_string(),
            Some('[') => self.finish_array(),
            Some('{') => self.finish_dictionary(),
            Some(ch) if is_digit(ch) => {
                proof {
                    lemma_digit_end_at_least(self.input@, self.pos as int);
                }
                self.number()
            },
            Some('t') | Some('f') => self.boolean(),
            _ => {
                proof {
                    let t = self.input@;
                    let q = self.pos as int;
                    if q + 4 <= t.len() && t.subrange(q, q + 4) == seq!['t', 'r', 'u', 'e'] {
                        assert(t.subrange(q, q + 4)[0] == t[q]);
                    }
                    if q + 5 <= t.len() && t.subrange(q, q + 5) == seq!['f', 'a', 'l', 's', 'e'] {
                        assert(t.subrange(q, q + 5)[0] == t[q]);
                    }
                }
                Err(self.create_error("Cannot read a value"))
            },
        }
    }

    /// Reads an array; the cursor is on its `[`. Elements are separated by
    /// commas or blanks.
    pub fn finish_array(&mut self) -> (r: Result<Option<Value>, ParserError>)
        requires
            old(self).wf(),
        ensures
            final(self).wf(),
            final(self).keeps(old(self)),
            final(self).at() >= old(self).at(),
            r matches Ok(Some(v)) ==> final(self).at() > old(self).at() && readable(v) && (
            v matches Value::Array(a) && (old(self).current() == Some('[') ==> parse_items(
                old(self).text(),
                old(self).at() + 1,
                Seq::empty(),
            ) == Some((models(a@, a@.len() as int), final(self).at())))),
            r is Ok ==> r matches Ok(Some(_)),
            old(self).current() == Some('[') && parse_items(
                old(self).text(),
                old(self).at() + 1,
                Seq::empty(),
            ) is Some ==> r is Ok,
            r matches Err(e) ==> e.section@ == old(self).error_section(),
            r matches Err(e) ==> (old(self).current() == Some('[') ==> e.desc@ == items_error(
                old(self).text(),
                old(self).at() + 1,
            )),
        decreases old(self).text().len() - old(self).at(), 0int,
    {
        let ghost s = self.input@;
        self.next_char();
        let ghost begin = self.pos as int;
        let mut row: Vec<Value> = Vec::with_capacity(self.array_capacity);
        loop
            invariant_except_break
                items_error(s, begin) == items_error(s, self.pos as int),
                parse_items(s, begin, Seq::empty()) == parse_items(
                    s,
                    self.pos as int,
                    models(row@, row@.len() as int),
                ),
            invariant
                self.wf(),
                self.keeps(old(self)),
                s == self.input@,
                begin == (if old(self).pos < old(self).input.len() {
                    old(self).pos + 1
                } else {
                    old(self).pos as int
                }),
                self.pos >= begin,
                self.pos >= old(self).pos,
                old(self).pos < old(self).input.len() ==> self.pos > old(self).pos,
                readable_items(row@, row@.len() as int),
            ensures
                parse_items(s, begin, Seq::empty()) is None,
                items_error(s, begin) == "Cannot finish an array"@,
            decreases self.input.len() - self.pos,
        {
            let ghost pos0 = self.pos as int;
            let ghost acc = models(row@, row@.len() as int);
            proof {
                lemma_skip_lines_at_least(s, pos0);
            }
            self.skip_space();
            let ghost q = self.pos as int;
            match self.peek() {
                Some(']') => {
                    self.next_char();
                    return Ok(Some(Value::Array(row)));
                },
                Some(',') => {
                    self.next_char();
                },
                Some(_) => {
                    match self.value() {
                        Ok(Some(v)) => {
                            let ghost old_row = row@;
                            let ghost vv = v;
                            let ghost m = self.pos as int;
                            row.push(v);
                            proof {
                                lemma_models_prefix(row@, old_row, old_row.len() as int);
                                lemma_readable_items_prefix(row@, old_row, old_row.len() as int);
                                assert(row@[old_row.len() as int] == vv);
                                assert(models(row@, row@.len() as int) == models(
                                    old_row,
                                    old_row.len() as int,
                                ).push(model_of(vv)));
                                assert(parse_value(s, q) == Some((model_of(vv), m)));
                                assert(q == skip_lines(s, pos0));
                                assert(s[q] != ']' && s[q] != ',');
                                assert(parse_items(s, pos0, models(old_row, old_row.len() as int))
                                    == parse_items(s, m, models(row@, row@.len() as int)));
                            }
                        },
                        Ok(None) => {
                            assert(parse_items(s, pos0, acc) is None);
                            assert(items_error(s, pos0) == "Cannot finish an array"@);
                            break;
                        },
                        Err(e) => return Err(e),
                    }
                },
                None => {
                    assert(parse_items(s, pos0, acc) is None);
                    assert(items_error(s, pos0) == "Cannot finish an array"@);
                    break;
                },
            }
        }
        Err(self.create_error("Cannot finish an array"))
    }

    /// Reads a dictionary; the cursor is on its `{`. Entries are separated by
    /// commas or line breaks; a later entry replaces an earlier one.
    pub fn finish_dictionary(&mut self) -> (r: Result<Option<Value>, ParserError>)
        requires
            old(self).wf(),
        ensures
            final(self).wf(),
            final(self).keeps(old(self)),
            final(self).at() >= old(self).at(),
            r matches Ok(Some(v)) ==> final(self).at() > old(self).at() && v.wf() && readable(v)
                && (v matches Value::Dictionary(d) && (old(self).current() == Some('{')
                ==> parse_entries(
                old(self).text(),
                old(self).at() + 1,
                Map::empty(),
            ) == Some((dict_model(d), final(self).at())))),
            r is Ok ==> r matches Ok(Some(_)),
            old(self).current() == Some('{') && parse_entries(
                old(self).text(),
                old(self).at() + 1,
                Map::empty(),
            ) is Some ==> r is Ok,
            r matches Err(e) ==> e.section@ == old(self).error_section(),
            r matches Err(e) ==> (old(self).current() == Some('{') ==> e.desc@ == entries_error(
                old(self).text(),
                old(self).at() + 1,
            )),
        decreases old(self).text().len() - old(self).at(), 0int,
    {
        let ghost s = self.input@;
        self.next_char();
        let ghost begin = self.pos as int;
        let mut map: Dictionary = NameMap::new();
        proof {
            assert(dict_model(map) =~= Map::<Seq<char>, Model>::empty());
        }
        loop
            invariant
                self.wf(),
                self.keeps(old(self)),
                s == self.input@,
                begin == (if old(self).pos < old(self).input.len() {
                    old(self).pos + 1
                } else {
                    old(self).pos as int
                }),
                self.pos >= begin,
                self.pos >= old(self).pos,
                old(self).pos < old(self).input.len() ==> self.pos > old(self).pos,
                map.wf(),
                forall|k: Seq<char>| #[trigger]
                    map@.contains_key(k) ==> key_shaped(k) && readable(map@[k]),
                parse_entries(s, begin, Map::empty()) == parse_entries(
                    s,
                    self.pos as int,
                    dict_model(map),
                ),
                entries_error(s, begin) == entries_error(s, self.pos as int),
            ensures
                parse_entries(s, begin, Map::empty()) is None,
                entries_error(s, begin) == "Cannot finish a dictionary"@,
            decreases self.input.len() - self.pos,
        {
            let ghost pos0 = self.pos as int;
            proof {
                lemma_skip_blanks(s, pos0);
            }
            self.ws();
            let ghost q = self.pos as int;
            match self.peek() {
                Some('}') => {
                    self.next_char();
                    proof {
                        lemma_readable_dict(map);
                    }
                    return Ok(Some(Value::Dictionary(map)));
                },
                Some(',') => {
                    self.next_char();
                },
                Some('\n') => {
                    self.next_char();
                },
                Some(_) => {
                    match self.entry() {
                        Ok(Some(Element::Entry(k, v))) => {
                            let ghost before = map;
                            let ghost kk = k@;
                            let ghost vv = v;
                            map.insert(k, v);
                            proof {
                                lemma_dict_model(before);
                                lemma_dict_model(map);
                                assert(dict_model(map) =~= dict_model(before).insert(
                                    kk,
                                    model_of(vv),
                                ));
                            }
                        },
                        Ok(_) => {
                            return Err(self.create_error("Wrong entry of a dictionary"));
                        },
                        Err(e) => return Err(e),
                    }
                },
                None => break,
            }
        }
        Err(self.create_error("Cannot finish a dictionary"))
    }
}

/// Where reading a header at `q` stops: past its `]`, or at the end.
pub open spec fn header_end(s: Seq<char>, q: int) -> int {
    let f = find_char(s, header_name_start(s, q), ']');
    if f < s.len() {
        f + 1
    } else {
        f
    }
}

/// At `q` stands `key =` followed by a `t` or `f` that starts neither `true`
/// nor `false`: the reader finds no value there and stops without an error.
pub open spec fn entry_stops(s: Seq<char>, q: int) -> bool {
    let ke = key_end(s, q);
    let z = skip_blanks(s, ke);
    let v = value_start(s, skip_blanks(s, z + 1));
    &&& q < ke
    &&& z < s.len() && s[z] == '='
    &&& no_value_at(s, v)
}

/// Whether reading element after element from `p`, without a section
/// filter, meets a grammar error before the input ends or no element starts.
pub open spec fn walk_fails(s: Seq<char>, p: int) -> bool
    decreases s.len() - p,
{
    let q = skip_lines(s, p);
    if !(0 <= p <= q < s.len()) {
        false
    } else if s[q] == '[' {
        let e = header_end(s, q);
        if q < e <= s.len() {
            walk_fails(s, e)
        } else {
            false
        }
    } else if s[q] == '|' {
        let e = parse_cells(s, q + 1, Seq::empty()).1;
        if q < e <= s.len() {
            walk_fails(s, e)
        } else {
            false
        }
    } else if s[q] == '#' {
        let e = line_after(s, q + 1);
        if q < e <= s.len() {
            walk_fails(s, e)
        } else {
            false
        }
    } else if key_end(s, q) == q || entry_stops(s, q) {
        false
    } else {
        match parse_entry(s, q) {
            Some((_, _, e)) => if q < e <= s.len() {
                walk_fails(s, e)
            } else {
                false
            },
            None => true,
        }
    }
}

/// The name a header at `q` gives.
pub open spec fn header_text(s: Seq<char>, q: int) -> Seq<char> {
    s.subrange(header_name_start(s, q), find_char(s, header_name_start(s, q), ']'))
}

/// What an element stands for.
pub enum ElementModel {
    Header(Seq<char>),
    Row(Seq<Model>),
    Entry(Seq<char>, Model),
    Comment(Seq<char>),
}

pub open spec fn element_model(e: Element) -> ElementModel {
    match e {
        Element::Section(n) => ElementModel::Header(n@),
        Element::Row(cells) => ElementModel::Row(models(cells@, cells@.len() as int)),
        Element::Entry(k, v) => ElementModel::Entry(k@, model_of(v)),
        Element::Comment(t) => ElementModel::Comment(t@),
    }
}

/// A grammar error: the section it is attributed to, and its description.
pub type ErrorModel = (Seq<char>, Seq<char>);

/// What producing one element from `p` gives: the element (`None` at the
/// end), where the reader then stands, the names still wanted, whether a
/// header has been read, and the section errors are attributed to.
/// `wanted` is the filter (`None` without one). A filter that is empty
/// before any header ends production at once. A header the filter does not
/// want is skipped with everything up to the next header, line by line; a
/// wanted one leaves the working set; once the set is empty the next header
/// ends production. `skipping` holds while an unwanted section is skipped.
pub open spec fn produce(
    s: Seq<char>,
    p: int,
    wanted: Option<Seq<Seq<char>>>,
    seen: bool,
    skipping: bool,
    last: Seq<char>,
) -> (Option<Result<ElementModel, ErrorModel>>, int, Option<Seq<Seq<char>>>, bool, Seq<char>)
    decreases s.len() - p,
{
    let q = skip_lines(s, p);
    if wanted == Some(Seq::<Seq<char>>::empty()) && !seen {
        (None, p, wanted, seen, last)
    } else if !(0 <= p <= q < s.len()) {
        (None, q, wanted, seen, last)
    } else if s[q] == '[' {
        let e = header_end(s, q);
        let n = header_text(s, q);
        if !(q < e <= s.len()) {
            (None, q, wanted, seen, last)
        } else {
            match wanted {
                None => (Some(Ok(ElementModel::Header(n))), e, wanted, true, n),
                Some(w) => if w.len() == 0 {
                    (None, e, wanted, true, n)
                } else if w.contains(n) {
                    (
                        Some(Ok(ElementModel::Header(n))),
                        e,
                        Some(swap_removed(w, first_index(w, n))),
                        true,
                        n,
                    )
                } else if e <= line_after(s, e) <= s.len() {
                    produce(s, line_after(s, e), wanted, true, true, n)
                } else {
                    (None, e, wanted, true, n)
                },
            }
        }
    } else if skipping {
        if q < line_after(s, q) <= s.len() {
            produce(s, line_after(s, q), wanted, seen, true, last)
        } else {
            (None, q, wanted, seen, last)
        }
    } else if s[q] == '|' {
        let c = parse_cells(s, q + 1, Seq::empty());
        (Some(Ok(ElementModel::Row(c.0))), c.1, wanted, seen, last)
    } else if s[q] == '#' {
        let e = line_after(s, q + 1);
        (Some(Ok(ElementModel::Comment(s.subrange(q + 1, e)))), e, wanted, seen, last)
    } else if key_end(s, q) == q || entry_stops(s, q) {
        (None, q, wanted, seen, last)
    } else {
        match parse_entry(s, q) {
            Some((k, v, e)) => (Some(Ok(ElementModel::Entry(k, v))), e, wanted, seen, last),
            None => (Some(Err((last, entry_error(s, q)))), q, wanted, seen, last),
        }
    }
}

/// The sections once the current one is done and the input is at its end:
/// content before any header is kept under `root` only without a filter.
pub open spec fn finish_in(
    wanted: Option<Seq<Seq<char>>>,
    name: Option<Seq<char>>,
    cur: SectionModel,
    acc: Map<Seq<char>, SectionModel>,
) -> Map<Seq<char>, SectionModel> {
    match name {
        Some(n) => acc.insert(n, cur),
        None => if wanted is None {
            acc.insert(DEFAULT_NAME@, cur)
        } else {
            acc
        },
    }
}

/// The builder's state after one more element.
pub open spec fn apply(
    e: ElementModel,
    name: Option<Seq<char>>,
    cur: SectionModel,
    acc: Map<Seq<char>, SectionModel>,
) -> (Option<Seq<char>>, SectionModel, Map<Seq<char>, SectionModel>) {
    match e {
        ElementModel::Header(n) => (Some(n), empty_section(), commit(name, cur, acc)),
        ElementModel::Row(c) => (name, (cur.0, cur.1.push(c)), acc),
        ElementModel::Entry(k, v) => (name, (cur.0.insert(k, v), cur.1), acc),
        ElementModel::Comment(_) => (name, cur, acc),
    }
}

/// What reading the rest of the input from `p` gives: the sections, or the
/// first error produced. `name` and `cur` are the section being read, `acc`
/// the sections done.
pub open spec fn build(
    s: Seq<char>,
    p: int,
    wanted: Option<Seq<Seq<char>>>,
    seen: bool,
    last: Seq<char>,
    name: Option<Seq<char>>,
    cur: SectionModel,
    acc: Map<Seq<char>, SectionModel>,
) -> Result<Map<Seq<char>, SectionModel>, ErrorModel>
    decreases s.len() - p,
{
    let out = produce(s, p, wanted, seen, false, last);
    match out.0 {
        None => Ok(finish_in(wanted, name, cur, acc)),
        Some(Err(e)) => Err(e),
        Some(Ok(el)) => if p < out.1 <= s.len() {
            let st = apply(el, name, cur, acc);
            build(s, out.1, out.2, out.3, out.4, st.0, st.1, st.2)
        } else {
            Ok(finish_in(wanted, name, cur, acc))
        },
    }
}

/// The name of a header read, if any.
pub open spec fn name_model(name: Option<String>) -> Option<Seq<char>> {
    match name {
        Some(n) => Some(n@),
        None => None,
    }
}

/// A section with no entries and no rows.
pub open spec fn empty_section() -> SectionModel {
    (Map::empty(), Seq::empty())
}

/// The sections once the current one is entered under its header's name
/// (content before any header is not kept when a header follows).
pub open spec fn commit(
    name: Option<Seq<char>>,
    cur: SectionModel,
    acc: Map<Seq<char>, SectionModel>,
) -> Map<Seq<char>, SectionModel> {
    match name {
        Some(n) => acc.insert(n, cur),
        None => acc,
    }
}

/// The sections at the end of the input: the current one is entered under
/// its header's name, or under `root` when no header came.
pub open spec fn finish(
    name: Option<Seq<char>>,
    cur: SectionModel,
    acc: Map<Seq<char>, SectionModel>,
) -> Map<Seq<char>, SectionModel> {
    match name {
        Some(n) => acc.insert(n, cur),
        None => acc.insert(DEFAULT_NAME@, cur),
    }
}

/// The document that reading element after element from `p` builds, without
/// a section filter: `name` and `cur` are the section being read, `acc` the
/// sections done. Entries go into the current section's dictionary (a later
/// one replaces an earlier one), rows are appended, comments are dropped,
/// and a header starts a new section (under a repeated name the last one
/// stands).
pub open spec fn walk_doc(
    s: Seq<char>,
    p: int,
    name: Option<Seq<char>>,
    cur: SectionModel,
    acc: Map<Seq<char>, SectionModel>,
) -> Map<Seq<char>, SectionModel>
    decreases s.len() - p,
{
    let q = skip_lines(s, p);
    if !(0 <= p <= q < s.len()) {
        finish(name, cur, acc)
    } else if s[q] == '[' {
        let e = header_end(s, q);
        if q < e <= s.len() {
            walk_doc(s, e, Some(header_text(s, q)), empty_section(), commit(name, cur, acc))
        } else {
            finish(name, cur, acc)
        }
    } else if s[q] == '|' {
        let e = parse_cells(s, q + 1, Seq::empty()).1;
        if q < e <= s.len() {
            walk_doc(s, e, name, (cur.0, cur.1.push(parse_cells(s, q + 1, Seq::empty()).0)), acc)
        } else {
            finish(name, cur, acc)
        }
    } else if s[q] == '#' {
        let e = line_after(s, q + 1);
        if q < e <= s.len() {
            walk_doc(s, e, name, cur, acc)
        } else {
            finish(name, cur, acc)
        }
    } else if key_end(s, q) == q || entry_stops(s, q) {
        finish(name, cur, acc)
    } else {
        match parse_entry(s, q) {
            Some((k, v, e)) => if q < e <= s.len() {
                walk_doc(s, e, name, (cur.0.insert(k, v), cur.1), acc)
            } else {
                finish(name, cur, acc)
            },
            None => finish(name, cur, acc),
        }
    }
}

/// The index of the first `x` in `w`, or the length of `w`.
pub open spec fn first_index(w: Seq<Seq<char>>, x: Seq<char>) -> int
    decreases w.len(),
{
    if w.len() == 0 {
        0
    } else if w.last() == x && first_index(w.drop_last(), x) == w.len() - 1 {
        w.len() - 1
    } else if first_index(w.drop_last(), x) < w.len() - 1 {
        first_index(w.drop_last(), x)
    } else {
        w.len() as int
    }
}

/// `w` without the entry at `i`, the last entry moved into its place.
pub open spec fn swap_removed(w: Seq<Seq<char>>, i: int) -> Seq<Seq<char>> {
    w.update(i, w.last()).drop_last()
}

fn chars_eq(a: &Vec<char>, b: &Vec<char>) -> (r: bool)
    ensures
        r == (a@ == b@),
{
    if a.len() != b.len() {
        return false;
    }
    let mut i: usize = 0;
    while i < a.len()
        invariant
            a@.len() == b@.len(),
            i <= a@.len(),
            forall|j: int| 0 <= j < i ==> a@[j] == b@[j],
        decreases a.len() - i,
    {
        if a[i] != b[i] {
            return false;
        }
        i = i + 1;
    }
    assert(a@ =~= b@);
    true
}

impl Parser {
    /// Everything but the position, the working set and the last header is as in `o`.
    closed spec fn same_input(&self, o: &Self) -> bool {
        &&& self.input == o.input
        &&& self.section_capacity == o.section_capacity
        &&& self.row_capacity == o.row_capacity
        &&& self.array_capacity == o.array_capacity
    }

    /// Reads a section header; the cursor is on its `[`. The name runs from
    /// the first non-blank character to the next `]` (consumed) or the end.
    fn section_name(&mut self) -> (r: String)
        requires
            old(self).wf(),
            old(self).current() == Some('['),
        ensures
            final(self).wf(),
            final(self).same_input(old(self)),
            final(self).accepted_sections == old(self).accepted_sections,
            final(self).at() > old(self).at(),
            final(self).error_section() == r@,
            final(self).header_seen(),
            final(self).wanted() == old(self).wanted(),
            name_shaped(r@),
            ({
                let s = old(self).text();
                let q = header_name_start(s, old(self).at());
                let f = find_char(s, q, ']');
                &&& r@ == s.subrange(q, f)
                &&& final(self).at() == if f < s.len() {
                    f + 1
                } else {
                    f
                }
            }),
    {
        self.eat('[');
        proof {
            lemma_skip_blanks(self.input@, self.pos as int);
        }
        self.ws();
        proof {
            lemma_find_char(self.input@, self.pos as int, ']');
        }
        let start = self.advance_to(']');
        let name = self.copy_range(start, self.pos);
        if self.pos < self.input.len() {
            self.pos = self.pos + 1;
        }
        let text = string_of(name.as_slice());
        self.last_section = Some(text.clone());
        text
    }

    /// Decides whether a header named `name` is wanted; a wanted name leaves
    /// the working set. `None` once the working set is empty: nothing more is
    /// wanted.
    fn is_section_accepted(&mut self, name: &str) -> (r: Option<bool>)
        requires
            old(self).wf(),
        ensures
            final(self).wf(),
            final(self).same_input(old(self)),
            final(self).pos == old(self).pos,
            final(self).last_section == old(self).last_section,
            match old(self).wanted() {
                None => r == Some(true) && final(self).wanted() == old(self).wanted(),
                Some(w) => if w.len() == 0 {
                    r is None && final(self).wanted() == old(self).wanted()
                } else if w.contains(name@) {
                    r == Some(true) && final(self).wanted() == Some(
                        swap_removed(w, first_index(w, name@)),
                    )
                } else {
                    r == Some(false) && final(self).wanted() == old(self).wanted()
                },
            },
            final(self).wanted() is None <==> old(self).wanted() is None,
            final(self).wanted() matches Some(w2) ==> forall|x: Seq<char>|
                w2.contains(x) ==> old(self).wanted()->Some_0.contains(x),
    {
        let wanted = chars_of(name);
        let idx = match &self.accepted_sections {
            None => {
                return Some(true);
            },
            Some(sections) => {
                if sections.len() == 0 {
                    return None;
                }
                let mut i: usize = 0;
                let mut found: Option<usize> = None;
                while i < sections.len()
                    invariant
                        i <= sections@.len(),
                        found is None ==> forall|j: int|
                            0 <= j < i ==> #[trigger] sections@[j]@ != wanted@,
                        found matches Some(k) ==> k < sections@.len() && sections@[k as int]@
                            == wanted@ && forall|j: int|
                            0 <= j < k ==> #[trigger] sections@[j]@ != wanted@,
                    decreases sections.len() - i,
                {
                    if found.is_none() && chars_eq(&sections[i], &wanted) {
                        found = Some(i);
                    }
                    i = i + 1;
                }
                found
            },
        };
        let ghost w = self.wanted()->Some_0;
        proof {
            let v = self.accepted_sections->Some_0;
            assert(w.len() == v@.len());
            assert(forall|j: int| 0 <= j < v@.len() ==> #[trigger] w[j] == v@[j]@);
        }
        match idx {
            Some(i) => {
                let mut sections = self.accepted_sections.take().unwrap();
                sections.swap_remove(i);
                self.accepted_sections = Some(sections);
                proof {
                    assert(w[i as int] == name@);
                    assert(w.contains(name@));
                    lemma_first_index(w, name@, i as int);
                    let v2 = self.accepted_sections->Some_0;
                    assert(self.wanted()->Some_0 =~= swap_removed(w, i as int));
                    assert forall|x: Seq<char>|
                        self.wanted()->Some_0.contains(x) implies w.contains(x) by {
                        let j = choose|j: int|
                            0 <= j < self.wanted()->Some_0.len() && self.wanted()->Some_0[j] == x;
                        if j == i {
                            assert(w[w.len() - 1] == x);
                        } else {
                            assert(w[j] == x);
                        }
                    }
                }
                Some(true)
            },
            None => {
                proof {
                    assert forall|j: int| 0 <= j < w.len() implies w[j] != name@ by {
                        assert(w[j] == self.accepted_sections->Some_0@[j]@);
                    }
                }
                Some(false)
            },
        }
    }
}

proof fn lemma_first_index(w: Seq<Seq<char>>, x: Seq<char>, i: int)
    requires
        0 <= i < w.len(),
        w[i] == x,
        forall|j: int| 0 <= j < i ==> w[j] != x,
    ensures
        first_index(w, x) == i,
    decreases w.len(),
{
    if i < w.len() - 1 {
        lemma_first_index(w.drop_last(), x, i);
    } else {
        lemma_first_index_absent(w.drop_last(), x);
    }
}

proof fn lemma_first_index_absent(w: Seq<Seq<char>>, x: Seq<char>)
    requires
        forall|j: int| 0 <= j < w.len() ==> w[j] != x,
    ensures
        first_index(w, x) == w.len(),
    decreases w.len(),
{
    if w.len() > 0 {
        lemma_first_index_absent(w.drop_last(), x);
    }
}

impl Parser {
    /// Produces the next element, an error, or `None` at the end: at the end
    /// of the input, when nothing more is wanted, or when no element starts at
    /// the cursor. Headers that the filter does not want, and all up to the
    /// next header, are skipped line by line.
    #[verifier::rlimit(100)]
    #[verifier::spinoff_prover]
    pub fn next(&mut self) -> (r: Option<Result<Element, ParserError>>)
        requires
            old(self).wf(),
        ensures
            final(self).wf(),
            final(self).text() == old(self).text(),
            final(self).at() >= old(self).at(),
            r is Some ==> final(self).at() > old(self).at(),
            final(self).wanted() is None <==> old(self).wanted() is None,
            final(self).wanted() matches Some(w2) ==> forall|x: Seq<char>|
                w2.contains(x) ==> old(self).wanted()->Some_0.contains(x),
            r matches Some(Ok(Element::Section(n))) ==> old(self).text().contains('[') && (old(
                self,
            ).wanted() matches Some(w) ==> w.contains(n@)),
            r matches Some(Ok(Element::Section(n))) ==> name_shaped(n@),
            r matches Some(Ok(Element::Entry(k, v))) ==> readable(v) && key_shaped(k@),
            r matches Some(Ok(Element::Row(cells))) ==> row_shaped(cells@),
            r matches Some(Ok(Element::Entry(k, v))) ==> v.wf() && exists|q: int|
                old(self).at() <= q && #[trigger] parse_entry(old(self).text(), q) == Some(
                    (k@, model_of(v), final(self).at()),
                ),
            r matches Some(Ok(Element::Row(cells))) ==> exists|q: int|
                old(self).at() <= q < old(self).text().len() && old(self).text()[q] == '|'
                    && #[trigger] parse_cells(old(self).text(), q + 1, Seq::empty()) == (
                    models(cells@, cells@.len() as int),
                    final(self).at(),
                ),
            r matches Some(Ok(Element::Comment(t))) ==> exists|q: int|
                old(self).at() <= q < old(self).text().len() && old(self).text()[q] == '#'
                    && final(self).at() == #[trigger] line_after(old(self).text(), q + 1) && t@
                    == old(self).text().subrange(q + 1, final(self).at()),
            r matches Some(Ok(Element::Section(n))) ==> final(self).error_section() == n@
                && exists|q: int|
                old(self).at() <= q < old(self).text().len() && old(self).text()[q] == '['
                    && n@ == old(self).text().subrange(
                    #[trigger] header_name_start(old(self).text(), q),
                    find_char(old(self).text(), header_name_start(old(self).text(), q), ']'),
                ),
            r matches Some(Err(e)) ==> e.section@ == final(self).error_section(),
            old(self).wanted() == Some(Seq::<Seq<char>>::empty()) && !old(self).header_seen() ==> r
                is None && *final(self) == *old(self),
            r matches Some(Ok(Element::Section(n))) ==> (old(self).wanted() is None ==> ({
                let t = old(self).text();
                let q = skip_lines(t, old(self).at());
                q < t.len() && t[q] == '[' && n@ == header_text(t, q) && final(self).at()
                    == header_end(t, q)
            })),
            r matches Some(Ok(Element::Row(cells))) ==> (old(self).wanted() is None ==> ({
                let t = old(self).text();
                let q = skip_lines(t, old(self).at());
                q < t.len() && t[q] == '|' && parse_cells(t, q + 1, Seq::empty()) == (
                    models(cells@, cells@.len() as int),
                    final(self).at(),
                )
            })),
            r matches Some(Ok(Element::Comment(_))) ==> (old(self).wanted() is None ==> ({
                let t = old(self).text();
                let q = skip_lines(t, old(self).at());
                q < t.len() && t[q] == '#' && final(self).at() == line_after(t, q + 1)
            })),
            r matches Some(Ok(Element::Entry(k, v))) ==> (old(self).wanted() is None ==> ({
                let t = old(self).text();
                let q = skip_lines(t, old(self).at());
                &&& q < t.len() && t[q] != '[' && t[q] != '|' && t[q] != '#'
                &&& key_end(t, q) != q && !entry_stops(t, q)
                &&& parse_entry(t, q) == Some((k@, model_of(v), final(self).at()))
            })),
            r matches Some(Ok(_)) ==> (old(self).wanted() is None ==> final(self).at() > skip_lines(
                old(self).text(),
                old(self).at(),
            )),
            r is None ==> (old(self).wanted() is None ==> ({
                let t = old(self).text();
                let q = skip_lines(t, old(self).at());
                !(0 <= old(self).at() <= q < t.len()) || (t[q] != '[' && t[q] != '|' && t[q]
                    != '#' && (key_end(t, q) == q || entry_stops(t, q)))
            })),
            old(self).wanted() is None ==> {
                &&& r is None ==> !walk_fails(old(self).text(), old(self).at())
                &&& (r matches Some(Err(_))) ==> walk_fails(old(self).text(), old(self).at())
                &&& (r matches Some(Ok(_))) ==> walk_fails(old(self).text(), old(self).at())
                    == walk_fails(old(self).text(), final(self).at())
            },
            ({
                let out = produce(
                    old(self).text(),
                    old(self).at(),
                    old(self).wanted(),
                    old(self).header_seen(),
                    false,
                    old(self).error_section(),
                );
                &&& (r is None <==> out.0 is None)
                &&& (r matches Some(Err(e)) ==> out.0 == Some(
                    Err::<ElementModel, ErrorModel>((e.section@, e.desc@)),
                ))
                &&& (r matches Some(Ok(el)) ==> out.0 == Some(
                    Ok::<ElementModel, ErrorModel>(element_model(el)),
                ) && final(self).at() == out.1 && final(self).wanted() == out.2
                    && final(self).header_seen() == out.3 && final(self).error_section() == out.4)
            }),
    {
        let ghost s = self.input@;
        if let Some(sections) = &self.accepted_sections {
            if sections.len() == 0 && self.last_section.is_none() {
                assert(self.wanted()->Some_0 =~= Seq::<Seq<char>>::empty());
                return None;
            }
        }
        assert(!(old(self).wanted() == Some(Seq::<Seq<char>>::empty()) && !old(self).header_seen()))
            by {
            if old(self).wanted() == Some(Seq::<Seq<char>>::empty()) {
                let v = self.accepted_sections->Some_0;
                assert(self.wanted()->Some_0 == v@.map_values(|n: Vec<char>| n@));
                assert(v@.map_values(|n: Vec<char>| n@).len() == v@.len());
                assert(v.len() == 0);
            }
        }
        let mut accepted = true;
        loop
            invariant
                self.wf(),
                self.input@ == s,
                s == old(self).input@,
                self.same_input(old(self)),
                self.pos >= old(self).pos,
                self.wanted() is None <==> old(self).wanted() is None,
                self.wanted() matches Some(w2) ==> forall|x: Seq<char>|
                    w2.contains(x) ==> old(self).wanted()->Some_0.contains(x),
                old(self).wanted() is None ==> accepted && self.accepted_sections is None
                    && skip_lines(s, self.pos as int) == skip_lines(s, old(self).pos as int),
                !(old(self).wanted() == Some(Seq::<Seq<char>>::empty()) && !old(self).header_seen()),
                produce(
                    s,
                    old(self).pos as int,
                    old(self).wanted(),
                    old(self).header_seen(),
                    false,
                    old(self).error_section(),
                ) == produce(
                    s,
                    self.pos as int,
                    self.wanted(),
                    self.header_seen(),
                    !accepted,
                    self.error_section(),
                ),
                !(self.wanted() == Some(Seq::<Seq<char>>::empty()) && !self.header_seen()),
                !accepted ==> self.header_seen(),
            decreases self.input.len() - self.pos,
        {
            let ghost p0 = self.pos as int;
            let ghost skip0 = !accepted;
            proof {
                lemma_skip_lines_blanks(s, self.pos as int);
                lemma_skip_blanks(s, self.pos as int);
            }
            self.ws();
            let before = self.pos;
            if self.newline() {
                proof {
                    if before + 1 < s.len() && s[before as int] == '\r' && s[before + 1] == '\n' {
                        assert(skip_lines(s, before + 1) == skip_lines(s, before + 2));
                    }
                    lemma_skip_lines_at_least(s, self.pos as int);
                    lemma_skip_lines_at_least(s, p0);
                    assert(skip_lines(s, p0) == skip_lines(s, self.pos as int));
                    assert(produce(s, p0, self.wanted(), self.header_seen(), skip0, self.error_section())
                        == produce(
                        s,
                        self.pos as int,
                        self.wanted(),
                        self.header_seen(),
                        skip0,
                        self.error_section(),
                    ));
                }
                continue;
            }
            let c = match self.peek() {
                Some(c) => c,
                None => return None,
            };
            let ghost at = self.pos as int;
            let ghost w0 = self.wanted();
            let ghost seen0 = self.header_seen();
            let ghost last0 = self.error_section();
            proof {
                assert(skip_lines(s, at) == at);
                assert(skip_lines(s, p0) == at);
            }
            if c == '[' {
                assert(s[at] == '[');
                let name = self.section_name();
                match self.is_section_accepted(name.as_str()) {
                    Some(true) => {
                        assert(old(self).text() == s);
                        assert(at >= old(self).pos);
                        assert(name@ == old(self).text().subrange(
                            header_name_start(old(self).text(), at),
                            find_char(old(self).text(), header_name_start(old(self).text(), at), ']'),
                        ));
                        return Some(Ok(Element::Section(name)));
                    },
                    Some(false) => accepted = false,
                    None => return None,
                }
            }
            if !accepted {
                let ghost w1 = self.wanted();
                let ghost last1 = self.error_section();
                let ghost from = self.pos as int;
                self.skip_line();
                proof {
                    if c == '[' {
                        assert(produce(s, p0, w0, seen0, skip0, last0) == produce(
                            s,
                            line_after(s, from),
                            w1,
                            true,
                            true,
                            last1,
                        ));
                    } else {
                        assert(produce(s, p0, w0, seen0, skip0, last0) == produce(
                            s,
                            line_after(s, at),
                            w0,
                            seen0,
                            true,
                            last0,
                        ));
                    }
                }
                continue;
            }
            proof {
                if old(self).wanted() is None {
                    assert(skip_lines(s, at) == at);
                    assert(old(self).text() == s);
                }
            }
            return match c {
                '|' => {
                    let row = self.row();
                    proof {
                        let cells = row->Row_0;
                        assert(old(self).text() == s);
                        assert(at >= old(self).pos);
                        assert(parse_cells(old(self).text(), at + 1, Seq::empty()) == (
                            models(cells@, cells@.len() as int),
                            self.pos as int,
                        ));
                        assert(old(self).wanted() is None ==> walk_fails(s, old(self).pos as int)
                            == walk_fails(s, self.pos as int));
                    }
                    Some(Ok(row))
                },
                '#' => match self.comment() {
                    Some(e) => {
                        assert(old(self).text() == s);
                        assert(at >= old(self).pos);
                        assert(line_after(old(self).text(), at + 1) == self.pos);
                        assert(old(self).wanted() is None ==> walk_fails(s, old(self).pos as int)
                            == walk_fails(s, self.pos as int));
                        Some(Ok(e))
                    },
                    None => None,
                },
                _ => match self.entry() {
                    Ok(Some(e)) => {
                        proof {
                            let k = e->Entry_0;
                            let v = e->Entry_1;
                            assert(old(self).text() == s);
                            assert(at >= old(self).pos);
                            assert(parse_entry(old(self).text(), at) == Some(
                                (k@, model_of(v), self.pos as int),
                            ));
                            assert(old(self).wanted() is None ==> walk_fails(
                                s,
                                old(self).pos as int,
                            ) == walk_fails(s, self.pos as int));
                        }
                        Some(Ok(e))
                    },
                    Ok(None) => {
                        assert(old(self).wanted() is None ==> !walk_fails(s, old(self).pos as int));
                        None
                    },
                    Err(e) => {
                        assert(old(self).wanted() is None ==> walk_fails(s, old(self).pos as int));
                        Some(Err(e))
                    },
                },
            };
        }
    }

    /// Reads the whole input into named sections. Content before the first
    /// header forms the section `root`, but only when no filter is configured.
    /// Under a repeated header the last one's content stands (without a filter).
    pub fn read(&mut self) -> (r: Result<NameMap<Section>, ParserError>)
        requires
            old(self).wf(),
        ensures
            r matches Ok(m) ==> m.wf() && forall|k: Seq<char>| #[trigger]
                m@.contains_key(k) ==> m@[k].wf(),
            r matches Ok(m) ==> (old(self).wanted() matches Some(w) ==> forall|k: Seq<char>| #[trigger]
                m@.contains_key(k) ==> w.contains(k)),
            r matches Ok(m) ==> (!old(self).text().contains('[') ==> m@.dom() == if old(
                self,
            ).wanted() is None {
                set![DEFAULT_NAME@]
            } else {
                Set::<Seq<char>>::empty()
            }),
            old(self).wanted() == Some(Seq::<Seq<char>>::empty()) && !old(self).header_seen() ==> (r matches Ok(m) && m@ == Map::<Seq<char>, Section>::empty()),
            r matches Err(e) ==> e.section@ == final(self).error_section(),
            old(self).wanted() is None ==> (r is Ok <==> !walk_fails(old(self).text(), old(self).at())),
            r matches Ok(m) ==> forall|k: Seq<char>| #[trigger]
                m@.contains_key(k) ==> name_shaped(k) && readable(
                    Value::Dictionary(m@[k].dictionary),
                ),
            r matches Ok(m) ==> forall|k: Seq<char>, j: int| #[trigger]
                m@.contains_key(k) && 0 <= j < m@[k].rows@.len() ==> row_shaped(
                    #[trigger] m@[k].rows@[j]@,
                ),
            r matches Ok(m) ==> (old(self).wanted() is None ==> m@.dom() != Set::<
                Seq<char>,
            >::empty()),
            r matches Ok(m) ==> (old(self).wanted() is None ==> doc_model(m) == walk_doc(
                old(self).text(),
                old(self).at(),
                None,
                empty_section(),
                Map::empty(),
            )),
            ({
                let b = build(
                    old(self).text(),
                    old(self).at(),
                    old(self).wanted(),
                    old(self).header_seen(),
                    old(self).error_section(),
                    None,
                    empty_section(),
                    Map::empty(),
                );
                match r {
                    Ok(m) => b == Ok::<Map<Seq<char>, SectionModel>, ErrorModel>(doc_model(m)),
                    Err(e) => b == Err::<Map<Seq<char>, SectionModel>, ErrorModel>(
                        (e.section@, e.desc@),
                    ),
                }
            }),
    {
        let ghost cond = old(self).wanted() == Some(Seq::<Seq<char>>::empty()) && !old(
            self,
        ).header_seen();
        let ghost orig = old(self).wanted();
        let mut map: NameMap<Section> = NameMap::new();
        let mut cur = Section::with_capacity(self.section_capacity);
        let mut last_name: Option<String> = None;
        let ghost mut started = false;
        let ghost built = build(
            old(self).text(),
            old(self).at(),
            old(self).wanted(),
            old(self).header_seen(),
            old(self).error_section(),
            None,
            empty_section(),
            Map::empty(),
        );
        let ghost whole = walk_doc(
            old(self).text(),
            old(self).at(),
            None,
            empty_section(),
            Map::empty(),
        );
        proof {
            assert(section_model(cur) =~= empty_section()) by {
                assert(cur.dictionary.pairs().len() == 0);
            }
            assert(doc_model(map) =~= Map::<Seq<char>, SectionModel>::empty());
        }
        loop
            invariant_except_break
                !started ==> self.at() == old(self).at() && self.wanted() == orig
                    && self.header_seen() == old(self).header_seen(),
                old(self).wanted() is None ==> walk_fails(self.text(), self.at()) == walk_fails(
                    old(self).text(),
                    old(self).at(),
                ),
                built == build(
                    self.text(),
                    self.at(),
                    self.wanted(),
                    self.header_seen(),
                    self.error_section(),
                    name_model(last_name),
                    section_model(cur),
                    doc_model(map),
                ),
                old(self).wanted() is None ==> whole == walk_doc(
                    self.text(),
                    self.at(),
                    name_model(last_name),
                    section_model(cur),
                    doc_model(map),
                ),
            invariant
                self.wf(),
                self.text() == old(self).text(),
                self.wanted() is None <==> orig is None,
                self.wanted() matches Some(w2) ==> forall|x: Seq<char>|
                    w2.contains(x) ==> orig->Some_0.contains(x),
                map.wf(),
                cur.wf(),
                forall|k: Seq<char>| #[trigger] map@.contains_key(k) ==> map@[k].wf(),
                forall|k: Seq<char>| #[trigger]
                    map@.contains_key(k) ==> name_shaped(k) && readable(
                        Value::Dictionary(map@[k].dictionary),
                    ),
                forall|k: Seq<char>| #[trigger]
                    cur.dictionary@.contains_key(k) ==> key_shaped(k) && readable(
                        cur.dictionary@[k],
                    ),
                last_name matches Some(n) ==> name_shaped(n@),
                forall|j: int| 0 <= j < cur.rows@.len() ==> row_shaped(#[trigger] cur.rows@[j]@),
                forall|k: Seq<char>, j: int| #[trigger]
                    map@.contains_key(k) && 0 <= j < map@[k].rows@.len() ==> row_shaped(
                        #[trigger] map@[k].rows@[j]@,
                    ),
                orig matches Some(w) ==> forall|k: Seq<char>| #[trigger]
                    map@.contains_key(k) ==> w.contains(k),
                last_name matches Some(n) ==> (orig matches Some(w) ==> w.contains(n@)),
                last_name is None ==> map@ == Map::<Seq<char>, Section>::empty(),
                !old(self).text().contains('[') ==> last_name is None,
                !started ==> last_name is None,
                started ==> !cond,
                orig == old(self).wanted(),
                built == build(
                    old(self).text(),
                    old(self).at(),
                    old(self).wanted(),
                    old(self).header_seen(),
                    old(self).error_section(),
                    None,
                    empty_section(),
                    Map::empty(),
                ),
                whole == walk_doc(
                    old(self).text(),
                    old(self).at(),
                    None,
                    empty_section(),
                    Map::empty(),
                ),
                cond == (orig == Some(Seq::<Seq<char>>::empty()) && !old(self).header_seen()),
            ensures
                built == Ok::<Map<Seq<char>, SectionModel>, ErrorModel>(
                    finish_in(orig, name_model(last_name), section_model(cur), doc_model(map)),
                ),
                old(self).wanted() is None ==> !walk_fails(old(self).text(), old(self).at()),
                old(self).wanted() is None ==> whole == finish(
                    name_model(last_name),
                    section_model(cur),
                    doc_model(map),
                ),
            decreases self.text().len() - self.at(),
        {
            let ghost p_before = self.at();
            let ghost w_b = self.wanted();
            let ghost seen_b = self.header_seen();
            let ghost last_b = self.error_section();
            let ghost name_before = name_model(last_name);
            let ghost cur_before = section_model(cur);
            let ghost map_before = doc_model(map);
            proof {
                lemma_skip_lines_at_least(self.text(), p_before);
            }
            match self.next() {
                None => break,
                Some(Err(e)) => return Err(e),
                Some(Ok(element)) => {
                    proof {
                        started = true;
                    }
                    match element {
                        Element::Section(name) => {
                            let ghost before = doc_model(map);
                            let ghost done = commit(
                                name_model(last_name),
                                section_model(cur),
                                doc_model(map),
                            );
                            match last_name {
                                Some(n) => {
                                    let ghost nn = n@;
                                    let ghost old_map = map;
                                    let ghost sec = section_model(cur);
                                    proof {
                                        lemma_readable_dict(cur.dictionary);
                                    }
                                    map.insert(n, cur);
                                    proof {
                                        lemma_doc_model(old_map);
                                        lemma_doc_model(map);
                                        assert(doc_model(map) =~= before.insert(nn, sec));
                                    }
                                },
                                None => {},
                            }
                            last_name = Some(name);
                            cur = Section::with_capacity(self.section_capacity);
                            proof {
                                assert(doc_model(map) == done);
                                assert(section_model(cur) =~= empty_section()) by {
                                    assert(cur.dictionary.pairs().len() == 0);
                                }
                            }
                        },
                        Element::Row(row) => {
                            let ghost old_rows = cur.rows@;
                            let ghost rm = models(row@, row@.len() as int);
                            cur.rows.push(row);
                            proof {
                                lemma_rows_model_prefix(cur.rows@, old_rows, old_rows.len() as int);
                                assert(rows_model(cur.rows@, cur.rows@.len() as int) == rows_model(
                                    old_rows,
                                    old_rows.len() as int,
                                ).push(rm));
                            }
                        },
                        Element::Entry(key, value) => {
                            let ghost old_dict = cur.dictionary;
                            let ghost kk = key@;
                            let ghost vv = value;
                            cur.dictionary.insert(key, value);
                            proof {
                                lemma_dict_model(old_dict);
                                lemma_dict_model(cur.dictionary);
                                assert(dict_model(cur.dictionary) =~= dict_model(old_dict).insert(
                                    kk,
                                    model_of(vv),
                                ));
                            }
                        },
                        Element::Comment(_) => {},
                    }
                    proof {
                        assert(built == build(
                            self.text(),
                            self.at(),
                            self.wanted(),
                            self.header_seen(),
                            self.error_section(),
                            name_model(last_name),
                            section_model(cur),
                            doc_model(map),
                        ));
                        if orig is None {
                            assert(whole == walk_doc(
                                self.text(),
                                p_before,
                                name_before,
                                cur_before,
                                map_before,
                            ));
                            assert(walk_doc(
                                self.text(),
                                p_before,
                                name_before,
                                cur_before,
                                map_before,
                            ) == walk_doc(
                                self.text(),
                                self.at(),
                                name_model(last_name),
                                section_model(cur),
                                doc_model(map),
                            ));
                        }
                    }
                },
            }
        }
        let ghost before = doc_model(map);
        let ghost old_map = map;
        let ghost sec = section_model(cur);
        let ghost lname = name_model(last_name);
        proof {
            lemma_readable_dict(cur.dictionary);
            reveal_strlit("root");
        }
        match last_name {
            Some(name) => {
                let ghost nn = name@;
                map.insert(name, cur);
                proof {
                    lemma_doc_model(old_map);
                    lemma_doc_model(map);
                    assert(doc_model(map) =~= before.insert(nn, sec));
                }
            },
            None => {
                if self.accepted_sections.is_none() {
                    map.insert(DEFAULT_NAME.to_owned(), cur);
                    assert(map@.dom() =~= set![DEFAULT_NAME@]);
                    proof {
                        lemma_doc_model(old_map);
                        lemma_doc_model(map);
                        assert(doc_model(map) =~= before.insert(DEFAULT_NAME@, sec));
                    }
                }
            },
        }
        proof {
            assert(doc_model(map) == finish_in(orig, lname, sec, before));
            if orig is None {
                assert(doc_model(map) == finish(lname, sec, before));
                match lname {
                    Some(n) => {
                        assert(map@.dom().contains(n));
                        assert(!Set::<Seq<char>>::empty().contains(n));
                    },
                    None => {
                        assert(map@.dom().contains(DEFAULT_NAME@));
                        assert(!Set::<Seq<char>>::empty().contains(DEFAULT_NAME@));
                    },
                }
            }
        }
        proof {
            if !old(self).text().contains('[') && orig is Some {
                assert(map@.dom() =~= Set::<Seq<char>>::empty());
            }
        }
        Ok(map)
    }
}

} // verus!
