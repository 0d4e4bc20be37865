use crate::error::IonError;
use crate::name_map::{lemma_map_of, unique_names, NameMap};
use crate::text::{is_blank, is_space};
use crate::value::{dict_model, models, Dictionary, Model, Row, Value};
use vstd::prelude::*;

verus! {

/// Whether a cell is a non-empty run of `-`: the separator under a table header.
pub open spec fn is_separator_cell(v: Value) -> bool {
    v matches Value::String(s) && s@.len() > 0 && forall|i: int|
        0 <= i < s@.len() ==> #[trigger] s@[i] == '-'
}

/// Whether the rows open with a header row and a separator row: the second
/// row's first cell is a non-empty run of `-`.
pub open spec fn has_header(rows: Seq<Row>) -> bool {
    rows.len() > 1 && rows[1]@.len() > 0 && is_separator_cell(rows[1]@[0])
}

/// The content rows: all rows, or all but the first two under [`has_header`].
pub open spec fn content_rows(rows: Seq<Row>) -> Seq<Row> {
    if has_header(rows) {
        rows.subrange(2, rows.len() as int)
    } else {
        rows
    }
}

/// One named block of a document: a dictionary and a table of rows.
#[derive(Debug, PartialEq)]
pub struct Section {
    pub dictionary: Dictionary,
    pub rows: Vec<Row>,
}

/// The name a document gives to content that comes before any header.
pub const DEFAULT_NAME: &'static str = "root";

fn is_dash_run(s: &str) -> (r: bool)
    ensures
        r == (s@.len() > 0 && forall|i: int| 0 <= i < s@.len() ==> #[trigger] s@[i] == '-'),
{
    let chars = crate::text::chars_of(s);
    if chars.len() == 0 {
        return false;
    }
    let mut i: usize = 0;
    while i < chars.len()
        invariant
            chars@ == s@,
            i <= chars@.len(),
            forall|j: int| 0 <= j < i ==> #[trigger] s@[j] == '-',
        decreases chars.len() - i,
    {
        if chars[i] != '-' {
            return false;
        }
        i = i + 1;
    }
    true
}

/// Whether `rows` open with a header row and a separator row.
fn header_present(rows: &Vec<Row>) -> (r: bool)
    ensures
        r == has_header(rows@),
{
    if rows.len() > 1 && rows[1].len() > 0 {
        match &rows[1][0] {
            Value::String(s) => is_dash_run(s.as_str()),
            _ => false,
        }
    } else {
        false
    }
}

impl Section {
    pub open spec fn wf(&self) -> bool {
        self.dictionary.wf()
    }

    pub fn new() -> (r: Section)
        ensures
            r.wf(),
            r.dictionary@ == Map::<Seq<char>, Value>::empty(),
            r.dictionary.pairs().len() == 0,
            r.rows@.len() == 0,
    {
        Self::with_capacity(1)
    }

    /// An empty section with room for `n` rows.
    pub fn with_capacity(n: usize) -> (r: Section)
        ensures
            r.wf(),
            r.dictionary@ == Map::<Seq<char>, Value>::empty(),
            r.dictionary.pairs().len() == 0,
            r.rows@.len() == 0,
    {
        Section { dictionary: Dictionary::new(), rows: Vec::with_capacity(n) }
    }

    pub fn get(&self, name: &str) -> (r: Option<&Value>)
        requires
            self.wf(),
        ensures
            match r {
                Some(v) => self.dictionary@.contains_key(name@) && *v == self.dictionary@[name@],
                None => !self.dictionary@.contains_key(name@),
            },
    {
        self.dictionary.get(name)
    }

    /// The value under `name`, to change in place.
    pub fn get_mut(&mut self, name: &str) -> (r: Option<&mut Value>)
        requires
            old(self).wf(),
        ensures
            match r {
                Some(v) => old(self).dictionary@.contains_key(name@) && *v == old(
                    self,
                ).dictionary@[name@],
                None => !old(self).dictionary@.contains_key(name@) && *final(self) == *old(self),
            },
    {
        self.dictionary.get_mut(name)
    }

    /// The value under `key`, or `MissingValue(key)`.
    pub fn fetch(&self, key: &str) -> (r: Result<&Value, IonError>)
        requires
            self.wf(),
        ensures
            match r {
                Ok(v) => self.dictionary@.contains_key(key@) && *v == self.dictionary@[key@],
                Err(e) => !self.dictionary@.contains_key(key@) && (e matches IonError::MissingValue(
                    k,
                ) && k@ == key@),
            },
    {
        match self.get(key) {
            Some(v) => Ok(v),
            None => Err(IonError::MissingValue(key.to_owned())),
        }
    }

    /// The rows, without a leading header row and separator row when there are
    /// such.
    pub fn rows_without_header(&self) -> (r: &[Row])
        ensures
            r@ == content_rows(self.rows@),
    {
        if header_present(&self.rows) {
            vstd::slice::slice_subrange(self.rows.as_slice(), 2, self.rows.len())
        } else {
            self.rows.as_slice()
        }
    }

    /// Hands out the content rows (see [`Section::rows_without_header`]) one by one.
    pub fn into_iter(self) -> (r: IntoIter<Row>)
        ensures
            r.remaining() == content_rows(self.rows@),
    {
        let has = header_present(&self.rows);
        let mut rows = self.rows;
        let ghost all = rows@;
        let mut rest: Vec<Row> = Vec::new();
        let stop: usize = if has {
            2
        } else {
            0
        };
        while rows.len() > stop
            invariant
                stop <= rows@.len() <= all.len(),
                has ==> all.len() >= 2,
                stop == if has {
                    2usize
                } else {
                    0usize
                },
                rows@ == all.subrange(0, rows@.len() as int),
                rest@.len() == all.len() - rows@.len(),
                forall|i: int|
                    0 <= i < rest@.len() ==> #[trigger] rest@[i] == all[all.len() - 1 - i],
            decreases rows.len(),
        {
            let row = rows.pop().unwrap();
            rest.push(row);
        }
        let r = IntoIter { rest };
        assert(r.remaining() =~= content_rows(all));
        r
    }
}

/// The rows of a section, handed out in order.
pub struct IntoIter<T> {
    rest: Vec<T>,
}

impl<T> IntoIter<T> {
    /// What is still to come, in order.
    pub closed spec fn remaining(&self) -> Seq<T> {
        self.rest@.reverse()
    }

    pub fn next(&mut self) -> (r: Option<T>)
        ensures
            old(self).remaining().len() == 0 ==> r is None && final(self).remaining() == old(
                self,
            ).remaining(),
            old(self).remaining().len() > 0 ==> r == Some(old(self).remaining()[0])
                && final(self).remaining() == old(self).remaining().drop_first(),
    {
        let r = self.rest.pop();
        proof {
            if old(self).rest@.len() > 0 {
                assert(self.rest@.reverse() =~= old(self).rest@.reverse().drop_first());
            }
        }
        r
    }

    /// Lower and upper bound of how many items are still to come (both exact).
    pub fn size_hint(&self) -> (r: (usize, Option<usize>))
        ensures
            r.0 == self.remaining().len(),
            r.1 == Some(self.remaining().len() as usize),
    {
        (self.rest.len(), Some(self.rest.len()))
    }
}

/// What a section stands for: the model of its dictionary and the models of
/// its rows.
pub type SectionModel = (Map<Seq<char>, Model>, Seq<Seq<Model>>);

/// The models of the first `n` rows.
pub open spec fn rows_model(rows: Seq<Row>, n: int) -> Seq<Seq<Model>>
    decreases n,
{
    if n <= 0 || n > rows.len() {
        Seq::empty()
    } else {
        rows_model(rows, n - 1).push(models(rows[n - 1]@, rows[n - 1]@.len() as int))
    }
}

pub open spec fn section_model(section: Section) -> SectionModel {
    (dict_model(section.dictionary), rows_model(section.rows@, section.rows@.len() as int))
}

/// The first `n` named sections, modelled and entered in order.
pub open spec fn sections_model(s: Seq<(String, Section)>, n: int) -> Map<Seq<char>, SectionModel>
    decreases n,
{
    if n <= 0 || n > s.len() {
        Map::empty()
    } else {
        sections_model(s, n - 1).insert(s[n - 1].0@, section_model(s[n - 1].1))
    }
}

/// What a document's sections stand for, by name.
pub open spec fn doc_model(m: NameMap<Section>) -> Map<Seq<char>, SectionModel> {
    sections_model(m.pairs(), m.pairs().len() as int)
}

/// The models of the first `n` rows depend on those rows alone.
pub proof fn lemma_rows_model_prefix(s: Seq<Row>, t: Seq<Row>, n: int)
    requires
        0 <= n <= s.len(),
        n <= t.len(),
        forall|i: int| 0 <= i < n ==> s[i] == t[i],
    ensures
        rows_model(s, n) == rows_model(t, n),
    decreases n,
{
    if n > 0 {
        lemma_rows_model_prefix(s, t, n - 1);
    }
}

proof fn lemma_sections_model(s: Seq<(String, Section)>, n: int)
    requires
        0 <= n <= s.len(),
        unique_names(s),
    ensures
        forall|k: Seq<char>|
            #[trigger] sections_model(s, n).contains_key(k) <==> exists|i: int|
                0 <= i < n && #[trigger] s[i].0@ == k,
        forall|i: int|
            0 <= i < n ==> #[trigger] sections_model(s, n)[s[i].0@] == section_model(s[i].1),
    decreases n,
{
    if n > 0 {
        lemma_sections_model(s, n - 1);
        assert(sections_model(s, n) == sections_model(s, n - 1).insert(
            s[n - 1].0@,
            section_model(s[n - 1].1),
        ));
        assert forall|k: Seq<char>|
            #[trigger] sections_model(s, n).contains_key(k) <==> exists|i: int|
                0 <= i < n && #[trigger] s[i].0@ == k by {
            if sections_model(s, n).contains_key(k) && k != s[n - 1].0@ {
                assert(sections_model(s, n - 1).contains_key(k));
            }
        }
        assert forall|i: int| 0 <= i < n implies #[trigger] sections_model(s, n)[s[i].0@]
            == section_model(s[i].1) by {
            if i < n - 1 {
                assert(s[i].0@ != s[n - 1].0@);
            }
        }
    }
}

/// A document's model holds each section name, with the model of its section.
pub proof fn lemma_doc_model(m: NameMap<Section>)
    requires
        m.wf(),
    ensures
        forall|k: Seq<char>| #[trigger] doc_model(m).contains_key(k) <==> m@.contains_key(k),
        forall|k: Seq<char>|
            m@.contains_key(k) ==> #[trigger] doc_model(m)[k] == section_model(m@[k]),
{
    m.lemma_view();
    lemma_map_of(m.pairs());
    lemma_sections_model(m.pairs(), m.pairs().len() as int);
    assert forall|k: Seq<char>| m@.contains_key(k) implies #[trigger] doc_model(m)[k]
        == section_model(m@[k]) by {
        let i = choose|i: int| 0 <= i < m.pairs().len() && #[trigger] m.pairs()[i].0@ == k;
        assert(m@[m.pairs()[i].0@] == m.pairs()[i].1);
    }
}

/// A header name that reads back as itself: no `]`, and not opening with a
/// blank.
pub open spec fn name_shaped(n: Seq<char>) -> bool {
    &&& forall|i: int| 0 <= i < n.len() as int ==> #[trigger] n[i] != ']'
    &&& n.len() as int == 0 || !is_blank(n[0])
}

/// A cell's text that reads back as itself: it opens with neither a space,
/// `#` nor a carriage return, and ends with no whitespace that writing
/// leaves unescaped.
pub open spec fn cell_shaped(x: Seq<char>) -> bool {
    x.len() == 0 || (x[0] != ' ' && x[0] != '#' && x[0] != '\r' && (!is_space(x.last())
        || x.last() == '\t' || x.last() == '\n'))
}

/// A row of string cells, each shaped to read back as itself.
pub open spec fn row_shaped(row: Seq<Value>) -> bool {
    forall|i: int|
        0 <= i < row.len() ==> (#[trigger] row[i]) is String && cell_shaped(row[i]->String_0@)
}

} // verus!
