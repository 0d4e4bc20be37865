use crate::display::{document_text, write_section};
use crate::error::IonError;
use crate::name_map::{sorted_names, NameMap};
use crate::parser::{build, empty_section, walk_doc, walk_fails, ErrorModel, Parser};
use crate::round_trip::{lemma_document_round_trip, plain_section, shaped_rows, shaped_sections};
use crate::section::{name_shaped, row_shaped};
use crate::value::{readable, readable_entries, Value};
use crate::section::{doc_model, Section, SectionModel, DEFAULT_NAME};
use crate::text::{push_str, string_of};
use vstd::prelude::*;

verus! {

/// A parsed document: sections by name, in name order.
#[derive(Debug)]
pub struct Ion {
    sections: NameMap<Section>,
}

impl View for Ion {
    type V = Map<Seq<char>, Section>;

    closed spec fn view(&self) -> Map<Seq<char>, Section> {
        self.sections@
    }
}

impl Ion {
    /// What the sections stand for, by name.
    pub closed spec fn model(&self) -> Map<Seq<char>, SectionModel> {
        doc_model(self.sections)
    }

    /// The names are unique and each section's dictionary is well formed.
    pub closed spec fn wf(&self) -> bool {
        &&& self.sections.wf()
        &&& forall|k: Seq<char>| #[trigger] self.sections@.contains_key(k) ==> self.sections@[k].wf()
    }

    pub fn new(sections: NameMap<Section>) -> (r: Ion)
        requires
            sections.wf(),
            forall|k: Seq<char>| #[trigger] sections@.contains_key(k) ==> sections@[k].wf(),
        ensures
            r.wf(),
            r@ == sections@,
            r.pairs() == sections.pairs(),
            r.model() == doc_model(sections),
    {
        Ion { sections }
    }

    /// Parses a whole document. Content before the first header forms the
    /// section `root`; under a repeated header the last one's content stands.
    pub fn from_str(text: &str) -> (r: Result<Ion, IonError>)
        ensures
            r matches Ok(d) ==> d.wf(),
            r matches Err(e) ==> e is ParserError,
            r matches Ok(d) ==> (!text@.contains('[') ==> d@.dom() == set![DEFAULT_NAME@]),
            r is Ok <==> !walk_fails(text@, 0),
            r matches Ok(d) ==> d.model() == walk_doc(text@, 0, None, empty_section(), Map::empty()),
            r matches Ok(d) ==> d.pairs().len() > 0 && shaped_sections(d.pairs()) && shaped_rows(
                d.pairs(),
            ),
            outcome(
                r,
                build(text@, 0, None, false, unknown_section(), None, empty_section(), Map::empty()),
            ),
    {
        parser_to_ion(Parser::new(text))
    }

    /// Parses only the sections named in `accepted_sections`; for each name
    /// the first section under it. Nothing outside a wanted section is kept,
    /// and scanning stops once every wanted section has been seen.
    pub fn from_str_filtered(text: &str, accepted_sections: Vec<&str>) -> (r: Result<
        Ion,
        IonError,
    >)
        ensures
            r matches Ok(d) ==> d.wf(),
            r matches Err(e) ==> e is ParserError,
            r matches Ok(d) ==> forall|k: Seq<char>| #[trigger]
                d@.contains_key(k) ==> exists|i: int|
                    0 <= i < accepted_sections@.len() && accepted_sections@[i]@ == k,
            r matches Ok(d) ==> (!text@.contains('[') ==> d@.dom() == Set::<Seq<char>>::empty()),
            accepted_sections@.len() == 0 ==> (r matches Ok(d)
                && d@ == Map::<Seq<char>, Section>::empty()),
            outcome(
                r,
                build(
                    text@,
                    0,
                    Some(names_of(accepted_sections@)),
                    false,
                    unknown_section(),
                    None,
                    empty_section(),
                    Map::empty(),
                ),
            ),
    {
        let ghost names = accepted_sections@;
        let parser = Parser::new_filtered(text, accepted_sections);
        proof {
            assert(parser.wanted()->Some_0 =~= names_of(names));
            if names.len() == 0 {
                assert(parser.wanted()->Some_0 =~= Seq::<Seq<char>>::empty());
            }
        }
        let r = parser_to_ion(parser);
        proof {
            if r is Ok {
                let d = r->Ok_0;
                let w = parser.wanted()->Some_0;
                assert forall|k: Seq<char>| #[trigger] d@.contains_key(k) implies exists|i: int|
                    0 <= i < names.len() && names[i]@ == k by {
                    let i = choose|i: int| 0 <= i < w.len() && w[i] == k;
                    assert(names[i]@ == w[i]);
                }
            }
        }
        r
    }

    /// The section named `key`.
    pub fn get(&self, key: &str) -> (r: Option<&Section>)
        requires
            self.wf(),
        ensures
            match r {
                Some(s) => self@.contains_key(key@) && *s == self@[key@] && s.wf(),
                None => !self@.contains_key(key@),
            },
    {
        self.sections.get(key)
    }

    /// The section named `key`, to change in place.
    pub fn get_mut(&mut self, key: &str) -> (r: Option<&mut Section>)
        requires
            old(self).wf(),
        ensures
            match r {
                Some(s) => old(self)@.contains_key(key@) && *s == old(self)@[key@],
                None => !old(self)@.contains_key(key@) && *final(self) == *old(self),
            },
    {
        self.sections.get_mut(key)
    }

    /// The name and the section under `key`.
    pub fn get_key_value(&self, key: &str) -> (r: Option<(&String, &Section)>)
        requires
            self.wf(),
        ensures
            match r {
                Some(p) => self@.contains_key(key@) && p.0@ == key@ && *p.1 == self@[key@],
                None => !self@.contains_key(key@),
            },
    {
        self.sections.get_key_value(key)
    }

    /// The section named `key`, or `MissingSection(key)`.
    pub fn fetch(&self, key: &str) -> (r: Result<&Section, IonError>)
        requires
            self.wf(),
        ensures
            match r {
                Ok(s) => self@.contains_key(key@) && *s == self@[key@],
                Err(e) => !self@.contains_key(key@) && (e matches IonError::MissingSection(k)
                    && k@ == key@),
            },
    {
        match self.get(key) {
            Some(s) => Ok(s),
            None => Err(IonError::MissingSection(key.to_owned())),
        }
    }

    /// Takes the section named `key` out of the document.
    pub fn remove(&mut self, key: &str) -> (r: Option<Section>)
        requires
            old(self).wf(),
        ensures
            final(self).wf(),
            final(self)@ == old(self)@.remove(key@),
            match r {
                Some(s) => old(self)@.contains_key(key@) && s == old(self)@[key@],
                None => !old(self)@.contains_key(key@),
            },
    {
        self.sections.remove(key)
    }

    /// The `(name, section)` pairs, in order.
    pub closed spec fn pairs(&self) -> Seq<(String, Section)> {
        self.sections.pairs()
    }

    /// All `(name, section)` pairs, in name order.
    pub fn iter(&self) -> (r: &[(String, Section)])
        requires
            self.wf(),
        ensures
            r@ == self.pairs(),
            sorted_names(r@),
    {
        self.sections.as_slice()
    }

    /// The document as text: each section as `[name]`, its entries, its rows
    /// and a blank line, in name order.
    pub fn to_string(&self) -> (r: String)
        ensures
            r@ == document_text(self.pairs(), self.pairs().len() as int),
    {
        let entries = self.sections.as_slice();
        let mut out: Vec<char> = Vec::new();
        let mut i: usize = 0;
        while i < entries.len()
            invariant
                entries@ == self.pairs(),
                i <= entries@.len(),
                out@ == document_text(entries@, i as int),
            decreases entries.len() - i,
        {
            out.push('[');
            push_str(&mut out, entries[i].0.as_str());
            out.push(']');
            out.push('\n');
            write_section(&entries[i].1, &mut out);
            out.push('\n');
            assert(out@ =~= document_text(entries@, i + 1));
            i = i + 1;
        }
        string_of(out.as_slice())
    }
}

/// Writing a document and reading the text back gives the same document,
/// without a grammar error: for documents with at least one section, whose
/// section names hold no `]` and do not open with a blank, whose entries hold
/// values of the kind the reader produces, and whose table cells are strings
/// that open with neither a space, `#` nor a carriage return and end with no
/// whitespace that writing leaves unescaped.
pub proof fn lemma_write_read(doc: Ion)
    requires
        doc.wf(),
        doc.pairs().len() > 0,
        shaped_sections(doc.pairs()),
        shaped_rows(doc.pairs()),
    ensures
        !walk_fails(document_text(doc.pairs(), doc.pairs().len() as int), 0),
        walk_doc(
            document_text(doc.pairs(), doc.pairs().len() as int),
            0,
            None,
            empty_section(),
            Map::empty(),
        ) == doc.model(),
{
    assert forall|i: int| 0 <= i < doc.pairs().len() implies name_shaped(
        #[trigger] doc.pairs()[i].0@,
    ) && plain_section(doc.pairs()[i].1) by {
        let d = doc.pairs()[i].1.dictionary;
        assert(name_shaped(doc.pairs()[i].0@));
        assert(readable(Value::Dictionary(d)));
        assert(readable_entries(d.pairs(), d.pairs().len() as int));
        assert forall|j: int| 0 <= j < doc.pairs()[i].1.rows@.len() implies row_shaped(
            #[trigger] doc.pairs()[i].1.rows@[j]@,
        ) by {
            assert(row_shaped(doc.pairs()[i].1.rows@[j]@));
        }
    }
    lemma_document_round_trip(doc.pairs());
}

/// Reading a text, writing the document read and reading that text again
/// gives the same document as the first reading (every document that
/// `Ion::from_str` returns has the properties asked here).
pub proof fn lemma_read_write_read(text: Seq<char>, doc: Ion)
    requires
        doc.wf(),
        doc.pairs().len() > 0,
        shaped_sections(doc.pairs()),
        shaped_rows(doc.pairs()),
        doc.model() == walk_doc(text, 0, None, empty_section(), Map::empty()),
    ensures
        !walk_fails(document_text(doc.pairs(), doc.pairs().len() as int), 0),
        walk_doc(
            document_text(doc.pairs(), doc.pairs().len() as int),
            0,
            None,
            empty_section(),
            Map::empty(),
        ) == walk_doc(text, 0, None, empty_section(), Map::empty()),
{
    lemma_write_read(doc);
}

/// `r` is the outcome that the spec gives: the document with that model, or
/// the grammar error with that section and description.
pub open spec fn outcome(
    r: Result<Ion, IonError>,
    b: Result<Map<Seq<char>, SectionModel>, ErrorModel>,
) -> bool {
    match r {
        Ok(d) => b == Ok::<Map<Seq<char>, SectionModel>, ErrorModel>(d.model()),
        Err(IonError::ParserError(e)) => b == Err::<Map<Seq<char>, SectionModel>, ErrorModel>(
            (e.section@, e.desc@),
        ),
        Err(_) => false,
    }
}

/// The names in `v`, as characters.
pub open spec fn names_of(v: Seq<&str>) -> Seq<Seq<char>> {
    Seq::new(v.len(), |i: int| v[i]@)
}

/// The section that an error before any header is attributed to.
pub open spec fn unknown_section() -> Seq<char> {
    seq!['u', 'n', 'k', 'n', 'o', 'w', 'n']
}

/// Parses a whole document (see [`Ion::from_str`]).
pub fn from_str(text: &str) -> (r: Result<Ion, IonError>)
    ensures
        r matches Ok(d) ==> d.wf(),
        r matches Err(e) ==> e is ParserError,
        r matches Ok(d) ==> (!text@.contains('[') ==> d@.dom() == set![DEFAULT_NAME@]),
        r is Ok <==> !walk_fails(text@, 0),
        r matches Ok(d) ==> d.model() == walk_doc(text@, 0, None, empty_section(), Map::empty()),
        r matches Ok(d) ==> d.pairs().len() > 0 && shaped_sections(d.pairs()) && shaped_rows(
            d.pairs(),
        ),
{
    Ion::from_str(text)
}

fn parser_to_ion(parser: Parser) -> (r: Result<Ion, IonError>)
    requires
        parser.wf(),
    ensures
        r matches Ok(d) ==> d.wf(),
        r matches Err(e) ==> e is ParserError,
        r matches Ok(d) ==> (parser.wanted() matches Some(w) ==> forall|k: Seq<char>| #[trigger]
            d@.contains_key(k) ==> w.contains(k)),
        r matches Ok(d) ==> (!parser.text().contains('[') ==> d@.dom() == if parser.wanted() is None {
            set![DEFAULT_NAME@]
        } else {
            Set::<Seq<char>>::empty()
        }),
        parser.wanted() == Some(Seq::<Seq<char>>::empty()) && !parser.header_seen() ==> (r matches Ok(d) && d@ == Map::<Seq<char>, Section>::empty()),
        parser.wanted() is None ==> (r is Ok <==> !walk_fails(parser.text(), parser.at())),
        r matches Ok(d) ==> shaped_sections(d.pairs()) && shaped_rows(d.pairs()),
        r matches Ok(d) ==> (parser.wanted() is None ==> d.pairs().len() > 0),
        r matches Ok(d) ==> (parser.wanted() is None ==> d.model() == walk_doc(
            parser.text(),
            parser.at(),
            None,
            empty_section(),
            Map::empty(),
        )),
        outcome(
            r,
            build(
                parser.text(),
                parser.at(),
                parser.wanted(),
                parser.header_seen(),
                parser.error_section(),
                None,
                empty_section(),
                Map::empty(),
            ),
        ),
{
    let ghost w0 = parser.wanted();
    let mut parser = parser;
    match parser.read() {
        Ok(sections) => {
            proof {
                sections.lemma_view();
                crate::name_map::lemma_map_of(sections.pairs());
                let p = sections.pairs();
                assert forall|i: int| 0 <= i < p.len() implies name_shaped(#[trigger] p[i].0@)
                    && readable(Value::Dictionary(p[i].1.dictionary)) by {
                    assert(sections@.contains_key(p[i].0@));
                    assert(sections@[p[i].0@] == p[i].1);
                }
                assert forall|i: int, j: int|
                    0 <= i < p.len() && 0 <= j < p[i].1.rows@.len() implies row_shaped(
                    #[trigger] p[i].1.rows@[j]@,
                ) by {
                    assert(sections@.contains_key(p[i].0@));
                    assert(sections@[p[i].0@] == p[i].1);
                }
                if w0 is None {
                    if !(exists|k: Seq<char>| sections@.dom().contains(k)) {
                        assert(sections@.dom() =~= Set::<Seq<char>>::empty());
                    }
                    let k = choose|k: Seq<char>| sections@.dom().contains(k);
                    assert(sections@.contains_key(k));
                }
            }
            Ok(Ion::new(sections))
        },
        Err(e) => Err(IonError::from(e)),
    }
}

impl std::str::FromStr for Ion {
    type Err = IonError;

    fn from_str(text: &str) -> Result<Ion, IonError> {
        Ion::from_str(text)
    }
}

} // verus!
