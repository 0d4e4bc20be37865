use crate::parser::ParserError;
use crate::text::{debug_quoted, push_debug_quoted, push_str, string_of};
use vstd::prelude::*;

verus! {

/// What a lookup in a document or a section, or a parse, can fail with.
#[derive(Clone, Debug, PartialEq, Eq)]
pub enum IonError {
    MissingSection(String),
    MissingValue(String),
    ParserError(ParserError),
}

impl ParserError {
    /// The error as `{:?}` writes it: `ParserError { section: "..", desc: ".." }`.
    pub fn to_string(&self) -> (r: String)
        ensures
            r@ == "ParserError { section: "@ + debug_quoted(self.section@) + ", desc: "@
                + debug_quoted(self.desc@) + " }"@,
    {
        let mut out: Vec<char> = Vec::new();
        self.write_debug(&mut out);
        assert(out@ =~= "ParserError { section: "@ + debug_quoted(self.section@) + ", desc: "@
            + debug_quoted(self.desc@) + " }"@);
        string_of(out.as_slice())
    }

    fn write_debug(&self, out: &mut Vec<char>)
        ensures
            final(out)@ == old(out)@ + "ParserError { section: "@ + debug_quoted(self.section@)
                + ", desc: "@ + debug_quoted(self.desc@) + " }"@,
    {
        push_str(out, "ParserError { section: ");
        push_debug_quoted(out, self.section.as_str());
        push_str(out, ", desc: ");
        push_debug_quoted(out, self.desc.as_str());
        push_str(out, " }");
        assert(out@ =~= old(out)@ + "ParserError { section: "@ + debug_quoted(self.section@)
            + ", desc: "@ + debug_quoted(self.desc@) + " }"@);
    }
}

impl IonError {
    /// The error as `{:?}` writes it, e.g. `MissingSection("name")`.
    pub fn to_string(&self) -> (r: String)
        ensures
            r@ == match self {
                IonError::MissingSection(s) => "MissingSection("@ + debug_quoted(s@) + ")"@,
                IonError::MissingValue(s) => "MissingValue("@ + debug_quoted(s@) + ")"@,
                IonError::ParserError(e) => "ParserError("@ + "ParserError { section: "@
                    + debug_quoted(e.section@) + ", desc: "@ + debug_quoted(e.desc@) + " }"@
                    + ")"@,
            },
    {
        let mut out: Vec<char> = Vec::new();
        match self {
            IonError::MissingSection(s) => {
                push_str(&mut out, "MissingSection(");
                push_debug_quoted(&mut out, s.as_str());
            },
            IonError::MissingValue(s) => {
                push_str(&mut out, "MissingValue(");
                push_debug_quoted(&mut out, s.as_str());
            },
            IonError::ParserError(e) => {
                push_str(&mut out, "ParserError(");
                e.write_debug(&mut out);
            },
        }
        push_str(&mut out, ")");
        proof {
            match self {
                IonError::MissingSection(s) => {
                    assert(out@ =~= "MissingSection("@ + debug_quoted(s@) + ")"@);
                },
                IonError::MissingValue(s) => {
                    assert(out@ =~= "MissingValue("@ + debug_quoted(s@) + ")"@);
                },
                IonError::ParserError(e) => {
                    assert(out@ =~= "ParserError("@ + "ParserError { section: "@ + debug_quoted(
                        e.section@,
                    ) + ", desc: "@ + debug_quoted(e.desc@) + " }"@ + ")"@);
                },
            }
        }
        string_of(out.as_slice())
    }
}

impl From<ParserError> for IonError {
    fn from(error: ParserError) -> (r: Self)
        ensures
            r == IonError::ParserError(error),
    {
        IonError::ParserError(error)
    }
}

impl vstd::std_specs::convert::FromSpecImpl<ParserError> for IonError {
    open spec fn obeys_from_spec() -> bool {
        true
    }

    open spec fn from_spec(v: ParserError) -> Self {
        IonError::ParserError(v)
    }
}

} // verus!
