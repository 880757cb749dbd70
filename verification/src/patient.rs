//! Patient records, reduced to the fields the documents use.

use vstd::prelude::*;

use crate::document::TagPair;
use crate::fhir_date::{serialize_fhirdate, spec_date_text, FHIRDate};

verus! {

/// One human name of a patient: a subset of the attributes FHIR defines.
#[derive(Debug, PartialEq, Clone)]
pub struct HumanName {
    pub family: String,
    pub given: String,
}

/// A patient record: the names it carries and the birth date.
#[derive(Debug, PartialEq, Clone)]
pub struct Patient {
    pub names: Vec<HumanName>,
    pub birth_date: FHIRDate,
}

/// The full name a document shows: the given name, a space, the family name.
pub open spec fn spec_full_name(name: HumanName) -> Seq<char> {
    name.given@ + seq![' '] + name.family@
}

impl Patient {
    /// The tag pairs a patient supplies to a template: the full first name
    /// under `name`, and the birth date, in its text form, under
    /// `birth_date`.
    pub fn tag_pairs(&self) -> (r: Vec<TagPair>)
        requires
            self.names.len() > 0,
            self.birth_date.well_formed(),
        ensures
            r@.len() == 2,
            r@[0]@ == ("name"@, spec_full_name(self.names@[0])),
            r@[1]@ == ("birth_date"@, spec_date_text(self.birth_date)),
    {
        let first = &self.names[0];
        let full_name = first.given.clone().concat(" ").concat(first.family.as_str());
        proof {
            reveal_strlit(" ");
            assert(" "@ =~= seq![' ']);
        }
        let birth_date = serialize_fhirdate(&self.birth_date);
        let mut pairs: Vec<TagPair> = Vec::new();
        pairs.push(TagPair { key: String::from_str("name"), value: full_name });
        pairs.push(TagPair { key: String::from_str("birth_date"), value: birth_date });
        pairs
    }
}

} // verus!
