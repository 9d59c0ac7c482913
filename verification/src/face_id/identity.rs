//! Who a face was taken for.

use vstd::prelude::*;
use vstd::string::*;
use crate::single::Single;
use crate::text;
use crate::text::{decimal, trim};

verus! {

/// The content of a text that may be missing.
pub open spec fn optional_text(text: Option<String>) -> Option<Seq<char>> {
    match text {
        Some(text) => Some(text@),
        None => None,
    }
}

/// A copy of a text that may be missing.
pub fn copy_optional(text: &Option<String>) -> (r: Option<String>)
    ensures
        r == *text,
{
    match text {
        Some(text) => Some(text.clone()),
        None => None,
    }
}

/// The person that a face was taken for.
#[derive(Debug, PartialEq, Eq)]
pub struct FaceIdentityMatch {
    pub person_id: u64,
    pub name: Option<String>,
    pub similarity: Single,
    pub fingerprint: String,
    pub is_new: bool,
    pub persisted: bool,
}

/// The content of a match.
#[verifier::ext_equal]
pub struct MatchView {
    pub person_id: u64,
    pub name: Option<Seq<char>>,
    pub similarity: Single,
    pub fingerprint: Seq<char>,
    pub is_new: bool,
    pub persisted: bool,
}

impl View for FaceIdentityMatch {
    type V = MatchView;

    open spec fn view(&self) -> MatchView {
        MatchView {
            person_id: self.person_id,
            name: optional_text(self.name),
            similarity: self.similarity,
            fingerprint: self.fingerprint@,
            is_new: self.is_new,
            persisted: self.persisted,
        }
    }
}

impl Clone for FaceIdentityMatch {
    fn clone(&self) -> (r: Self)
        ensures
            r == *self,
    {
        FaceIdentityMatch {
            person_id: self.person_id,
            name: copy_optional(&self.name),
            similarity: self.similarity,
            fingerprint: self.fingerprint.clone(),
            is_new: self.is_new,
            persisted: self.persisted,
        }
    }
}

impl MatchView {
    /// What the overlay calls the person: the name where there is one, and the number otherwise.
    pub open spec fn display_name(self) -> Seq<char> {
        if !self.persisted {
            "Unknown"@
        } else {
            match self.name {
                Some(name) => if text::spec_trim(name).len() > 0 {
                    name
                } else {
                    numbered(self.person_id)
                },
                None => numbered(self.person_id),
            }
        }
    }
}

/// What a person without a name is called.
pub open spec fn numbered(person_id: u64) -> Seq<char> {
    "Person "@ + text::spec_decimal(person_id as nat)
}

impl FaceIdentityMatch {
    pub fn display_name(&self) -> (r: String)
        ensures
            r@ == self@.display_name(),
    {
        if !self.persisted {
            return "Unknown".to_owned();
        }
        if let Some(name) = &self.name {
            if !trim(name.as_str()).is_empty() {
                return name.clone();
            }
        }
        "Person ".to_owned().concat(decimal(self.person_id).as_str())
    }
}

} // verus!
