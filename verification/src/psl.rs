//! The public suffix list.

use vstd::prelude::*;

use crate::text::{has_any, opt_text, CharClass};

verus! {

/// The rule table of the `publicsuffix` crate.
#[verifier::external_type_specification]
#[verifier::external_body]
pub struct ExternalSuffixTable(publicsuffix::List);

/// The rules of a table: each rule without its exclamation mark, and whether it has
/// one.
pub uninterp spec fn suffix_rules(table: publicsuffix::List) -> Map<Seq<char>, bool>;

/// The rules that a list in the Mozilla format holds, if it is a valid list.
pub uninterp spec fn listed_rules(text: Seq<char>) -> Option<Map<Seq<char>, bool>>;

/// The public suffix of a name, with the label before it, under some rules.
pub uninterp spec fn registrable_part(
    rules: Map<Seq<char>, bool>,
    name: Seq<char>,
) -> Option<Seq<char>>;

/// Calls `publicsuffix::List::from_str`. Success and the rules read are fixed by the
/// text alone. The format is not spelled out here.
#[verifier::external_body]
fn read_table(text: &str) -> (r: Option<publicsuffix::List>)
    ensures
        match r {
            Some(table) => listed_rules(text@) == Some(suffix_rules(table)),
            None => listed_rules(text@) is None,
        },
{
    match text.parse::<publicsuffix::List>() {
        Ok(table) => Some(table),
        Err(_) => None,
    }
}

/// Whether `part` is the end of `name` from the beginning of a label on.
pub open spec fn ends_at_label(part: Seq<char>, name: Seq<char>) -> bool {
    part == name || (seq!['.'] + part).is_suffix_of(name)
}

/// Calls `Psl::domain` of the `publicsuffix` crate on a table that `from_str` made.
/// The result is fixed by the rules and the name. It is the end of the name from the
/// beginning of a label on, and it holds a dot. Which label that is, the rules
/// decide; their algorithm is not spelled out here.
#[verifier::external_body]
fn table_domain(table: &publicsuffix::List, name: &str) -> (r: Option<String>)
    ensures
        opt_text(r) == registrable_part(suffix_rules(*table), name@),
        r matches Some(d) ==> ends_at_label(d@, name@) && has_any(d@, CharClass::Is('.')),
{
    match publicsuffix::Psl::domain(table, name.as_bytes()) {
        Some(d) => String::from_utf8(d.as_bytes().to_vec()).ok(),
        None => None,
    }
}

/// A public suffix list.
pub struct SuffixList {
    table: publicsuffix::List,
}

impl View for SuffixList {
    type V = Map<Seq<char>, bool>;

    closed spec fn view(&self) -> Map<Seq<char>, bool> {
        suffix_rules(self.table)
    }
}

impl SuffixList {
    /// Reads a list in the Mozilla format.
    pub fn parse(text: &str) -> (r: Option<SuffixList>)
        ensures
            match r {
                Some(list) => listed_rules(text@) == Some(list@),
                None => listed_rules(text@) is None,
            },
    {
        match read_table(text) {
            Some(table) => Some(SuffixList { table }),
            None => None,
        }
    }

    /// The public suffix of a name with the label before it.
    pub fn domain(&self, name: &str) -> (r: Option<String>)
        ensures
            opt_text(r) == registrable_part(self@, name@),
            r matches Some(d) ==> ends_at_label(d@, name@) && has_any(d@, CharClass::Is('.')),
    {
        table_domain(&self.table, name)
    }
}

} // verus!
