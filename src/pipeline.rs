//! The whole run: parse, then check, then render.
use vstd::prelude::*;
use crate::record::{RawField, ParseError, entries_of, parse_list};
use crate::render::{document, write_cotw_list};
use crate::validate::{Diagnostic, report, views, validate_cotw_list};

verus! {

/// What a run produces: the diagnostics on the list, and the document.
#[derive(Clone, Debug, PartialEq, Eq)]
pub struct Processed {
    pub diagnostics: Vec<Diagnostic>,
    pub document: String,
}

/// Parses the records, checks the entries' order, and renders them; stops
/// at the first record that cannot be parsed.
pub fn process_cotw_list(records: &Vec<Vec<RawField>>) -> (r: Result<Processed, ParseError>)
    ensures
        entries_of(records@) matches Err(e) ==> r == Err::<Processed, ParseError>(e),
        entries_of(records@) matches Ok(es) ==> (r matches Ok(p) && views(p.diagnostics@)
            == report(es) && p.document@ == document(es)),
{
    let list = match parse_list(records) {
        Ok(l) => l,
        Err(e) => {
            return Err(e);
        },
    };
    let diagnostics = validate_cotw_list(&list);
    let document = write_cotw_list(list);
    Ok(Processed { diagnostics, document })
}

} // verus!
