//! Records: turning the fields of one hand-edited record into an entry.
use vstd::prelude::*;
use crate::date::{Date, date_of_text, parse_date};

verus! {

/// The value of one field as it stood in the input.
#[derive(Clone, Debug, PartialEq, Eq)]
pub enum FieldValue {
    /// A string.
    Text(String),
    /// Anything that is not a string (a number, a list, a mapping, ...).
    NonText,
}

/// One `key: value` pair of a record, in input order.
#[derive(Clone, Debug, PartialEq, Eq)]
pub struct RawField {
    pub key: String,
    pub value: FieldValue,
}

/// The fields that a record may hold.
#[derive(Clone, Copy, Debug, PartialEq, Eq, Structural)]
pub enum FieldName {
    Date,
    Id,
    Nominator,
    Note,
    Url,
}

/// Why a record, or the list, could not be turned into entries.
#[derive(Clone, Debug, PartialEq, Eq)]
pub enum ParseError {
    /// A key outside `date`, `id`, `nominator`, `note`, `url`.
    UnknownField(String),
    /// `date`, `id` or `url` given twice in one record.
    DuplicateField(FieldName),
    /// A field whose value is not a string.
    InvalidType(FieldName),
    /// A `date` that is not `YYYY-MM-DD`; it carries the text.
    InvalidDate(String),
    /// `date` or `id` absent from a record.
    MissingField(FieldName),
}

/// One dated award record.
#[derive(Clone, Debug, PartialEq, Eq)]
pub struct Entry {
    pub date: Date,
    pub id: Option<String>,
    pub url: Option<String>,
}

impl Entry {
    pub open spec fn wf(self) -> bool {
        self.date.wf()
    }
}

/// What the scan of a record has found so far: `date`, `id` and `url`.
pub type Found = (Option<String>, Option<String>, Option<String>);

/// The field that a key names, if any.
pub open spec fn field_of_key(k: Seq<char>) -> Option<FieldName> {
    if k == "date"@ {
        Some(FieldName::Date)
    } else if k == "id"@ {
        Some(FieldName::Id)
    } else if k == "nominator"@ {
        Some(FieldName::Nominator)
    } else if k == "note"@ {
        Some(FieldName::Note)
    } else if k == "url"@ {
        Some(FieldName::Url)
    } else {
        None
    }
}

/// Takes a field that may be given once: a second one, or a value that is
/// not a string, is an error.
pub open spec fn take_once(slot: Option<String>, name: FieldName, v: FieldValue) -> Result<
    Option<String>,
    ParseError,
> {
    if slot is Some {
        Err(ParseError::DuplicateField(name))
    } else {
        match v {
            FieldValue::Text(s) => Ok(Some(s)),
            FieldValue::NonText => Err(ParseError::InvalidType(name)),
        }
    }
}

/// One step of the scan: what is found after field `f`.
pub open spec fn scan_step(st: Found, f: RawField) -> Result<Found, ParseError> {
    match field_of_key(f.key@) {
        None => Err(ParseError::UnknownField(f.key)),
        Some(FieldName::Date) => match take_once(st.0, FieldName::Date, f.value) {
            Ok(s) => Ok((s, st.1, st.2)),
            Err(e) => Err(e),
        },
        Some(FieldName::Id) => match take_once(st.1, FieldName::Id, f.value) {
            Ok(s) => Ok((st.0, s, st.2)),
            Err(e) => Err(e),
        },
        Some(FieldName::Url) => match take_once(st.2, FieldName::Url, f.value) {
            Ok(s) => Ok((st.0, st.1, s)),
            Err(e) => Err(e),
        },
        Some(n) => match f.value {
            FieldValue::Text(_) => Ok(st),
            FieldValue::NonText => Err(ParseError::InvalidType(n)),
        },
    }
}

/// The scan of all fields in order, stopping at the first error.
pub open spec fn scan_fields(fs: Seq<RawField>) -> Result<Found, ParseError>
    decreases fs.len(),
{
    if fs.len() == 0 {
        Ok((None, None, None))
    } else {
        match scan_fields(fs.drop_last()) {
            Ok(st) => scan_step(st, fs.last()),
            Err(e) => Err(e),
        }
    }
}

/// The entry from a `date` text, the date read from it (if it could be
/// read), and the `id` and `url` found: the date is checked before the id.
pub open spec fn entry_from(text: String, date: Option<Date>, id: Option<String>, url: Option<String>) -> Result<Entry, ParseError> {
    match date {
        None => Err(ParseError::InvalidDate(text)),
        Some(d) => match id {
            None => Err(ParseError::MissingField(FieldName::Id)),
            Some(i) => Ok(Entry { date: d, id: Some(i), url }),
        },
    }
}

/// The entry that a record's fields give: `date` is checked before `id`.
pub open spec fn entry_of(fs: Seq<RawField>) -> Result<Entry, ParseError> {
    match scan_fields(fs) {
        Err(e) => Err(e),
        Ok((date, id, url)) => match date {
            None => Err(ParseError::MissingField(FieldName::Date)),
            Some(text) => entry_from(text, date_of_text(text@), id, url),
        },
    }
}

/// The entries of a list of records, or the error of the first bad record.
pub open spec fn entries_of(recs: Seq<Vec<RawField>>) -> Result<Seq<Entry>, ParseError>
    decreases recs.len(),
{
    if recs.len() == 0 {
        Ok(Seq::empty())
    } else {
        match entries_of(recs.drop_last()) {
            Err(e) => Err(e),
            Ok(es) => match entry_of(recs.last()@) {
                Err(e) => Err(e),
                Ok(x) => Ok(es.push(x)),
            },
        }
    }
}

/// Once the scan of a prefix has failed, the scan of the whole fails the same way.
proof fn lemma_scan_error_stays(fs: Seq<RawField>, i: int)
    requires
        0 <= i <= fs.len(),
        scan_fields(fs.take(i)) is Err,
    ensures
        scan_fields(fs) == scan_fields(fs.take(i)),
    decreases fs.len() - i,
{
    if i < fs.len() {
        assert(fs.take(i + 1).drop_last() =~= fs.take(i));
        lemma_scan_error_stays(fs, i + 1);
    } else {
        assert(fs.take(i) =~= fs);
    }
}

/// Once a prefix of the list holds a bad record, the whole list fails the same way.
proof fn lemma_entries_error_stays(recs: Seq<Vec<RawField>>, i: int)
    requires
        0 <= i <= recs.len(),
        entries_of(recs.take(i)) is Err,
    ensures
        entries_of(recs) == entries_of(recs.take(i)),
    decreases recs.len() - i,
{
    if i < recs.len() {
        assert(recs.take(i + 1).drop_last() =~= recs.take(i));
        lemma_entries_error_stays(recs, i + 1);
    } else {
        assert(recs.take(i) =~= recs);
    }
}

/// Over a prefix of known keys with string values, the scan fails only on a
/// duplicate, and once a `date` has been read it stays found.
proof fn lemma_known_prefix(fs: Seq<RawField>, i: int, n: int)
    requires
        0 <= i,
        0 <= n <= fs.len(),
        forall|k: int|
            0 <= k < n ==> field_of_key((#[trigger] fs[k]).key@) is Some && fs[k].value is Text,
    ensures
        match scan_fields(fs.take(n)) {
            Ok(st) => (i < n && fs[i].key@ == "date"@) ==> st.0 is Some,
            Err(e) => e is DuplicateField,
        },
    decreases n,
{
    if n > 0 {
        lemma_known_prefix(fs, i, n - 1);
        assert(fs.take(n).drop_last() =~= fs.take(n - 1));
        assert(fs.take(n).last() == fs[n - 1]);
    } else {
        assert(fs.take(n) =~= Seq::<RawField>::empty());
    }
}

/// A record holding a key other than `date`, `id`, `nominator`, `note` and
/// `url` is rejected.
pub proof fn lemma_unknown_field_rejected(fs: Seq<RawField>, i: int)
    requires
        0 <= i < fs.len(),
        field_of_key(fs[i].key@) is None,
    ensures
        entry_of(fs) is Err,
{
    assert(fs.take(i + 1).drop_last() =~= fs.take(i));
    assert(fs.take(i + 1).last() == fs[i]);
    assert(scan_fields(fs.take(i + 1)) is Err);
    lemma_scan_error_stays(fs, i + 1);
}

/// Fields `0..n` have known keys and string values, and none of `date`,
/// `id` and `url` appears twice among them.
pub open spec fn clean_prefix(fs: Seq<RawField>, n: int) -> bool {
    &&& forall|k: int|
        0 <= k < n ==> field_of_key((#[trigger] fs[k]).key@) is Some && fs[k].value is Text
    &&& forall|i: int, j: int|
        0 <= i < j < n && (#[trigger] fs[i]).key@ == (#[trigger] fs[j]).key@ ==> (field_of_key(
            fs[i].key@,
        ) == Some(FieldName::Nominator) || field_of_key(fs[i].key@) == Some(FieldName::Note))
}

/// Over a clean prefix the scan succeeds, and a slot is filled only by a
/// field of its own name.
proof fn lemma_clean_prefix_ok(fs: Seq<RawField>, n: int)
    requires
        0 <= n <= fs.len(),
        clean_prefix(fs, n),
    ensures
        scan_fields(fs.take(n)) matches Ok(st) && (st.0 is Some ==> exists|i: int|
            0 <= i < n && field_of_key(#[trigger] fs[i].key@) == Some(FieldName::Date)) && (
        st.1 is Some ==> exists|i: int|
            0 <= i < n && field_of_key(#[trigger] fs[i].key@) == Some(FieldName::Id)) && (
        st.2 is Some ==> exists|i: int|
            0 <= i < n && field_of_key(#[trigger] fs[i].key@) == Some(FieldName::Url)),
    decreases n,
{
    if n > 0 {
        assert(clean_prefix(fs, n - 1));
        lemma_clean_prefix_ok(fs, n - 1);
        assert(fs.take(n).drop_last() =~= fs.take(n - 1));
        assert(fs.take(n).last() == fs[n - 1]);
        let st = scan_fields(fs.take(n - 1))->Ok_0;
        let f = fs[n - 1];
        assert(field_of_key(f.key@) is Some && f.value is Text);
        if field_of_key(f.key@) == Some(FieldName::Date) {
            if st.0 is Some {
                let i = choose|i: int| 0 <= i < n - 1 && field_of_key(#[trigger] fs[i].key@) == Some(FieldName::Date);
                assert(fs[i].key@ == "date"@ && f.key@ == "date"@);
                assert(fs[i].key@ == fs[n - 1].key@);
            }
        }
        if field_of_key(f.key@) == Some(FieldName::Id) {
            if st.1 is Some {
                let i = choose|i: int| 0 <= i < n - 1 && field_of_key(#[trigger] fs[i].key@) == Some(FieldName::Id);
                assert(fs[i].key@ == "id"@ && f.key@ == "id"@);
                assert(fs[i].key@ == fs[n - 1].key@);
            }
        }
        if field_of_key(f.key@) == Some(FieldName::Url) {
            if st.2 is Some {
                let i = choose|i: int| 0 <= i < n - 1 && field_of_key(#[trigger] fs[i].key@) == Some(FieldName::Url);
                assert(fs[i].key@ == "url"@ && f.key@ == "url"@);
                assert(fs[i].key@ == fs[n - 1].key@);
            }
        }
    } else {
        assert(fs.take(n) =~= Seq::<RawField>::empty());
    }
}

/// Where every field before an unknown key is known, a string, and not a
/// repeated `date`, `id` or `url`, the record is rejected for that key.
pub proof fn lemma_unknown_field_named(fs: Seq<RawField>, k: int)
    requires
        0 <= k < fs.len(),
        field_of_key(fs[k].key@) is None,
        clean_prefix(fs, k),
    ensures
        entry_of(fs) == Err::<Entry, ParseError>(ParseError::UnknownField(fs[k].key)),
{
    lemma_clean_prefix_ok(fs, k);
    assert(fs.take(k + 1).drop_last() =~= fs.take(k));
    assert(fs.take(k + 1).last() == fs[k]);
    lemma_scan_error_stays(fs, k + 1);
}

/// A record that gives `date` twice is rejected as a duplicate field, where
/// every field before the second `date` has a known key and a string value
/// (otherwise that earlier field is reported first).
pub proof fn lemma_duplicate_date_rejected(fs: Seq<RawField>, i: int, j: int)
    requires
        0 <= i < j < fs.len(),
        fs[i].key@ == "date"@,
        fs[j].key@ == "date"@,
        forall|k: int|
            0 <= k < j ==> field_of_key((#[trigger] fs[k]).key@) is Some && fs[k].value is Text,
    ensures
        entry_of(fs) matches Err(e) && e is DuplicateField,
{
    lemma_known_prefix(fs, i, j);
    assert(fs.take(j + 1).drop_last() =~= fs.take(j));
    assert(fs.take(j + 1).last() == fs[j]);
    assert(scan_fields(fs.take(j + 1)) matches Err(e) && e is DuplicateField);
    lemma_scan_error_stays(fs, j + 1);
}

/// A record of a readable `date` and an `id` gives the entry of exactly that
/// date and id, with no URL.
pub proof fn lemma_well_formed_record(date: RawField, id: RawField, text: String, name: String, d: Date)
    requires
        date.key@ == "date"@,
        date.value == FieldValue::Text(text),
        id.key@ == "id"@,
        id.value == FieldValue::Text(name),
        date_of_text(text@) == Some(d),
    ensures
        entry_of(seq![date, id]) == Ok::<Entry, ParseError>(Entry { date: d, id: Some(name), url: None }),
{
    reveal_strlit("date");
    reveal_strlit("id");
    let fs = seq![date, id];
    assert(fs.drop_last() =~= seq![date]);
    assert(seq![date].drop_last() =~= Seq::<RawField>::empty());
    assert("id"@.len() == 2 && "date"@.len() == 4);
    assert(field_of_key(id.key@) == Some(FieldName::Id));
    assert(scan_fields(Seq::<RawField>::empty()) == Ok::<Found, ParseError>((None, None, None)));
    assert(seq![date].last() == date && fs.last() == id);
    assert(scan_fields(seq![date]) == Ok::<Found, ParseError>((Some(text), None, None)));
    assert(scan_fields(fs) == Ok::<Found, ParseError>((Some(text), Some(name), None)));
}

/// The field that a key names, if any.
pub fn field_name(key: &String) -> (r: Option<FieldName>)
    ensures
        r == field_of_key(key@),
{
    if *key == String::from_str("date") {
        Some(FieldName::Date)
    } else if *key == String::from_str("id") {
        Some(FieldName::Id)
    } else if *key == String::from_str("nominator") {
        Some(FieldName::Nominator)
    } else if *key == String::from_str("note") {
        Some(FieldName::Note)
    } else if *key == String::from_str("url") {
        Some(FieldName::Url)
    } else {
        None
    }
}

fn take_field(slot: &Option<String>, name: FieldName, v: &FieldValue) -> (r: Result<
    Option<String>,
    ParseError,
>)
    ensures
        r == take_once(*slot, name, *v),
{
    if slot.is_some() {
        Err(ParseError::DuplicateField(name))
    } else {
        match v {
            FieldValue::Text(s) => Ok(Some(s.clone())),
            FieldValue::NonText => Err(ParseError::InvalidType(name)),
        }
    }
}

/// Turns the fields of one record into an entry.
pub fn parse_entry(fields: &Vec<RawField>) -> (r: Result<Entry, ParseError>)
    ensures
        r == entry_of(fields@),
        r matches Ok(e) ==> e.wf() && e.id is Some,
{
    let mut date: Option<String> = None;
    let mut id: Option<String> = None;
    let mut url: Option<String> = None;
    let mut i: usize = 0;
    while i < fields.len()
        invariant
            i <= fields.len(),
            scan_fields(fields@.take(i as int)) == Ok::<Found, ParseError>((date, id, url)),
        decreases fields.len() - i,
    {
        assert(fields@.take(i as int + 1).drop_last() =~= fields@.take(i as int));
        let f = &fields[i];
        let step: Result<(), ParseError> = match field_name(&f.key) {
            None => Err(ParseError::UnknownField(f.key.clone())),
            Some(FieldName::Date) => match take_field(&date, FieldName::Date, &f.value) {
                Ok(s) => {
                    date = s;
                    Ok(())
                },
                Err(e) => Err(e),
            },
            Some(FieldName::Id) => match take_field(&id, FieldName::Id, &f.value) {
                Ok(s) => {
                    id = s;
                    Ok(())
                },
                Err(e) => Err(e),
            },
            Some(FieldName::Url) => match take_field(&url, FieldName::Url, &f.value) {
                Ok(s) => {
                    url = s;
                    Ok(())
                },
                Err(e) => Err(e),
            },
            Some(n) => match f.value {
                FieldValue::Text(_) => Ok(()),
                FieldValue::NonText => Err(ParseError::InvalidType(n)),
            },
        };
        if let Err(e) = step {
            proof {
                lemma_scan_error_stays(fields@, i as int + 1);
            }
            return Err(e);
        }
        i = i + 1;
    }
    assert(fields@.take(i as int) =~= fields@);
    let text = match date {
        None => {
            return Err(ParseError::MissingField(FieldName::Date));
        },
        Some(t) => t,
    };
    let date = parse_date(text.as_str());
    finish_entry(text, date, id, url)
}

/// Builds the entry from a `date` text, the date read from it (`None`
/// where it could not be read), and the `id` and `url` found.
pub fn finish_entry(text: String, date: Option<Date>, id: Option<String>, url: Option<String>) -> (r: Result<Entry, ParseError>)
    ensures
        r == entry_from(text, date, id, url),
{
    match date {
        None => Err(ParseError::InvalidDate(text)),
        Some(d) => match id {
            None => Err(ParseError::MissingField(FieldName::Id)),
            Some(i) => Ok(Entry { date: d, id: Some(i), url }),
        },
    }
}

/// Turns a list of records into entries, in input order.
pub fn parse_list(records: &Vec<Vec<RawField>>) -> (r: Result<Vec<Entry>, ParseError>)
    ensures
        r matches Ok(v) ==> entries_of(records@) == Ok::<Seq<Entry>, ParseError>(v@),
        r matches Err(e) ==> entries_of(records@) == Err::<Seq<Entry>, ParseError>(e),
        r matches Ok(v) ==> forall|k: int| 0 <= k < v@.len() ==> (#[trigger] v@[k]).wf(),
{
    let mut out: Vec<Entry> = Vec::new();
    let mut i: usize = 0;
    while i < records.len()
        invariant
            i <= records.len(),
            entries_of(records@.take(i as int)) == Ok::<Seq<Entry>, ParseError>(out@),
            forall|k: int| 0 <= k < out@.len() ==> (#[trigger] out@[k]).wf(),
        decreases records.len() - i,
    {
        assert(records@.take(i as int + 1).drop_last() =~= records@.take(i as int));
        let e = match parse_entry(&records[i]) {
            Ok(e) => e,
            Err(err) => {
                proof {
                    lemma_entries_error_stays(records@, i as int + 1);
                }
                return Err(err);
            },
        };
        out.push(e);
        i = i + 1;
    }
    assert(records@.take(i as int) =~= records@);
    Ok(out)
}

} // verus!
