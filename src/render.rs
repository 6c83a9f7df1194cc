//! The list as an AsciiDoc document with one table row per entry.
use vstd::prelude::*;
use crate::record::Entry;

verus! {

/// The title, the introduction and the head of the table.
pub const DOCUMENT_HEADER: &'static str = "\n= _This Week in Rust_`'s Crates of the Week\n\nThe Rust crates that have been honored by link:https://this-week-in-rust.org[_This Week in Rust_]\nas \"`Crate of the Week`\".\n\n[%autowidth]\n|===\n| Date | Crate\n\n";

/// The line that closes the table.
pub const TABLE_END: &'static str = "|===\n";

/// Where a crate's page is when an entry gives no URL of its own.
pub const CRATES_IO_PREFIX: &'static str = "https://crates.io/crates/";

/// The link target of an entry with id `id`: its own URL, or its crates.io page.
pub open spec fn link_target(url: Option<String>, id: Seq<char>) -> Seq<char> {
    match url {
        Some(u) => u@,
        None => CRATES_IO_PREFIX@ + id,
    }
}

/// One table row: the date, then a link to `url` that reads `id`.
pub open spec fn row(date: Seq<char>, id: Seq<char>, url: Seq<char>) -> Seq<char> {
    "| "@ + date + " | link:"@ + url + "["@ + id + "]\n\n"@
}

/// The rows of the list in order, one per entry that has an id.
pub open spec fn rows(list: Seq<Entry>) -> Seq<char>
    decreases list.len(),
{
    if list.len() == 0 {
        Seq::empty()
    } else {
        match list.last().id {
            None => rows(list.drop_last()),
            Some(i) => rows(list.drop_last()) + row(
                list.last().date.iso(),
                i@,
                link_target(list.last().url, i@),
            ),
        }
    }
}

/// The whole document for the list.
pub open spec fn document(list: Seq<Entry>) -> Seq<char> {
    DOCUMENT_HEADER@ + rows(list) + TABLE_END@
}

/// The rows of two lists one after the other are the rows of the first
/// followed by the rows of the second.
pub proof fn lemma_rows_concat(a: Seq<Entry>, b: Seq<Entry>)
    ensures
        rows(a + b) == rows(a) + rows(b),
    decreases b.len(),
{
    if b.len() == 0 {
        assert(a + b =~= a);
        assert(rows(a) + Seq::<char>::empty() =~= rows(a));
    } else {
        assert((a + b).drop_last() =~= a + b.drop_last());
        assert((a + b).last() == b.last());
        lemma_rows_concat(a, b.drop_last());
        if let Some(i) = b.last().id {
            let w = row(b.last().date.iso(), i@, link_target(b.last().url, i@));
            assert((rows(a) + rows(b.drop_last())) + w =~= rows(a) + (rows(b.drop_last()) + w));
        }
    }
}

/// An entry without an id adds no row, wherever it stands in the list.
pub proof fn lemma_entry_without_id_skipped(a: Seq<Entry>, e: Entry, b: Seq<Entry>)
    requires
        e.id is None,
    ensures
        document(a + seq![e] + b) == document(a + b),
{
    assert(seq![e].drop_last() =~= Seq::<Entry>::empty());
    assert(seq![e].last() == e);
    assert(rows(Seq::<Entry>::empty()) == Seq::<char>::empty());
    assert(rows(seq![e]) == Seq::<char>::empty());
    lemma_rows_concat(a, seq![e]);
    lemma_rows_concat(a + seq![e], b);
    lemma_rows_concat(a, b);
    assert(rows(a) + Seq::<char>::empty() =~= rows(a));
}

/// An entry that gives its own URL is rendered with exactly that URL.
pub proof fn lemma_explicit_url_kept(e: Entry, id: String, url: String)
    requires
        e.id == Some(id),
        e.url == Some(url),
    ensures
        document(seq![e]) == DOCUMENT_HEADER@ + row(e.date.iso(), id@, url@) + TABLE_END@,
{
    assert(seq![e].drop_last() =~= Seq::<Entry>::empty());
    assert(seq![e].last() == e);
    assert(rows(Seq::<Entry>::empty()) == Seq::<char>::empty());
    assert(rows(seq![e]) == Seq::<char>::empty() + row(e.date.iso(), id@, url@));
    assert(Seq::<char>::empty() + row(e.date.iso(), id@, url@) =~= row(e.date.iso(), id@, url@));
}

/// The text of an optional string.
pub open spec fn text_of(o: Option<String>) -> Option<Seq<char>> {
    match o {
        Some(s) => Some(s@),
        None => None,
    }
}

/// Two entries with the same date and the same text of id and of URL.
pub open spec fn same_content(x: Entry, y: Entry) -> bool {
    x.date == y.date && text_of(x.id) == text_of(y.id) && text_of(x.url) == text_of(y.url)
}

/// Lists of the same content have the same rows.
proof fn lemma_rows_same_content(a: Seq<Entry>, b: Seq<Entry>)
    requires
        a.len() == b.len(),
        forall|k: int| 0 <= k < a.len() ==> same_content(#[trigger] a[k], b[k]),
    ensures
        rows(a) == rows(b),
    decreases a.len(),
{
    if a.len() > 0 {
        let (a0, b0) = (a.drop_last(), b.drop_last());
        assert forall|k: int| 0 <= k < a0.len() implies same_content(#[trigger] a0[k], b0[k]) by {
            assert(a0[k] == a[k] && b0[k] == b[k]);
        }
        lemma_rows_same_content(a0, b0);
        assert(same_content(a.last(), b.last()));
    }
}

/// Rendering gives the same text every time for lists of the same content:
/// the document depends only on the dates, ids and URLs, entry by entry.
pub proof fn lemma_render_repeatable(a: Seq<Entry>, b: Seq<Entry>)
    requires
        a.len() == b.len(),
        forall|k: int| 0 <= k < a.len() ==> same_content(#[trigger] a[k], b[k]),
    ensures
        document(a) == document(b),
{
    lemma_rows_same_content(a, b);
}

/// One table row for an entry dated `date` (as "%F" writes it) with id
/// `id` and URL `url`: a link to `url`, or to the crate's crates.io page
/// where there is none.
pub fn table_row(date: &str, id: &str, url: &Option<String>) -> (r: String)
    ensures
        r@ == row(date@, id@, link_target(*url, id@)),
{
    let mut out = String::from_str("| ");
    out.append(date);
    out.append(" | link:");
    match url {
        Some(u) => out.append(u.as_str()),
        None => {
            out.append(CRATES_IO_PREFIX);
            out.append(id);
        },
    }
    out.append("[");
    out.append(id);
    out.append("]\n\n");
    assert(out@ =~= row(date@, id@, link_target(*url, id@)));
    out
}

/// Renders the list as a document: a header, one row per entry that has an
/// id (entries without one are skipped), and the end of the table.
pub fn write_cotw_list(list: Vec<Entry>) -> (r: String)
    requires
        forall|k: int| 0 <= k < list@.len() ==> (#[trigger] list@[k]).wf(),
    ensures
        r@ == document(list@),
{
    let mut out = String::from_str(DOCUMENT_HEADER);
    let mut i: usize = 0;
    while i < list.len()
        invariant
            i <= list.len(),
            forall|k: int| 0 <= k < list@.len() ==> (#[trigger] list@[k]).wf(),
            out@ == DOCUMENT_HEADER@ + rows(list@.take(i as int)),
        decreases list.len() - i,
    {
        assert(list@.take(i as int + 1).drop_last() =~= list@.take(i as int));
        let e = &list[i];
        if let Some(id) = &e.id {
            let text = e.date.to_iso();
            let line = table_row(text.as_str(), id.as_str(), &e.url);
            out.append(line.as_str());
            assert(out@ =~= DOCUMENT_HEADER@ + (rows(list@.take(i as int)) + line@));
        }
        i = i + 1;
    }
    assert(list@.take(i as int) =~= list@);
    out.append(TABLE_END);
    out
}

} // verus!
