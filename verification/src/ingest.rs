//! Turning source records into the searchable text of a corpus.

use vstd::prelude::*;
use vstd::string::StringExecFns;
use crate::model::{Document, DocumentView};

verus! {

/// The name of the field that holds a record's course identifier.
pub const COURSE_ID_FIELD: &'static str = "courseID";

/// The name of the field that holds a record's name.
pub const NAME_FIELD: &'static str = "name";

/// The name of the field that holds a record's description.
pub const DESC_FIELD: &'static str = "desc";

/// One record of the source: a course identifier, a name and a description.
#[derive(Debug)]
pub struct SourceRecord {
    pub course_id: String,
    pub name: String,
    pub desc: String,
}

/// The model of a `SourceRecord`.
pub struct SourceRecordView {
    pub course_id: Seq<char>,
    pub name: Seq<char>,
    pub desc: Seq<char>,
}

impl View for SourceRecord {
    type V = SourceRecordView;

    open spec fn view(&self) -> SourceRecordView {
        SourceRecordView { course_id: self.course_id@, name: self.name@, desc: self.desc@ }
    }
}

/// The models of a table of records.
pub open spec fn record_views(records: Seq<SourceRecord>) -> Seq<SourceRecordView> {
    Seq::new(records.len(), |i: int| records[i]@)
}

/// The records that the `json` crate reads out of a text, each as the texts
/// of the three named fields, or `None` where the text is not JSON.
pub uninterp spec fn json_table(
    text: Seq<char>,
    first: Seq<char>,
    second: Seq<char>,
    third: Seq<char>,
) -> Option<Seq<(Seq<char>, Seq<char>, Seq<char>)>>;

/// The fields of an optional table of records, as plain texts.
pub open spec fn record_table(records: Option<Vec<SourceRecord>>) -> Option<
    Seq<(Seq<char>, Seq<char>, Seq<char>)>,
> {
    match records {
        Some(v) => Some(Seq::new(v@.len(), |i: int| (v@[i].course_id@, v@[i].name@, v@[i].desc@))),
        None => None,
    }
}

/// Calls `json::parse` and, for each member of the array read (or each value
/// of the object read), renders the three named fields as text. Trusted: the
/// result depends on the arguments alone. A field that is missing reads as
/// the crate renders `null`.
#[verifier::external_body]
fn read_table(text: &str, first: &str, second: &str, third: &str) -> (out: Option<
    Vec<SourceRecord>,
>)
    ensures
        record_table(out) == json_table(text@, first@, second@, third@),
{
    match json::parse(text) {
        Ok(db) => Some(
            db.members().chain(db.entries().map(|entry| entry.1)).map(
                |r| SourceRecord {
                    course_id: r[first].to_string(),
                    name: r[second].to_string(),
                    desc: r[third].to_string(),
                },
            ).collect(),
        ),
        Err(_) => None,
    }
}

/// The records of a source text, or `None` where the text cannot be read.
pub fn parse_records(text: &str) -> (out: Option<Vec<SourceRecord>>)
    ensures
        record_table(out) == json_table(text@, COURSE_ID_FIELD@, NAME_FIELD@, DESC_FIELD@),
{
    read_table(text, COURSE_ID_FIELD, NAME_FIELD, DESC_FIELD)
}

/// A text three times, with one space between the copies.
pub open spec fn thrice(s: Seq<char>) -> Seq<char> {
    s + seq![' '] + s + seq![' '] + s
}

/// The searchable text of a record: the course identifier three times, the
/// name three times and the description once, the three parts separated by
/// `" | "`. Repeating a field weighs it more heavily in the ranking.
pub open spec fn composed(r: SourceRecordView) -> Seq<char> {
    thrice(r.course_id) + seq![' ', '|', ' '] + thrice(r.name) + seq![' ', '|', ' '] + r.desc
}

/// The corpus of a table of records: each record's searchable text, under
/// the record's position as its identifier.
pub open spec fn corpus_of_records(records: Seq<SourceRecordView>) -> Seq<DocumentView> {
    Seq::new(
        records.len(),
        |i: int| DocumentView { id: (i % 0x1_0000_0000) as u32, contents: composed(records[i]) },
    )
}

fn append_thrice(out: &mut String, s: &str)
    ensures
        final(out)@ == old(out)@ + thrice(s@),
{
    proof {
        reveal_strlit(" ");
    }
    assert(" "@ =~= seq![' ']);
    out.append(s);
    out.append(" ");
    out.append(s);
    out.append(" ");
    out.append(s);
    assert(out@ =~= old(out)@ + thrice(s@));
}

/// The searchable text of one record.
pub fn compose_record(record: &SourceRecord) -> (out: String)
    ensures
        out@ == composed(record@),
{
    proof {
        reveal_strlit(" | ");
    }
    assert(" | "@ =~= seq![' ', '|', ' ']);
    let mut out = String::new();
    append_thrice(&mut out, record.course_id.as_str());
    out.append(" | ");
    append_thrice(&mut out, record.name.as_str());
    out.append(" | ");
    out.append(record.desc.as_str());
    assert(out@ =~= composed(record@));
    out
}

/// The corpus of a table of records.
pub fn compose_corpus(records: &[SourceRecord]) -> (out: Vec<Document>)
    ensures
        crate::model::corpus_view(out@) == corpus_of_records(record_views(records@)),
{
    let mut out: Vec<Document> = Vec::new();
    let mut i: usize = 0;
    while i < records.len()
        invariant
            i <= records@.len(),
            out@.len() == i,
            forall|j: int|
                0 <= j < i ==> (#[trigger] out@[j])@ == (DocumentView {
                    id: (j % 0x1_0000_0000) as u32,
                    contents: composed(records@[j]@),
                }),
        decreases records@.len() - i,
    {
        let id: u32 = ((i as u64) % 0x1_0000_0000) as u32;
        out.push(Document { id, contents: compose_record(&records[i]) });
        i += 1;
    }
    assert(crate::model::corpus_view(out@) =~= corpus_of_records(record_views(records@)));
    out
}

} // verus!
