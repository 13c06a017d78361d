//! The items file of a project: one CSV record per item, its name and its
//! rating written as text. The CSV syntax is the `csv` crate's.
use vstd::prelude::*;

verus! {

/// The records the `csv` crate reads from `bytes` with no header line, each
/// as the text of its fields; `None` where it refuses the bytes.
pub uninterp spec fn csv_records(bytes: Seq<u8>) -> Option<Seq<Seq<Seq<char>>>>;

/// The bytes the `csv` crate writes for `records`, one line per record.
pub uninterp spec fn csv_bytes(records: Seq<Seq<Seq<char>>>) -> Option<Seq<u8>>;

/// The text of every field of every record.
pub open spec fn records_view(rs: Seq<Vec<String>>) -> Seq<Seq<Seq<char>>> {
    rs.map_values(|r: Vec<String>| r@.map_values(|f: String| f@))
}

/// Reads CSV records with `csv::ReaderBuilder` (no header line) and
/// `StringRecord`. Claimed: the result is the crate's reading of the bytes,
/// the same for the same bytes; `None` when the crate reports an error.
#[verifier::external_body]
fn read_csv_records(bytes: &[u8]) -> (records: Option<Vec<Vec<String>>>)
    ensures
        match records {
            Some(r) => csv_records(bytes@) == Some(records_view(r@)),
            None => csv_records(bytes@) is None,
        },
{
    let mut reader = csv::ReaderBuilder::new().has_headers(false).from_reader(bytes);
    let mut out = Vec::new();
    for record in reader.records() {
        match record {
            Ok(r) => out.push(r.iter().map(|f| f.to_string()).collect()),
            Err(_) => return None,
        }
    }
    Some(out)
}

/// Writes CSV records with `csv::WriterBuilder` (no header line) into memory.
/// Claimed: the result is the crate's writing of the records, the same for the
/// same records; `None` when the crate reports an error.
#[verifier::external_body]
fn write_csv_records(records: &Vec<Vec<String>>) -> (bytes: Option<Vec<u8>>)
    ensures
        match bytes {
            Some(b) => csv_bytes(records_view(records@)) == Some(b@),
            None => csv_bytes(records_view(records@)) is None,
        },
{
    let mut writer = csv::WriterBuilder::new().has_headers(false).from_writer(Vec::new());
    for record in records {
        if writer.write_record(record).is_err() {
            return None;
        }
    }
    writer.into_inner().ok()
}

/// Why the items file could not be read.
#[derive(Debug, Clone, Copy, PartialEq, Eq)]
pub enum ItemsError {
    /// The bytes are not CSV as the `csv` crate reads it.
    Malformed,
    /// A record has fewer than two fields.
    ShortRecord,
}

/// The name and rating text of each record: its first two fields.
/// `ShortRecord` when some record has fewer than two fields.
pub fn item_fields(records: &Vec<Vec<String>>) -> (items: Result<Vec<(String, String)>, ItemsError>)
    ensures
        match items {
            Ok(v) => (forall|i: int| 0 <= i < records@.len() ==> (#[trigger] records@[i])@.len() >= 2)
                && v@.len() == records@.len() && forall|i: int| 0 <= i < v@.len() ==> #[trigger] v@[i] == (
            records@[i]@[0], records@[i]@[1]),
            Err(e) => e == ItemsError::ShortRecord && exists|i: int| 0 <= i < records@.len() && (
            #[trigger] records@[i])@.len() < 2,
        },
{
    let mut out: Vec<(String, String)> = Vec::new();
    let mut i: usize = 0;
    while i < records.len()
        invariant
            i <= records@.len(),
            out@.len() == i,
            forall|j: int| 0 <= j < i ==> (#[trigger] records@[j])@.len() >= 2,
            forall|j: int| 0 <= j < i ==> #[trigger] out@[j] == (records@[j]@[0], records@[j]@[1]),
        decreases records@.len() - i,
    {
        let r = &records[i];
        if r.len() < 2 {
            return Err(ItemsError::ShortRecord);
        }
        out.push((r[0].clone(), r[1].clone()));
        i = i + 1;
    }
    Ok(out)
}

/// The name and rating text of each item in the bytes of an items file.
pub fn read_item_fields(bytes: &[u8]) -> (items: Result<Vec<(String, String)>, ItemsError>)
    ensures
        match csv_records(bytes@) {
            None => items == Err::<Vec<(String, String)>, ItemsError>(ItemsError::Malformed),
            Some(rs) => match items {
                Ok(v) => v@.len() == rs.len() && forall|i: int| 0 <= i < rs.len() ==> (#[trigger] rs[i]).len() >= 2
                    && v@[i].0@ == rs[i][0] && v@[i].1@ == rs[i][1],
                Err(e) => e == ItemsError::ShortRecord && exists|i: int| 0 <= i < rs.len() && (#[trigger] rs[i]).len() < 2,
            },
        },
{
    match read_csv_records(bytes) {
        None => Err(ItemsError::Malformed),
        Some(records) => {
            let r = item_fields(&records);
            proof {
                let rs = records_view(records@);
                match &r {
                    Ok(v) => {
                        assert forall|i: int| 0 <= i < rs.len() implies (#[trigger] rs[i]).len() >= 2
                            && v@[i].0@ == rs[i][0] && v@[i].1@ == rs[i][1] by {
                            assert(rs[i] == records@[i]@.map_values(|f: String| f@));
                            assert(records@[i]@.len() >= 2);
                            assert(v@[i] == (records@[i]@[0], records@[i]@[1]));
                        }
                    },
                    Err(_) => {
                        let i = choose|i: int| 0 <= i < records@.len() && (#[trigger] records@[i])@.len() < 2;
                        assert(rs[i] == records@[i]@.map_values(|f: String| f@));
                    },
                }
            }
            r
        },
    }
}

/// The bytes of an items file holding each item's name and rating text,
/// one record of two fields per item; `None` when the `csv` crate fails.
pub fn item_file_bytes(items: &Vec<(String, String)>) -> (bytes: Option<Vec<u8>>)
    ensures
        match bytes {
            Some(b) => csv_bytes(Seq::new(items@.len(), |i: int| seq![items@[i].0@, items@[i].1@]))
                == Some(b@),
            None => csv_bytes(Seq::new(items@.len(), |i: int| seq![items@[i].0@, items@[i].1@]))
                is None,
        },
{
    let mut records: Vec<Vec<String>> = Vec::new();
    let mut i: usize = 0;
    while i < items.len()
        invariant
            i <= items@.len(),
            records@.len() == i,
            forall|j: int| 0 <= j < i ==> (#[trigger] records@[j])@ == seq![items@[j].0, items@[j].1],
        decreases items@.len() - i,
    {
        let mut r: Vec<String> = Vec::new();
        r.push(items[i].0.clone());
        r.push(items[i].1.clone());
        records.push(r);
        i = i + 1;
    }
    proof {
        let want = Seq::new(items@.len(), |i: int| seq![items@[i].0@, items@[i].1@]);
        assert forall|j: int| 0 <= j < items@.len() implies #[trigger] records_view(records@)[j] == want[j] by {
            assert(records_view(records@)[j] =~= want[j]);
        }
        assert(records_view(records@) =~= want);
    }
    write_csv_records(&records)
}

} // verus!
