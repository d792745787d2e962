//! The CSV side of the task list: the records of the export and the plan of
//! an import. Encoding and decoding the CSV text itself is done by the `csv`
//! crate.

use vstd::prelude::*;
use crate::model::{Task, TaskStore, index_of, find_index, ids_unique};
use crate::text::{int_chars, int_to_string};

verus! {

/// What the `csv` crate writes for `records` (one line per record, fields
/// separated by commas, quoted where needed), or `None` when it refuses them.
pub uninterp spec fn csv_encoding(records: Seq<Seq<Seq<char>>>) -> Option<Seq<u8>>;

/// What the `csv` crate reads from `data` with headers on and flexible
/// record lengths: the records after the header line that it reads before
/// its first error, and whether it stopped on an error.
pub uninterp spec fn csv_decoding(data: Seq<u8>) -> (Seq<Seq<Seq<char>>>, bool);

/// All records have the same number of fields.
pub open spec fn same_lengths(records: Seq<Seq<Seq<char>>>) -> bool {
    forall|i: int, j: int|
        0 <= i < records.len() && 0 <= j < records.len() ==> #[trigger] records[i].len()
            == #[trigger] records[j].len()
}

/// Writes `records` with a `csv::Writer` (default settings) into memory.
/// The writer refuses a record whose length differs from the first one's;
/// writing into a `Vec<u8>` does not fail otherwise, so equal lengths give
/// bytes.
#[verifier::external_body]
fn csv_write(records: &Vec<Vec<String>>) -> (r: Option<Vec<u8>>)
    ensures
        r matches Some(b) ==> csv_encoding(records.deep_view()) == Some(b@),
        r is None ==> csv_encoding(records.deep_view()) is None,
        same_lengths(records.deep_view()) ==> r is Some,
{
    let mut w = csv::WriterBuilder::new().from_writer(Vec::new());
    for rec in records.iter() {
        if w.write_record(rec).is_err() {
            return None;
        }
    }
    w.into_inner().ok()
}

/// Reads `data` with a `csv::Reader` (headers on, flexible lengths). The
/// second part is the reader's error message when it stopped on an error;
/// the text of the message is not stated.
#[verifier::external_body]
fn csv_read(data: &[u8]) -> (r: (Vec<Vec<String>>, Option<String>))
    ensures
        r.0.deep_view() == csv_decoding(data@).0,
        r.1 is Some == csv_decoding(data@).1,
{
    let mut rdr = csv::ReaderBuilder::new().flexible(true).from_reader(data);
    let mut out: Vec<Vec<String>> = Vec::new();
    for rec in rdr.records() {
        match rec {
            Ok(r) => out.push(r.iter().map(|f| f.to_string()).collect()),
            Err(e) => return (out, Some(e.to_string())),
        }
    }
    (out, None)
}

/// The text of an optional column, empty when absent.
pub open spec fn opt_text(o: Option<String>) -> Seq<char> {
    match o {
        Some(x) => x@,
        None => seq![],
    }
}

/// The title of the parent of `t`, empty when it has none or the parent is
/// not in the table (`LEFT JOIN tasks p ON t.parent_id = p.id`).
pub open spec fn parent_title(s: Seq<Task>, t: Task) -> Seq<char> {
    match t.parent_id {
        Some(pid) => match index_of(s, pid) {
            Some(i) => s[i].title@,
            None => seq![],
        },
        None => seq![],
    }
}

/// The header record of the export.
pub open spec fn export_header() -> Seq<Seq<char>> {
    seq!["title"@, "parent_title"@, "priority"@, "deadline"@, "completed"@]
}

/// The export record of one task.
pub open spec fn export_record(s: Seq<Task>, t: Task) -> Seq<Seq<char>> {
    seq![t.title@, parent_title(s, t), opt_text(t.priority), opt_text(t.deadline), int_chars(t.completed as int)]
}

/// The records of the CSV export: the header, then one record per task in
/// table order.
pub open spec fn export_records(s: Seq<Task>) -> Seq<Seq<Seq<char>>> {
    seq![export_header()] + Seq::new(s.len(), |i: int| export_record(s, s[i]))
}

/// Law of the CSV export: a header `title,parent_title,priority,deadline,
/// completed`, then exactly one five-field record per task, in table order,
/// whose fields are, in order, the task's title, its parent's title (empty
/// when it has no parent or the parent is not in the table), its priority
/// and its deadline (each empty when absent), and its completion flag in
/// decimal.
pub proof fn lemma_export_columns(s: Seq<Task>, i: int)
    requires
        ids_unique(s),
        0 <= i < s.len(),
    ensures
        export_records(s).len() == s.len() + 1,
        export_records(s)[0] == seq!["title"@, "parent_title"@, "priority"@, "deadline"@, "completed"@],
        export_records(s)[i + 1].len() == 5,
        export_records(s)[i + 1][0] == s[i].title@,
        forall|j: int| 0 <= j < s.len() && s[i].parent_id == Some(#[trigger] s[j].id) ==> export_records(s)[i + 1][1]
            == s[j].title@,
        (s[i].parent_id is None || (forall|j: int| 0 <= j < s.len() ==> Some(#[trigger] s[j].id) != s[i].parent_id))
            ==> export_records(s)[i + 1][1].len() == 0,
        s[i].priority matches Some(p) ==> export_records(s)[i + 1][2] == p@,
        s[i].priority is None ==> export_records(s)[i + 1][2].len() == 0,
        s[i].deadline matches Some(d) ==> export_records(s)[i + 1][3] == d@,
        s[i].deadline is None ==> export_records(s)[i + 1][3].len() == 0,
        export_records(s)[i + 1][4] == int_chars(s[i].completed as int),
        s[i].completed == 0 ==> export_records(s)[i + 1][4] == seq!['0'],
        s[i].completed == 1 ==> export_records(s)[i + 1][4] == seq!['1'],
{
    let r = export_records(s)[i + 1];
    assert(r == export_record(s, s[i]));
    assert forall|j: int| 0 <= j < s.len() && s[i].parent_id == Some(#[trigger] s[j].id) implies r[1] == s[j].title@ by {
        let pid = s[j].id;
        assert(exists|k: int| 0 <= k < s.len() && s[k].id == pid);
        let c = choose|k: int| 0 <= k < s.len() && s[k].id == pid;
        assert(c == j);
        assert(index_of(s, pid) == Some(j));
    }
    if s[i].parent_id is Some {
        let pid = s[i].parent_id.unwrap();
        if forall|j: int| 0 <= j < s.len() ==> Some(#[trigger] s[j].id) != s[i].parent_id {
            assert(!(exists|k: int| 0 <= k < s.len() && s[k].id == pid)) by {
                if exists|k: int| 0 <= k < s.len() && s[k].id == pid {
                    let k = choose|k: int| 0 <= k < s.len() && s[k].id == pid;
                    assert(Some(s[k].id) == s[i].parent_id);
                }
            }
        }
    }
}

fn opt_to_string(o: &Option<String>) -> (r: String)
    ensures
        r@ == opt_text(*o),
{
    match o {
        Some(x) => x.clone(),
        None => String::new(),
    }
}

/// The records of the CSV export of the table.
pub fn export_csv_records(store: &TaskStore) -> (r: Vec<Vec<String>>)
    ensures
        r.deep_view() == export_records(store@),
{
    let tasks = store.tasks();
    let mut out: Vec<Vec<String>> = Vec::new();
    let mut header: Vec<String> = Vec::new();
    header.push("title".to_owned());
    header.push("parent_title".to_owned());
    header.push("priority".to_owned());
    header.push("deadline".to_owned());
    header.push("completed".to_owned());
    assert(header.deep_view() =~= export_header());
    out.push(header);
    let n = tasks.len();
    let mut i: usize = 0;
    while i < n
        invariant
            n == tasks@.len(),
            tasks@ == store@,
            ids_unique(store@),
            i <= n,
            out.deep_view() =~= seq![export_header()] + Seq::new(i as nat, |k: int| export_record(store@, store@[k])),
        decreases n - i,
    {
        let t = &tasks[i];
        let ptitle = match t.parent_id {
            Some(pid) => match find_index(tasks, pid) {
                Some(j) => tasks[j].title.clone(),
                None => String::new(),
            },
            None => String::new(),
        };
        let mut rec: Vec<String> = Vec::new();
        rec.push(t.title.clone());
        rec.push(ptitle);
        rec.push(opt_to_string(&t.priority));
        rec.push(opt_to_string(&t.deadline));
        rec.push(int_to_string(t.completed));
        assert(rec.deep_view() =~= export_record(store@, store@[i as int]));
        let ghost before = out.deep_view();
        out.push(rec);
        i = i + 1;
        assert(out.deep_view() =~= before.push(export_record(store@, store@[i - 1])));
        assert(out.deep_view() =~= seq![export_header()] + Seq::new(i as nat, |k: int| export_record(store@, store@[k])));
    }
    out
}

/// The bytes of the CSV export of the table. Every record has five fields,
/// so the writer always produces them.
pub fn export_csv_bytes(store: &TaskStore) -> (r: Vec<u8>)
    ensures
        csv_encoding(export_records(store@)) == Some(r@),
{
    let recs = export_csv_records(store);
    assert forall|i: int, j: int|
        0 <= i < recs.deep_view().len() && 0 <= j < recs.deep_view().len() implies #[trigger] recs.deep_view()[i].len()
            == #[trigger] recs.deep_view()[j].len() by {
        assert(recs.deep_view()[i].len() == 5);
        assert(recs.deep_view()[j].len() == 5);
    }
    match csv_write(&recs) {
        Some(b) => b,
        None => Vec::new(),
    }
}

/// One task to insert on a CSV import: its title, and the title of the task
/// to look up as its parent.
pub struct CsvImportRow {
    pub title: String,
    pub parent_title: Option<String>,
}

/// The plan entry of one record: records with no first field, or an empty
/// one, are skipped; an empty second field means no parent.
pub open spec fn import_entry(r: Seq<Seq<char>>) -> Option<(Seq<char>, Option<Seq<char>>)> {
    if r.len() > 0 && r[0].len() > 0 {
        Some((r[0], if r.len() > 1 && r[1].len() > 0 { Some(r[1]) } else { None }))
    } else {
        None
    }
}

/// The import plan of a sequence of records, in record order.
pub open spec fn import_plan(records: Seq<Seq<Seq<char>>>) -> Seq<(Seq<char>, Option<Seq<char>>)>
    decreases records.len(),
{
    if records.len() == 0 {
        seq![]
    } else {
        import_plan(records.drop_last()) + match import_entry(records.last()) {
            Some(e) => seq![e],
            None => seq![],
        }
    }
}

/// Plan entry `e` comes from a record of `records` whose first field is not
/// empty: `e` is that field as title, and the second field as parent title
/// when there is a non-empty one.
pub open spec fn entry_from_record(records: Seq<Seq<Seq<char>>>, e: (Seq<char>, Option<Seq<char>>)) -> bool {
    exists|i: int|
        0 <= i < records.len() && (#[trigger] records[i]).len() > 0 && records[i][0].len() > 0 && e.0
            == records[i][0] && (if records[i].len() > 1 && records[i][1].len() > 0 {
            e.1 == Some(records[i][1])
        } else {
            e.1 is None
        })
}

/// Law of the CSV import plan: every planned task comes from a record with
/// a non-empty first field, titled by it and placed under the title in its
/// second field when that is not empty; every such record is planned; no
/// other record is.
pub proof fn lemma_import_plan_exact(records: Seq<Seq<Seq<char>>>)
    ensures
        forall|k: int|
            0 <= k < import_plan(records).len() ==> entry_from_record(records, #[trigger] import_plan(records)[k]),
        forall|i: int|
            0 <= i < records.len() && (#[trigger] records[i]).len() > 0 && records[i][0].len() > 0 ==> exists|k: int|
                0 <= k < import_plan(records).len() && import_plan(records)[k].0 == records[i][0],
        import_plan(records).len() <= records.len(),
    decreases records.len(),
{
    if records.len() > 0 {
        let t = records.drop_last();
        lemma_import_plan_exact(t);
        let d = import_plan(t);
        let last = records.last();
        let tail: Seq<(Seq<char>, Option<Seq<char>>)> = match import_entry(last) {
            Some(e) => seq![e],
            None => seq![],
        };
        let r = import_plan(records);
        assert(r == d + tail);
        assert forall|k: int| 0 <= k < r.len() implies entry_from_record(records, #[trigger] r[k]) by {
            if k < d.len() {
                assert(r[k] == d[k]);
                assert(entry_from_record(t, d[k]));
                let i = choose|i: int|
                    0 <= i < t.len() && (#[trigger] t[i]).len() > 0 && t[i][0].len() > 0 && d[k].0 == t[i][0] && (if t[i].len()
                        > 1 && t[i][1].len() > 0 {
                        d[k].1 == Some(t[i][1])
                    } else {
                        d[k].1 is None
                    });
                assert(records[i] == t[i]);
            } else {
                assert(records[records.len() - 1] == last);
                assert(r[k] == import_entry(last).unwrap());
            }
        }
        assert forall|i: int| 0 <= i < records.len() && (#[trigger] records[i]).len() > 0 && records[i][0].len() > 0 implies exists|k: int|
            0 <= k < r.len() && r[k].0 == records[i][0] by {
            if i < records.len() - 1 {
                assert(t[i] == records[i]);
                let k = choose|k: int| 0 <= k < d.len() && d[k].0 == t[i][0];
                assert(r[k] == d[k]);
            } else {
                assert(records[i] == last);
                assert(r[d.len() as int] == import_entry(last).unwrap());
            }
        }
    }
}

/// The view of a plan row.
pub open spec fn plan_row_view(r: CsvImportRow) -> (Seq<char>, Option<Seq<char>>) {
    (r.title@, match r.parent_title { Some(p) => Some(p@), None => None })
}

/// The import plan of decoded CSV records.
pub fn import_plan_of_records(records: &Vec<Vec<String>>) -> (r: Vec<CsvImportRow>)
    ensures
        r@.map_values(|x: CsvImportRow| plan_row_view(x)) == import_plan(records.deep_view()),
{
    let n = records.len();
    let mut out: Vec<CsvImportRow> = Vec::new();
    let mut i: usize = 0;
    while i < n
        invariant
            n == records@.len(),
            i <= n,
            out@.map_values(|x: CsvImportRow| plan_row_view(x)) == import_plan(records.deep_view().take(i as int)),
        decreases n - i,
    {
        let rec = &records[i];
        let ghost before = out@.map_values(|x: CsvImportRow| plan_row_view(x));
        assert(records.deep_view().take(i + 1).drop_last() =~= records.deep_view().take(i as int));
        assert(records.deep_view().take(i + 1).last() == rec.deep_view());
        if rec.len() > 0 && rec[0].unicode_len() > 0 {
            let parent = if rec.len() > 1 && rec[1].unicode_len() > 0 {
                Some(rec[1].clone())
            } else {
                None
            };
            out.push(CsvImportRow { title: rec[0].clone(), parent_title: parent });
            assert(out@.map_values(|x: CsvImportRow| plan_row_view(x)) =~= before.push(
                import_entry(rec.deep_view()).unwrap(),
            ));
        } else {
            assert(out@.map_values(|x: CsvImportRow| plan_row_view(x)) =~= before);
        }
        i = i + 1;
    }
    assert(records.deep_view().take(n as int) =~= records.deep_view());
    out
}

/// Decodes CSV bytes and plans their import: the plan of the records read
/// before the reader's first error, and that error's message if it stopped
/// on one.
pub fn import_csv_plan(data: &[u8]) -> (r: (Vec<CsvImportRow>, Option<String>))
    ensures
        r.0@.map_values(|x: CsvImportRow| plan_row_view(x)) == import_plan(csv_decoding(data@).0),
        r.1 is Some == csv_decoding(data@).1,
{
    let (records, err) = csv_read(data);
    let plan = import_plan_of_records(&records);
    (plan, err)
}


/// What re-importing the first `k` tasks of an export plans: each task with
/// a non-empty title, in table order, under the title of its parent when
/// that title is not empty.
pub open spec fn reimport(s: Seq<Task>, k: int) -> Seq<(Seq<char>, Option<Seq<char>>)>
    decreases k,
{
    if k <= 0 {
        seq![]
    } else {
        let t = s[k - 1];
        reimport(s, k - 1) + if t.title@.len() > 0 {
            seq![(t.title@, if parent_title(s, t).len() > 0 { Some(parent_title(s, t)) } else { None })]
        } else {
            seq![]
        }
    }
}

/// Law of the CSV formats: the records of an export, read back after their
/// header line, plan every task that has a title, under its parent's title.
pub proof fn lemma_export_reimport(s: Seq<Task>)
    ensures
        import_plan(export_records(s).drop_first()) == reimport(s, s.len() as int),
{
    let body = export_records(s).drop_first();
    assert(body =~= Seq::new(s.len(), |i: int| export_record(s, s[i])));
    lemma_export_reimport_prefix(s, s.len() as int);
    assert(body.take(s.len() as int) =~= body);
}

proof fn lemma_export_reimport_prefix(s: Seq<Task>, k: int)
    requires
        0 <= k <= s.len(),
    ensures
        import_plan(Seq::new(s.len(), |i: int| export_record(s, s[i])).take(k)) == reimport(s, k),
    decreases k,
{
    let body = Seq::new(s.len(), |i: int| export_record(s, s[i]));
    if k > 0 {
        lemma_export_reimport_prefix(s, k - 1);
        assert(body.take(k).drop_last() =~= body.take(k - 1));
        assert(body.take(k).last() == export_record(s, s[k - 1]));
    } else {
        assert(body.take(0) =~= Seq::<Seq<Seq<char>>>::empty());
    }
}

} // verus!
