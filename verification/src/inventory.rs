//! Reading the Windows process inventory: the JSON that PowerShell prints for
//! `Get-CimInstance Win32_Process | Select-Object ProcessId,ParentProcessId,Name,CommandLine,WorkingSetSize | ConvertTo-Json -Compress`.
use vstd::prelude::*;
use serde_json::Value;
use crate::process::ProcessInfo;
use crate::session::opt_view;
use crate::snapshot::{is_windows_process, windows_process};
use crate::text::str_equal;

verus! {

/// The fields of one entry of the inventory, each missing when the entry lacks it or it has
/// another JSON type: `ProcessId` and `ParentProcessId` as integers that fit in an `i64`,
/// `Name` and `CommandLine` as strings, and `WorkingSetSize` as the text of its number.
#[derive(Debug)]
pub struct InventoryRow {
    pub pid: Option<i64>,
    pub ppid: Option<i64>,
    pub name: Option<String>,
    pub command_line: Option<String>,
    pub working_set: Option<String>,
}

/// An inventory entry as plain values.
pub open spec fn row_view(r: InventoryRow) -> (
    Option<i64>,
    Option<i64>,
    Option<Seq<char>>,
    Option<Seq<char>>,
    Option<Seq<char>>,
) {
    (r.pid, r.ppid, opt_view(r.name), opt_view(r.command_line), opt_view(r.working_set))
}

/// A member value of a JSON object, as far as the inventory reads it: a number (the integer it
/// is, when it is one that fits in an `i64`, and its text), a string, or anything else.
#[derive(Debug)]
pub enum JsonField {
    Number(Option<i64>, String),
    Text(String),
    Other,
}

/// A JSON document, as far as the inventory reads it: an array (each element's members, when
/// it is an object), a single object's members, or anything else (including no valid JSON).
#[derive(Debug)]
pub enum JsonDocument {
    Array(Vec<Option<Vec<(String, JsonField)>>>),
    Object(Vec<(String, JsonField)>),
    Other,
}

/// A `JsonField` as plain values.
pub enum FieldView {
    Number(Option<i64>, Seq<char>),
    Text(Seq<char>),
    Other,
}

/// A `JsonDocument` as plain values.
pub enum DocumentView {
    Array(Seq<Option<Seq<(Seq<char>, FieldView)>>>),
    Object(Seq<(Seq<char>, FieldView)>),
    Other,
}

impl View for JsonField {
    type V = FieldView;

    open spec fn view(&self) -> FieldView {
        match self {
            JsonField::Number(i, t) => FieldView::Number(*i, t@),
            JsonField::Text(t) => FieldView::Text(t@),
            JsonField::Other => FieldView::Other,
        }
    }
}

/// The members of an object as plain values.
pub open spec fn members_view(m: Seq<(String, JsonField)>) -> Seq<(Seq<char>, FieldView)> {
    m.map_values(|p: (String, JsonField)| (p.0@, p.1@))
}

/// An optional object as plain values.
pub open spec fn entry_view(e: Option<Vec<(String, JsonField)>>) -> Option<Seq<(Seq<char>, FieldView)>> {
    match e {
        Some(m) => Some(members_view(m@)),
        None => None,
    }
}

impl View for JsonDocument {
    type V = DocumentView;

    open spec fn view(&self) -> DocumentView {
        match self {
            JsonDocument::Array(a) => DocumentView::Array(
                a@.map_values(|e: Option<Vec<(String, JsonField)>>| entry_view(e)),
            ),
            JsonDocument::Object(m) => DocumentView::Object(members_view(m@)),
            JsonDocument::Other => DocumentView::Other,
        }
    }
}

/// The document that `serde_json` reads from the bytes.
pub uninterp spec fn json_document_of(json: Seq<u8>) -> DocumentView;

/// `serde_json::from_slice` into a `serde_json::Value`, converted one for one into a
/// `JsonDocument` (object members in the order `serde_json::Map` walks them; numbers by
/// `Number::as_i64` and their `Display` text). Claimed: the document is a function of the bytes
/// alone, named `json_document_of`; what it is (JSON syntax) is not stated.
#[verifier::external_body]
fn parse_json_document(json: &[u8]) -> (r: JsonDocument)
    ensures
        r@ == json_document_of(json@),
{
    let members = |m: &serde_json::Map<String, Value>| m.iter().map(|(k, v)| (k.clone(), match v {
        Value::Number(n) => JsonField::Number(n.as_i64(), n.to_string()),
        Value::String(t) => JsonField::Text(t.clone()),
        _ => JsonField::Other,
    })).collect::<Vec<_>>();
    match serde_json::from_slice::<Value>(json) {
        Ok(Value::Array(a)) => JsonDocument::Array(a.iter().map(|v| v.as_object().map(members)).collect()),
        Ok(Value::Object(o)) => JsonDocument::Object(members(&o)),
        _ => JsonDocument::Other,
    }
}

/// The value of the first member named `key` at or after position `i`.
pub open spec fn field_from(m: Seq<(Seq<char>, FieldView)>, key: Seq<char>, i: int) -> Option<FieldView>
    decreases m.len() - i,
{
    if i < 0 || i >= m.len() {
        None
    } else if m[i].0 == key {
        Some(m[i].1)
    } else {
        field_from(m, key, i + 1)
    }
}

/// The value of the member named `key` (the first one, should there be several).
pub open spec fn field_of(m: Seq<(Seq<char>, FieldView)>, key: Seq<char>) -> Option<FieldView> {
    field_from(m, key, 0)
}

/// The integer of a member that is a number fitting in an `i64`.
pub open spec fn int_field(f: Option<FieldView>) -> Option<i64> {
    match f {
        Some(FieldView::Number(i, _)) => i,
        _ => None,
    }
}

/// The text of a member that is a string.
pub open spec fn text_field(f: Option<FieldView>) -> Option<Seq<char>> {
    match f {
        Some(FieldView::Text(t)) => Some(t),
        _ => None,
    }
}

/// The text of a member that is a number.
pub open spec fn number_text_field(f: Option<FieldView>) -> Option<Seq<char>> {
    match f {
        Some(FieldView::Number(_, t)) => Some(t),
        _ => None,
    }
}

/// The inventory entry an object describes: `ProcessId` and `ParentProcessId` as integers,
/// `Name` and `CommandLine` as strings, `WorkingSetSize` as the text of a number.
pub open spec fn row_of_members(m: Seq<(Seq<char>, FieldView)>) -> (
    Option<i64>,
    Option<i64>,
    Option<Seq<char>>,
    Option<Seq<char>>,
    Option<Seq<char>>,
) {
    (
        int_field(field_of(m, "ProcessId"@)),
        int_field(field_of(m, "ParentProcessId"@)),
        text_field(field_of(m, "Name"@)),
        text_field(field_of(m, "CommandLine"@)),
        number_text_field(field_of(m, "WorkingSetSize"@)),
    )
}

/// The inventory entries of a document: one per element of an array (an element that is not an
/// object has no fields), the one entry of a single object, and none for anything else.
pub open spec fn rows_of_document(d: DocumentView) -> Seq<
    (Option<i64>, Option<i64>, Option<Seq<char>>, Option<Seq<char>>, Option<Seq<char>>),
> {
    match d {
        DocumentView::Array(es) => es.map_values(
            |e: Option<Seq<(Seq<char>, FieldView)>>|
                match e {
                    Some(m) => row_of_members(m),
                    None => (None, None, None, None, None),
                },
        ),
        DocumentView::Object(m) => seq![row_of_members(m)],
        DocumentView::Other => seq![],
    }
}

/// The value of the member named `key`.
fn find_field<'a>(m: &'a Vec<(String, JsonField)>, key: &str) -> (r: Option<&'a JsonField>)
    ensures
        match r {
            Some(f) => field_of(members_view(m@), key@) == Some(f@),
            None => field_of(members_view(m@), key@) is None,
        },
{
    let ghost mv = members_view(m@);
    let mut i: usize = 0;
    while i < m.len()
        invariant
            i <= m.len(),
            mv == members_view(m@),
            field_from(mv, key@, i as int) == field_from(mv, key@, 0),
        decreases m.len() - i,
    {
        if str_equal(m[i].0.as_str(), key) {
            return Some(&m[i].1);
        }
        i = i + 1;
    }
    None
}

fn int_of(f: Option<&JsonField>) -> (r: Option<i64>)
    ensures
        r == int_field(match f {
            Some(x) => Some(x@),
            None => None,
        }),
{
    match f {
        Some(JsonField::Number(i, _)) => *i,
        _ => None,
    }
}

fn text_of(f: Option<&JsonField>) -> (r: Option<String>)
    ensures
        opt_view(r) == text_field(match f {
            Some(x) => Some(x@),
            None => None,
        }),
{
    match f {
        Some(JsonField::Text(t)) => Some(t.clone()),
        _ => None,
    }
}

fn number_text_of(f: Option<&JsonField>) -> (r: Option<String>)
    ensures
        opt_view(r) == number_text_field(match f {
            Some(x) => Some(x@),
            None => None,
        }),
{
    match f {
        Some(JsonField::Number(_, t)) => Some(t.clone()),
        _ => None,
    }
}

/// The inventory entry that an object's members describe.
fn row_of(m: &Vec<(String, JsonField)>) -> (r: InventoryRow)
    ensures
        row_view(r) == row_of_members(members_view(m@)),
{
    InventoryRow {
        pid: int_of(find_field(m, "ProcessId")),
        ppid: int_of(find_field(m, "ParentProcessId")),
        name: text_of(find_field(m, "Name")),
        command_line: text_of(find_field(m, "CommandLine")),
        working_set: number_text_of(find_field(m, "WorkingSetSize")),
    }
}

/// The inventory entries of a JSON document (see `rows_of_document`).
pub fn inventory_rows(doc: &JsonDocument) -> (r: Vec<InventoryRow>)
    ensures
        r@.map_values(|x: InventoryRow| row_view(x)) == rows_of_document(doc@),
{
    match doc {
        JsonDocument::Array(es) => {
            let ghost ev = es@.map_values(|e: Option<Vec<(String, JsonField)>>| entry_view(e));
            let mut out: Vec<InventoryRow> = Vec::new();
            let mut i: usize = 0;
            while i < es.len()
                invariant
                    i <= es.len(),
                    ev == es@.map_values(|e: Option<Vec<(String, JsonField)>>| entry_view(e)),
                    out@.map_values(|x: InventoryRow| row_view(x)) == rows_of_document(
                        DocumentView::Array(ev.take(i as int)),
                    ),
                decreases es.len() - i,
            {
                let row = match &es[i] {
                    Some(m) => row_of(m),
                    None => InventoryRow { pid: None, ppid: None, name: None, command_line: None, working_set: None },
                };
                proof {
                    assert(ev[i as int] == entry_view(es@[i as int]));
                    assert(row_view(row) == rows_of_document(DocumentView::Array(ev.take(i + 1)))[i as int]);
                }
                let ghost before = out@;
                proof {
                    let had = rows_of_document(DocumentView::Array(ev.take(i as int)));
                    assert(ev.take(i as int).len() == i);
                    assert(before.map_values(|x: InventoryRow| row_view(x)).len() == before.len());
                    assert(before.len() == i);
                }
                out.push(row);
                proof {
                    let got = out@.map_values(|x: InventoryRow| row_view(x));
                    let want = rows_of_document(DocumentView::Array(ev.take(i + 1)));
                    let had = rows_of_document(DocumentView::Array(ev.take(i as int)));
                    assert forall|j: int| 0 <= j < i implies got[j] == want[j] by {
                        assert(out@[j] == before[j]);
                        assert(got[j] == row_view(before[j]));
                        assert(before.map_values(|x: InventoryRow| row_view(x))[j] == had[j]);
                        assert(ev.take(i as int)[j] == ev.take(i + 1)[j]);
                    }
                    assert(got =~= want);
                }
                i = i + 1;
            }
            assert(ev.take(es.len() as int) =~= ev);
            out
        },
        JsonDocument::Object(m) => {
            let row = row_of(m);
            let out = vec![row];
            assert(out@.map_values(|x: InventoryRow| row_view(x)) =~= seq![row_view(row)]);
            out
        },
        JsonDocument::Other => {
            let out: Vec<InventoryRow> = Vec::new();
            assert(out@.map_values(|x: InventoryRow| row_view(x)) =~= seq![]);
            out
        },
    }
}

/// The entries that have a process id, in order.
pub open spec fn with_pid(
    rows: Seq<(Option<i64>, Option<i64>, Option<Seq<char>>, Option<Seq<char>>, Option<Seq<char>>)>,
) -> Seq<(Option<i64>, Option<i64>, Option<Seq<char>>, Option<Seq<char>>, Option<Seq<char>>)>
    decreases rows.len(),
{
    if rows.len() == 0 {
        seq![]
    } else if rows.last().0 is Some {
        with_pid(rows.drop_last()).push(rows.last())
    } else {
        with_pid(rows.drop_last())
    }
}

/// `r` holds, for each entry with a process id and in the entries' order, the process it
/// describes and the text of its working set.
pub open spec fn inventory_processes(
    rows: Seq<(Option<i64>, Option<i64>, Option<Seq<char>>, Option<Seq<char>>, Option<Seq<char>>)>,
    r: Seq<(ProcessInfo, Option<String>)>,
) -> bool {
    let k = with_pid(rows);
    &&& r.len() == k.len()
    &&& forall|i: int| #![trigger r[i]]
        0 <= i < r.len() ==> {
            &&& k[i].0 matches Some(pid)
            &&& is_windows_process(pid, k[i].1, k[i].2, k[i].3, r[i].0)
            &&& opt_view(r[i].1) == k[i].4
        }
}

fn copy_text(o: &Option<String>) -> (r: Option<String>)
    ensures
        opt_view(r) == opt_view(*o),
{
    match o {
        Some(s) => Some(s.clone()),
        None => None,
    }
}

/// The processes that inventory entries describe: every entry with a process id, in order,
/// with the text of its working set; entries without one are skipped.
pub fn windows_processes(rows: &Vec<InventoryRow>) -> (r: Vec<(ProcessInfo, Option<String>)>)
    ensures
        inventory_processes(rows@.map_values(|x: InventoryRow| row_view(x)), r@),
{
    let ghost all = rows@.map_values(|x: InventoryRow| row_view(x));
    let mut out: Vec<(ProcessInfo, Option<String>)> = Vec::new();
    let mut i: usize = 0;
    while i < rows.len()
        invariant
            i <= rows.len(),
            all == rows@.map_values(|x: InventoryRow| row_view(x)),
            inventory_processes(all.take(i as int), out@),
        decreases rows.len() - i,
    {
        proof {
            assert(all.take(i + 1).drop_last() =~= all.take(i as int));
            assert(all.take(i + 1).last() == row_view(rows@[i as int]));
        }
        let row = &rows[i];
        match row.pid {
            Some(pid) => {
                let name = copy_text(&row.name);
                let command_line = copy_text(&row.command_line);
                let working_set = copy_text(&row.working_set);
                let p = windows_process(pid, row.ppid, name, command_line);
                let ghost before = out@;
                out.push((p, working_set));
                proof {
                    let k = with_pid(all.take(i + 1));
                    assert(k == with_pid(all.take(i as int)).push(row_view(rows@[i as int])));
                    assert forall|j: int| #![trigger out@[j]] 0 <= j < out@.len() implies {
                        &&& k[j].0 matches Some(pid)
                        &&& is_windows_process(pid, k[j].1, k[j].2, k[j].3, out@[j].0)
                        &&& opt_view(out@[j].1) == k[j].4
                    } by {
                        if j < before.len() {
                            assert(out@[j] == before[j]);
                        }
                    }
                }
            },
            None => {},
        }
        i = i + 1;
    }
    assert(all.take(rows.len() as int) =~= all);
    out
}

/// The processes that the inventory bytes describe: those of the entries of the JSON document
/// they hold (see `inventory_rows` and `windows_processes`).
pub fn windows_inventory(json: &[u8]) -> (r: Vec<(ProcessInfo, Option<String>)>)
    ensures
        inventory_processes(rows_of_document(json_document_of(json@)), r@),
{
    let doc = parse_json_document(json);
    let rows = inventory_rows(&doc);
    windows_processes(&rows)
}

} // verus!
