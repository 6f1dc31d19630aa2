//! `relate query --apply FILE`: the rows of a `.csv`, `.json` or `.jsonl`
//! file, each the parameters of one run of the statements, and how the runs
//! are grouped into transactions.
use vstd::prelude::*;
use crate::json::{json_object, json_shape, json_shape_of, json_value, parse_json_object, parse_json_value, JsonShape, JsonShapeView};
use crate::listing::{strings_view, text_lines, text_lines_of};
use crate::query::{flag_pairs, flag_value, json_param, json_param_value, pairs_match, push_flags, typed_value, ParamMap, ParamValue, ParamView};
use crate::text::{chars_of, concat, decimal, decimal_string, ends_with, find_char, has_suffix, index_of, string_of, trim, trim_str};

verus! {

// ── The file's format ──────────────────────────────────────────────────────────

/// The kinds of file that `--apply` reads.
#[derive(Debug, Clone, Copy)]
pub enum ApplyFormat {
    Csv,
    Json,
    Jsonl,
}

/// The format that a file name's suffix names.
pub open spec fn format_of(path: Seq<char>) -> Option<ApplyFormat> {
    if has_suffix(path, ".csv"@) {
        Some(ApplyFormat::Csv)
    } else if has_suffix(path, ".jsonl"@) {
        Some(ApplyFormat::Jsonl)
    } else if has_suffix(path, ".json"@) {
        Some(ApplyFormat::Json)
    } else {
        None
    }
}

pub open spec fn format_message(path: Seq<char>) -> Seq<char> {
    "--apply requires a .csv, .json, or .jsonl file, got: "@ + path
}

/// The format of the `--apply` file, by the suffix of its name.
pub fn apply_format(path: &str) -> (r: Result<ApplyFormat, String>)
    ensures
        match format_of(path@) {
            Some(f) => r matches Ok(g) && g == f,
            None => r matches Err(m) && m@ == format_message(path@),
        },
{
    let cs = chars_of(path);
    let csv = chars_of(".csv");
    let jsonl = chars_of(".jsonl");
    let json = chars_of(".json");
    if ends_with(cs.as_slice(), csv.as_slice()) {
        Ok(ApplyFormat::Csv)
    } else if ends_with(cs.as_slice(), jsonl.as_slice()) {
        Ok(ApplyFormat::Jsonl)
    } else if ends_with(cs.as_slice(), json.as_slice()) {
        Ok(ApplyFormat::Json)
    } else {
        Err(concat("--apply requires a .csv, .json, or .jsonl file, got: ", path))
    }
}

// ── Rows ───────────────────────────────────────────────────────────────────────

/// A row as parameter names and values, in the order the file gives them.
pub open spec fn row_view(r: Seq<(String, ParamValue)>) -> Seq<(Seq<char>, ParamView)> {
    r.map_values(|p: (String, ParamValue)| (p.0@, p.1@))
}

pub open spec fn rows_view(rs: Seq<Vec<(String, ParamValue)>>) -> Seq<Seq<(Seq<char>, ParamView)>> {
    rs.map_values(|r: Vec<(String, ParamValue)>| row_view(r@))
}

/// A line that holds nothing but whitespace.
pub open spec fn blank(l: Seq<char>) -> bool {
    trim(l).len() == 0
}

fn is_blank(l: &str) -> (r: bool)
    ensures
        r == blank(l@),
{
    let t = trim_str(l);
    let tc = chars_of(t.as_str());
    tc.len() == 0
}

/// The row of a JSON object: each entry's value as `json_param` reads it.
pub open spec fn object_row(es: Seq<(Seq<char>, serde_json::Value)>) -> Seq<(Seq<char>, ParamView)> {
    es.map_values(|e: (Seq<char>, serde_json::Value)| (e.0, json_param(crate::json::json_leaf_of(e.1))))
}

pub open spec fn entries_view(es: Seq<(String, serde_json::Value)>) -> Seq<(Seq<char>, serde_json::Value)> {
    es.map_values(|p: (String, serde_json::Value)| (p.0@, p.1))
}

fn object_row_of(es: Vec<(String, serde_json::Value)>) -> (r: Vec<(String, ParamValue)>)
    ensures
        row_view(r@) == object_row(entries_view(es@)),
{
    let ghost ev = entries_view(es@);
    let total = es.len();
    let mut out: Vec<(String, ParamValue)> = Vec::new();
    let mut rest = es;
    let mut i: usize = 0;
    assert(row_view(out@) =~= object_row(ev.take(0)));
    assert(ev.skip(0) =~= ev);
    while rest.len() > 0
        invariant
            i <= ev.len(),
            total == ev.len(),
            entries_view(rest@) == ev.skip(i as int),
            row_view(out@) == object_row(ev.take(i as int)),
        decreases rest@.len(),
    {
        let ghost rv = rest@;
        let (k, v) = rest.remove(0);
        assert(entries_view(rv)[0] == ev.skip(i as int)[0]);
        assert(entries_view(rest@) =~= entries_view(rv).drop_first());
        assert(entries_view(rv).drop_first() =~= ev.skip(i + 1));
        let ghost e = (k@, v);
        assert(e == ev[i as int]);
        let ghost before = row_view(out@);
        let val = json_param_value(v);
        let ghost pv = (e.0, val@);
        out.push((k, val));
        assert(row_view(out@) =~= before.push(pv));
        i = i + 1;
        assert(ev.take(i as int) =~= ev.take(i - 1).push(ev[i - 1]));
        assert(object_row(ev.take(i as int)) =~= object_row(ev.take(i - 1)).push(pv));
    }
    assert(ev.take(i as int) =~= ev);
    out
}

// ── CSV ────────────────────────────────────────────────────────────────────────

/// The fields of a CSV line: the text between commas.
pub open spec fn split_fields(s: Seq<char>) -> Seq<Seq<char>>
    decreases s.len(),
{
    match index_of(s, ',') {
        None => seq![s],
        Some(k) => {
            proof {
                crate::text::lemma_index_of_facts(s, ',');
            }
            seq![s.take(k)] + split_fields(s.skip(k + 1))
        },
    }
}

fn split_fields_of(s: &str) -> (r: Vec<String>)
    ensures
        strings_view(r@) == split_fields(s@),
{
    let cs = chars_of(s);
    let ghost t = s@;
    let mut out: Vec<String> = Vec::new();
    let mut pos: usize = 0;
    assert(t.skip(0) =~= t);
    assert(strings_view(out@) + split_fields(t) =~= split_fields(t));
    loop
        invariant
            cs@ == t,
            t == s@,
            pos <= t.len(),
            split_fields(t) == strings_view(out@) + split_fields(t.skip(pos as int)),
        decreases t.len() - pos,
    {
        let rest = &cs.as_slice()[pos..cs.len()];
        assert(rest@ =~= t.skip(pos as int));
        let ghost before = strings_view(out@);
        match find_char(rest, ',') {
            Some(k) => {
                let piece = string_of(&rest[0..k]);
                assert(piece@ =~= rest@.take(k as int));
                assert(rest@.skip(k + 1) =~= t.skip(pos + k + 1));
                out.push(piece);
                assert(strings_view(out@) =~= before.push(piece@));
                assert(before + split_fields(t.skip(pos as int)) =~= strings_view(out@) + split_fields(
                    t.skip(pos + k + 1),
                ));
                pos = pos + k + 1;
            },
            None => {
                let piece = string_of(rest);
                out.push(piece);
                assert(strings_view(out@) =~= before.push(piece@));
                assert(before + split_fields(t.skip(pos as int)) =~= strings_view(out@));
                return out;
            },
        }
    }
}

/// The column names of a CSV header: its fields, trimmed.
pub open spec fn csv_names(header: Seq<char>) -> Seq<Seq<char>> {
    split_fields(header).map_values(|f: Seq<char>| trim(f))
}

/// The row of a CSV line whose fields match the columns: each field,
/// trimmed, read as a `--param` value is.
pub open spec fn csv_row(names: Seq<Seq<char>>, fields: Seq<Seq<char>>) -> Seq<(Seq<char>, ParamView)> {
    Seq::new(names.len(), |i: int| (names[i], flag_value(trim(fields[i]))))
}

pub open spec fn csv_line_message(line: nat, expected: nat, found: nat) -> Seq<char> {
    "CSV line "@ + decimal(line) + ": expected "@ + decimal(expected) + " fields, found "@ + decimal(found)
}

/// The rows of the data lines, the first of which is line 2 of the file:
/// blank lines are skipped, and the first line whose field count differs
/// from the header's is an error.
pub open spec fn csv_data(names: Seq<Seq<char>>, lines: Seq<Seq<char>>) -> Result<
    Seq<Seq<(Seq<char>, ParamView)>>,
    Seq<char>,
>
    decreases lines.len(),
{
    if lines.len() == 0 {
        Ok(seq![])
    } else {
        match csv_data(names, lines.drop_last()) {
            Err(m) => Err(m),
            Ok(rs) => {
                let l = lines.last();
                if blank(l) {
                    Ok(rs)
                } else if split_fields(l).len() != names.len() {
                    Err(csv_line_message(lines.len() + 1, names.len(), split_fields(l).len()))
                } else {
                    Ok(rs.push(csv_row(names, split_fields(l))))
                }
            },
        }
    }
}

/// The rows of a CSV file: the first line names the columns, none of which
/// may be empty; each later line that is not blank is a row.
pub open spec fn csv_rows(content: Seq<char>) -> Result<Seq<Seq<(Seq<char>, ParamView)>>, Seq<char>> {
    let lines = text_lines(content);
    if lines.len() == 0 {
        Err("--apply CSV file has no header line"@)
    } else if exists|i: int| 0 <= i < csv_names(lines[0]).len() && #[trigger] csv_names(lines[0])[i].len() == 0 {
        Err("Empty column name in CSV header"@)
    } else {
        csv_data(csv_names(lines[0]), lines.drop_first())
    }
}

/// The names of a row's parameters, in order.
pub open spec fn row_names(row: Seq<(Seq<char>, ParamView)>) -> Seq<Seq<char>> {
    row.map_values(|p: (Seq<char>, ParamView)| p.0)
}

proof fn lemma_csv_data_names(names: Seq<Seq<char>>, lines: Seq<Seq<char>>)
    ensures
        csv_data(names, lines) matches Ok(rows) ==> forall|i: int| 0 <= i < rows.len() ==> row_names(#[trigger] rows[i]) == names,
    decreases lines.len(),
{
    if lines.len() > 0 {
        lemma_csv_data_names(names, lines.drop_last());
        if let Ok(rs) = csv_data(names, lines.drop_last()) {
            let l = lines.last();
            if !blank(l) && split_fields(l).len() == names.len() {
                let row = csv_row(names, split_fields(l));
                assert(row_names(row) =~= names);
                let rows = rs.push(row);
                assert forall|i: int| 0 <= i < rows.len() implies row_names(#[trigger] rows[i]) == names by {
                    if i < rs.len() {
                        assert(rows[i] == rs[i]);
                    }
                }
            }
        }
    }
}

/// Every row of a CSV file holds the header's columns, trimmed, in the
/// header's order: a column maps to the parameter of its name.
pub proof fn lemma_csv_rows_follow_header(content: Seq<char>)
    ensures
        csv_rows(content) matches Ok(rows) ==> forall|i: int|
            0 <= i < rows.len() ==> row_names(#[trigger] rows[i]) == csv_names(text_lines(content)[0]),
{
    let lines = text_lines(content);
    if lines.len() > 0 {
        lemma_csv_data_names(csv_names(lines[0]), lines.drop_first());
    }
}

proof fn lemma_csv_data_error(names: Seq<Seq<char>>, lines: Seq<Seq<char>>, k: int)
    requires
        0 <= k <= lines.len(),
        csv_data(names, lines.take(k)) is Err,
    ensures
        csv_data(names, lines) == csv_data(names, lines.take(k)),
    decreases lines.len(),
{
    if k < lines.len() {
        assert(lines.drop_last().take(k) =~= lines.take(k));
        lemma_csv_data_error(names, lines.drop_last(), k);
    } else {
        assert(lines.take(k) =~= lines);
    }
}

fn csv_row_of(names: &Vec<String>, fields: &Vec<String>) -> (r: Vec<(String, ParamValue)>)
    requires
        names@.len() == fields@.len(),
    ensures
        row_view(r@) == csv_row(strings_view(names@), strings_view(fields@)),
{
    let ghost want = csv_row(strings_view(names@), strings_view(fields@));
    let mut out: Vec<(String, ParamValue)> = Vec::new();
    let mut i: usize = 0;
    assert(row_view(out@) =~= want.take(0));
    while i < names.len()
        invariant
            i <= names@.len(),
            names@.len() == fields@.len(),
            want == csv_row(strings_view(names@), strings_view(fields@)),
            row_view(out@) == want.take(i as int),
        decreases names@.len() - i,
    {
        let v = typed_value(trim_str(fields[i].as_str()));
        let n = names[i].clone();
        assert(n@ == strings_view(names@)[i as int]);
        assert(v@ == flag_value(trim(strings_view(fields@)[i as int])));
        let ghost pv = (n@, v@);
        assert(want[i as int] == pv);
        let ghost before = row_view(out@);
        out.push((n, v));
        assert(row_view(out@) =~= before.push(pv));
        i = i + 1;
        assert(row_view(out@) =~= want.take(i as int));
    }
    assert(want.take(i as int) =~= want);
    out
}

fn csv_line_error(line: usize, expected: usize, found: usize) -> (r: String)
    ensures
        r@ == csv_line_message(line as nat, expected as nat, found as nat),
{
    let mut m = "CSV line ".to_string();
    m.append(decimal_string(line as u64).as_str());
    m.append(": expected ");
    m.append(decimal_string(expected as u64).as_str());
    m.append(" fields, found ");
    m.append(decimal_string(found as u64).as_str());
    m
}

fn csv_rows_of(content: &str) -> (r: Result<Vec<Vec<(String, ParamValue)>>, String>)
    ensures
        match csv_rows(content@) {
            Ok(rows) => r matches Ok(v) && rows_view(v@) == rows,
            Err(m) => r matches Err(x) && x@ == m,
        },
{
    let lines = text_lines_of(content);
    let ghost ls = strings_view(lines@);
    if lines.len() == 0 {
        return Err("--apply CSV file has no header line".to_string());
    }
    let header = split_fields_of(lines[0].as_str());
    let ghost names_v = csv_names(ls[0]);
    let mut names: Vec<String> = Vec::new();
    let mut i: usize = 0;
    while i < header.len()
        invariant
            i <= header@.len(),
            ls == strings_view(lines@),
            ls == text_lines(content@),
            lines@.len() > 0,
            strings_view(header@) == split_fields(ls[0]),
            names_v == csv_names(ls[0]),
            strings_view(names@) == names_v.take(i as int),
            forall|k: int| 0 <= k < i ==> #[trigger] names_v[k].len() > 0,
        decreases header@.len() - i,
    {
        let n = trim_str(header[i].as_str());
        assert(header@[i as int]@ == split_fields(ls[0])[i as int]);
        assert(n@ == names_v[i as int]);
        let nc = chars_of(n.as_str());
        if nc.len() == 0 {
            assert(names_v[i as int].len() == 0);
            return Err("Empty column name in CSV header".to_string());
        }
        let ghost before = strings_view(names@);
        let ghost nv = n@;
        names.push(n);
        assert(strings_view(names@) =~= before.push(nv));
        i = i + 1;
        assert(strings_view(names@) =~= names_v.take(i as int));
    }
    assert(names_v.take(i as int) =~= names_v);
    let ghost data = ls.drop_first();
    assert(csv_rows(content@) == csv_data(names_v, data));
    let mut rows: Vec<Vec<(String, ParamValue)>> = Vec::new();
    let mut j: usize = 1;
    assert(data.take(0) =~= Seq::<Seq<char>>::empty());
    assert(rows_view(rows@) =~= Seq::<Seq<(Seq<char>, ParamView)>>::empty());
    while j < lines.len()
        invariant
            1 <= j <= lines@.len(),
            ls == strings_view(lines@),
            data == ls.drop_first(),
            strings_view(names@) == names_v,
            csv_rows(content@) == csv_data(names_v, data),
            csv_data(names_v, data.take(j - 1)) == Ok::<Seq<Seq<(Seq<char>, ParamView)>>, Seq<char>>(
                rows_view(rows@),
            ),
        decreases lines@.len() - j,
    {
        assert(data.take(j as int).drop_last() =~= data.take(j - 1));
        assert(data.take(j as int).last() == lines@[j as int]@);
        let l = lines[j].as_str();
        if is_blank(l) {
            j = j + 1;
        } else {
            let fields = split_fields_of(l);
            if fields.len() != names.len() {
                let m = csv_line_error(j + 1, names.len(), fields.len());
                proof {
                    lemma_csv_data_error(names_v, data, j as int);
                }
                return Err(m);
            }
            let row = csv_row_of(&names, &fields);
            let ghost before = rows_view(rows@);
            rows.push(row);
            assert(rows_view(rows@) =~= before.push(row_view(row@)));
            j = j + 1;
        }
    }
    assert(data.take(j - 1) =~= data);
    Ok(rows)
}

// ── JSON and JSON Lines ────────────────────────────────────────────────────────

pub open spec fn element_message(i: nat) -> Seq<char> {
    "--apply JSON element "@ + decimal(i) + " must be an object"@
}

/// The rows of a JSON array's items; the first item that is not an object is
/// an error, named by its index.
pub open spec fn element_rows(items: Seq<serde_json::Value>) -> Result<Seq<Seq<(Seq<char>, ParamView)>>, Seq<char>>
    decreases items.len(),
{
    if items.len() == 0 {
        Ok(seq![])
    } else {
        match element_rows(items.drop_last()) {
            Err(m) => Err(m),
            Ok(rs) => match json_shape_of(items.last()) {
                JsonShapeView::Object(es) => Ok(rs.push(object_row(es))),
                _ => Err(element_message((items.len() - 1) as nat)),
            },
        }
    }
}

/// The rows of a JSON file: a top-level array of objects.
pub open spec fn json_rows(content: Seq<char>) -> Result<Seq<Seq<(Seq<char>, ParamView)>>, Seq<char>> {
    match json_value(content) {
        Err(e) => Err("invalid JSON in --apply file: "@ + e),
        Ok(v) => match json_shape_of(v) {
            JsonShapeView::Array(items) => element_rows(items),
            _ => Err("--apply JSON must be a top-level array of objects"@),
        },
    }
}

proof fn lemma_element_rows_error(items: Seq<serde_json::Value>, k: int)
    requires
        0 <= k <= items.len(),
        element_rows(items.take(k)) is Err,
    ensures
        element_rows(items) == element_rows(items.take(k)),
    decreases items.len(),
{
    if k < items.len() {
        assert(items.drop_last().take(k) =~= items.take(k));
        lemma_element_rows_error(items.drop_last(), k);
    } else {
        assert(items.take(k) =~= items);
    }
}

fn json_rows_of(content: &str) -> (r: Result<Vec<Vec<(String, ParamValue)>>, String>)
    ensures
        match json_rows(content@) {
            Ok(rows) => r matches Ok(v) && rows_view(v@) == rows,
            Err(m) => r matches Err(x) && x@ == m,
        },
{
    let v = match parse_json_value(content) {
        Ok(v) => v,
        Err(e) => return Err(concat("invalid JSON in --apply file: ", e.as_str())),
    };
    let ghost v0 = v;
    let items = match json_shape(v) {
        JsonShape::Array(items) => items,
        _ => return Err("--apply JSON must be a top-level array of objects".to_string()),
    };
    let ghost all = items@;
    assert(json_rows(content@) == element_rows(all));
    let total = items.len();
    let mut rows: Vec<Vec<(String, ParamValue)>> = Vec::new();
    let mut rest = items;
    let mut i: usize = 0;
    assert(all.take(0) =~= Seq::<serde_json::Value>::empty());
    assert(all.skip(0) =~= all);
    assert(rows_view(rows@) =~= Seq::<Seq<(Seq<char>, ParamView)>>::empty());
    while rest.len() > 0
        invariant
            i <= all.len(),
            total == all.len(),
            json_rows(content@) == element_rows(all),
            rest@ == all.skip(i as int),
            element_rows(all.take(i as int)) == Ok::<Seq<Seq<(Seq<char>, ParamView)>>, Seq<char>>(
                rows_view(rows@),
            ),
        decreases rest@.len(),
    {
        let ghost rv = rest@;
        let item = rest.remove(0);
        assert(rv[0] == all[i as int]);
        assert(rest@ =~= all.skip(i + 1));
        assert(all.take(i + 1).drop_last() =~= all.take(i as int));
        assert(all.take(i + 1).last() == item);
        match json_shape(item) {
            JsonShape::Object(es) => {
                let row = object_row_of(es);
                let ghost before = rows_view(rows@);
                rows.push(row);
                assert(rows_view(rows@) =~= before.push(row_view(row@)));
            },
            _ => {
                let mut m = "--apply JSON element ".to_string();
                m.append(decimal_string(i as u64).as_str());
                m.append(" must be an object");
                proof {
                    lemma_element_rows_error(all, i + 1);
                }
                return Err(m);
            },
        }
        i = i + 1;
    }
    assert(all.take(i as int) =~= all);
    Ok(rows)
}

pub open spec fn jsonl_message(line: nat, e: Seq<char>) -> Seq<char> {
    "line "@ + decimal(line) + ": invalid JSON: "@ + e
}

/// The rows of JSON Lines: each line that is not blank is an object; the
/// first that is not is an error, named by its line number.
pub open spec fn jsonl_rows(lines: Seq<Seq<char>>) -> Result<Seq<Seq<(Seq<char>, ParamView)>>, Seq<char>>
    decreases lines.len(),
{
    if lines.len() == 0 {
        Ok(seq![])
    } else {
        match jsonl_rows(lines.drop_last()) {
            Err(m) => Err(m),
            Ok(rs) => {
                let l = lines.last();
                if blank(l) {
                    Ok(rs)
                } else {
                    match json_object(l) {
                        Ok(es) => Ok(rs.push(object_row(es))),
                        Err(e) => Err(jsonl_message(lines.len(), e)),
                    }
                }
            },
        }
    }
}

proof fn lemma_jsonl_rows_error(lines: Seq<Seq<char>>, k: int)
    requires
        0 <= k <= lines.len(),
        jsonl_rows(lines.take(k)) is Err,
    ensures
        jsonl_rows(lines) == jsonl_rows(lines.take(k)),
    decreases lines.len(),
{
    if k < lines.len() {
        assert(lines.drop_last().take(k) =~= lines.take(k));
        lemma_jsonl_rows_error(lines.drop_last(), k);
    } else {
        assert(lines.take(k) =~= lines);
    }
}

fn jsonl_rows_of(content: &str) -> (r: Result<Vec<Vec<(String, ParamValue)>>, String>)
    ensures
        match jsonl_rows(text_lines(content@)) {
            Ok(rows) => r matches Ok(v) && rows_view(v@) == rows,
            Err(m) => r matches Err(x) && x@ == m,
        },
{
    let lines = text_lines_of(content);
    let ghost ls = strings_view(lines@);
    let mut rows: Vec<Vec<(String, ParamValue)>> = Vec::new();
    let mut j: usize = 0;
    assert(ls.take(0) =~= Seq::<Seq<char>>::empty());
    assert(rows_view(rows@) =~= Seq::<Seq<(Seq<char>, ParamView)>>::empty());
    while j < lines.len()
        invariant
            j <= lines@.len(),
            ls == strings_view(lines@),
            ls == text_lines(content@),
            jsonl_rows(ls.take(j as int)) == Ok::<Seq<Seq<(Seq<char>, ParamView)>>, Seq<char>>(rows_view(rows@)),
        decreases lines@.len() - j,
    {
        assert(ls.take(j + 1).drop_last() =~= ls.take(j as int));
        assert(ls.take(j + 1).last() == lines@[j as int]@);
        let l = lines[j].as_str();
        if !is_blank(l) {
            match parse_json_object(l) {
                Ok(es) => {
                    let row = object_row_of(es);
                    let ghost before = rows_view(rows@);
                    rows.push(row);
                    assert(rows_view(rows@) =~= before.push(row_view(row@)));
                },
                Err(e) => {
                    let mut m = "line ".to_string();
                    m.append(decimal_string((j + 1) as u64).as_str());
                    m.append(": invalid JSON: ");
                    m.append(e.as_str());
                    proof {
                        lemma_jsonl_rows_error(ls, j + 1);
                    }
                    return Err(m);
                },
            }
        }
        j = j + 1;
    }
    assert(ls.take(j as int) =~= ls);
    Ok(rows)
}

/// The rows of an `--apply` file of the given format.
pub open spec fn apply_rows_of(format: ApplyFormat, content: Seq<char>) -> Result<
    Seq<Seq<(Seq<char>, ParamView)>>,
    Seq<char>,
> {
    match format {
        ApplyFormat::Csv => csv_rows(content),
        ApplyFormat::Json => json_rows(content),
        ApplyFormat::Jsonl => jsonl_rows(text_lines(content)),
    }
}

/// Reads the rows of an `--apply` file's content.
pub fn apply_rows(format: ApplyFormat, content: &str) -> (r: Result<Vec<Vec<(String, ParamValue)>>, String>)
    ensures
        match apply_rows_of(format, content@) {
            Ok(rows) => r matches Ok(v) && rows_view(v@) == rows,
            Err(m) => r matches Err(x) && x@ == m,
        },
{
    match format {
        ApplyFormat::Csv => csv_rows_of(content),
        ApplyFormat::Json => json_rows_of(content),
        ApplyFormat::Jsonl => jsonl_rows_of(content),
    }
}

// ── The parameters of each run ─────────────────────────────────────────────────

/// The insertions that a row makes.
pub open spec fn row_pairs(row: Seq<(Seq<char>, ParamView)>) -> Seq<(Seq<char>, Option<ParamView>)> {
    row.map_values(|p: (Seq<char>, ParamView)| (p.0, Some(p.1)))
}

/// The insertions that make one run's parameters: the row's values, then
/// each `--param` in order, so that a flag sets a constant across the rows.
pub open spec fn row_param_pairs(row: Seq<(Seq<char>, ParamView)>, flags: Seq<Seq<char>>) -> Result<
    Seq<(Seq<char>, Option<ParamView>)>,
    Seq<char>,
> {
    match flag_pairs(flags) {
        Err(m) => Err(m),
        Ok(f) => Ok(row_pairs(row) + f),
    }
}

/// The parameters of the run for one row.
pub fn row_params(row: Vec<(String, ParamValue)>, flags: &Vec<String>) -> (r: Result<ParamMap, String>)
    ensures
        match row_param_pairs(row_view(row@), flags@.map_values(|f: String| f@)) {
            Ok(expected) => r matches Ok(m) && pairs_match(m.pairs(), expected),
            Err(msg) => r matches Err(x) && x@ == msg,
        },
{
    let ghost rv = row_view(row@);
    let total = row.len();
    let mut params = ParamMap::new();
    let mut rest = row;
    let mut i: usize = 0;
    assert(rv.skip(0) =~= rv);
    assert(params.pairs() =~= rv.take(0));
    while rest.len() > 0
        invariant
            i <= rv.len(),
            total == rv.len(),
            row_view(rest@) == rv.skip(i as int),
            params.pairs() == rv.take(i as int),
        decreases rest@.len(),
    {
        let ghost old_rest = rest@;
        let (k, v) = rest.remove(0);
        assert(row_view(old_rest)[0] == rv.skip(i as int)[0]);
        assert(row_view(rest@) =~= row_view(old_rest).drop_first());
        assert(row_view(old_rest).drop_first() =~= rv.skip(i + 1));
        let ghost p = (k@, v@);
        assert(p == rv[i as int]);
        params.insert(k, v);
        i = i + 1;
        assert(params.pairs() =~= rv.take(i as int));
    }
    assert(rv.take(i as int) =~= rv);
    assert forall|q: int| 0 <= q < params.pairs().len() implies #[trigger] params.pairs()[q].0 == row_pairs(rv)[q].0
        && crate::query::value_matches(params.pairs()[q].1, row_pairs(rv)[q].1) by {}
    push_flags(&mut params, flags, Ghost(row_pairs(rv)))?;
    Ok(params)
}

/// A `--param` flag takes precedence over a row's value: in a run's
/// parameters, a name that a flag sets takes the value of the last flag
/// that sets it, whatever the row holds.
pub proof fn lemma_flag_overrides_row(
    ps: Seq<(Seq<char>, ParamView)>,
    row: Seq<(Seq<char>, ParamView)>,
    flags: Seq<Seq<char>>,
    j: int,
)
    requires
        row_param_pairs(row, flags) matches Ok(expected) && pairs_match(ps, expected),
        flag_pairs(flags) matches Ok(f) && 0 <= j < f.len() && forall|k: int| j < k < f.len() ==> #[trigger] f[k].0 != f[j].0,
    ensures
        crate::query::pairs_map(ps).contains_key(flag_pairs(flags)->Ok_0[j].0),
        crate::query::pairs_map(ps)[flag_pairs(flags)->Ok_0[j].0] == flag_pairs(flags)->Ok_0[j].1->0,
{
    let f = flag_pairs(flags)->Ok_0;
    lemma_flag_pairs_set(flags);
    crate::query::lemma_flags_take_precedence(ps, row_pairs(row), f, j);
}

/// Every insertion that the `--param` flags make sets a value.
proof fn lemma_flag_pairs_set(flags: Seq<Seq<char>>)
    ensures
        flag_pairs(flags) matches Ok(f) ==> forall|k: int| 0 <= k < f.len() ==> (#[trigger] f[k]).1 is Some,
    decreases flags.len(),
{
    if flags.len() > 0 {
        lemma_flag_pairs_set(flags.drop_last());
    }
}

/// A row's value stands where no `--param` flag sets its name: a name of
/// the row that no flag sets takes the value of the last column or key that
/// holds it.
pub proof fn lemma_row_value_kept(
    ps: Seq<(Seq<char>, ParamView)>,
    row: Seq<(Seq<char>, ParamView)>,
    flags: Seq<Seq<char>>,
    j: int,
)
    requires
        row_param_pairs(row, flags) matches Ok(expected) && pairs_match(ps, expected),
        0 <= j < row.len(),
        forall|k: int| j < k < row.len() ==> #[trigger] row[k].0 != row[j].0,
        flag_pairs(flags) matches Ok(f) && forall|k: int| 0 <= k < f.len() ==> #[trigger] f[k].0 != row[j].0,
    ensures
        crate::query::pairs_map(ps).contains_key(row[j].0),
        crate::query::pairs_map(ps)[row[j].0] == row[j].1,
{
    let f = flag_pairs(flags)->Ok_0;
    let all = row_pairs(row) + f;
    assert(all[j] == (row[j].0, Some(row[j].1)));
    assert(ps[j].0 == all[j].0 && crate::query::value_matches(ps[j].1, all[j].1));
    assert forall|k: int| j < k < ps.len() implies #[trigger] ps[k].0 != ps[j].0 by {
        assert(ps[k].0 == all[k].0);
        if k < row.len() {
            assert(all[k].0 == row[k].0);
        } else {
            assert(all[k] == f[k - row.len()]);
        }
    }
    crate::query::lemma_last_insertion_wins(ps, j);
}

// ── Transactions ───────────────────────────────────────────────────────────────

/// The rows that one transaction holds: all of them with `--atomic`, else
/// `--batch N` (where `--batch 0` commits after every row), else 1000.
pub open spec fn per_commit(batch: Option<usize>, atomic: bool, total: usize) -> usize {
    if atomic {
        if total == 0 { 1 } else { total }
    } else {
        match batch {
            Some(b) => if b == 0 { 1 } else { b },
            None => 1000,
        }
    }
}

pub fn rows_per_commit(batch: Option<usize>, atomic: bool, total: usize) -> (r: usize)
    ensures
        r == per_commit(batch, atomic, total),
        r > 0,
{
    if atomic {
        if total == 0 { 1 } else { total }
    } else {
        match batch {
            Some(b) => if b == 0 { 1 } else { b },
            None => 1000,
        }
    }
}

/// Whether the transaction is committed once `done` of `total` rows have run.
pub fn commit_due(done: usize, total: usize, per: usize) -> (r: bool)
    requires
        per > 0,
    ensures
        r == (done % per == 0 || done == total),
{
    done % per == 0 || done == total
}

pub open spec fn committed_text(rows: nat, batches: nat) -> Seq<char> {
    decimal(rows) + (if rows == 1 { " row committed ("@ } else { " rows committed ("@ }) + decimal(batches) + (
    if batches == 1 {
        " batch)"@
    } else {
        " batches)"@
    })
}

/// The report of the rows committed when a run stops.
pub fn committed_summary(rows: u64, batches: u64) -> (r: String)
    ensures
        r@ == committed_text(rows as nat, batches as nat),
{
    let mut m = decimal_string(rows);
    if rows == 1 {
        m.append(" row committed (");
    } else {
        m.append(" rows committed (");
    }
    m.append(decimal_string(batches).as_str());
    if batches == 1 {
        m.append(" batch)");
    } else {
        m.append(" batches)");
    }
    m
}

pub open spec fn no_rows_message(path: Seq<char>) -> Seq<char> {
    "no input rows found in "@ + path + "; the statement requires parameters"@
}

/// What is said when the file has no rows and the statements need a
/// parameter that the flags do not set.
pub fn no_rows_report(path: &str) -> (r: String)
    ensures
        r@ == no_rows_message(path@),
{
    let mut m = concat("no input rows found in ", path);
    m.append("; the statement requires parameters");
    m
}

} // verus!
