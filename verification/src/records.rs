//! Sheets as records keyed by field names, cells found by their text, and cells
//! checked against rules.

use crate::deck::{haystack, make_haystack, unsigned};
use crate::deep::push_deep;
use crate::formats::{Sheet, SheetView};
use crate::grid::{
    cell_at, col_letters, copy_cell, data_start, first_data_row, letters_of, Rows, RowsView,
};
use crate::ordering::{
    is_blank, num_at, number_of, nums_view, occurs_in, sheet_cell_blank, without_case, Nums,
};
use crate::reals::{bits_less, less, whole_magnitude};
use crate::text::{
    chars_of, contains_text, copy_text, decimal, has_text, lines, push_decimal, same, text_lines,
    texts_are_found_first, trim, trim_text,
};
use crate::value::{
    add_member, as_array, as_text, cell_text, cell_to_string, count_value, field, object,
    text_value, Json, Num, Number, Value,
};
use crate::workbook::{item_texts, texts_of_items};
use vstd::prelude::*;

verus! {

// ── finding cells ───────────────────────────────────────────────────────────

/// A cell in which the query was found: its sheet, its row and column counted from
/// 1, its reference and its text.
pub open spec fn cell_match(sheet: Seq<char>, r: int, c: int, text: Seq<char>) -> Json {
    Json::Object(
        seq![
            ("sheet"@, Json::Text(sheet)),
            ("row"@, unsigned((r + 1) as u64)),
            ("col"@, unsigned((c + 1) as u64)),
            ("ref"@, Json::Text(letters_of(c + 1) + decimal((r + 1) as nat))),
            ("value"@, Json::Text(text)),
        ],
    )
}

/// Whether a cell text meets a query; an empty one never does.
pub open spec fn is_hit(text: Seq<char>, needle: Seq<char>, ic: bool, whole: bool) -> bool {
    text.len() > 0 && if whole {
        haystack(text, ic) == needle
    } else {
        contains_text(haystack(text, ic), needle)
    }
}

/// The matches among the first `n` cells of a row.
pub open spec fn row_hits(
    row: Seq<Json>,
    sheet: Seq<char>,
    r: int,
    needle: Seq<char>,
    ic: bool,
    whole: bool,
    n: nat,
) -> Seq<Json>
    decreases n,
{
    if n == 0 || n > row.len() {
        Seq::empty()
    } else {
        let before = row_hits(row, sheet, r, needle, ic, whole, (n - 1) as nat);
        let t = cell_text(row[n - 1]);
        if is_hit(t, needle, ic, whole) {
            before.push(cell_match(sheet, r, n - 1, t))
        } else {
            before
        }
    }
}

/// The matches in the first `n` rows of a sheet.
pub open spec fn sheet_hits(
    s: SheetView,
    needle: Seq<char>,
    ic: bool,
    whole: bool,
    n: nat,
) -> Seq<Json>
    decreases n,
{
    if n == 0 || n > s.1.len() {
        Seq::empty()
    } else {
        sheet_hits(s, needle, ic, whole, (n - 1) as nat) + row_hits(
            s.1[n - 1],
            s.0,
            n - 1,
            needle,
            ic,
            whole,
            s.1[n - 1].len(),
        )
    }
}

/// The matches in the first `n` sheets, or in those of one name.
pub open spec fn workbook_hits(
    sheets: Seq<SheetView>,
    only: Option<Seq<char>>,
    needle: Seq<char>,
    ic: bool,
    whole: bool,
    n: nat,
) -> Seq<Json>
    decreases n,
{
    if n == 0 || n > sheets.len() {
        Seq::empty()
    } else {
        let before = workbook_hits(sheets, only, needle, ic, whole, (n - 1) as nat);
        let s = sheets[n - 1];
        if only is Some && only->0 != s.0 {
            before
        } else {
            before + sheet_hits(s, needle, ic, whole, s.1.len())
        }
    }
}

fn push_row_hits(
    out: &mut Vec<Value>,
    row: &Vec<Value>,
    sheet: &str,
    r: usize,
    needle: &str,
    ic: bool,
    whole: bool,
)
    requires
        r < usize::MAX,
    ensures
        final(out).deep_view() == old(out).deep_view() + row_hits(
            row.deep_view(),
            sheet@,
            r as int,
            needle@,
            ic,
            whole,
            row@.len(),
        ),
{
    let ghost before = out.deep_view();
    let ghost rv = row.deep_view();
    let mut c: usize = 0;
    assert(out.deep_view() =~= before + row_hits(rv, sheet@, r as int, needle@, ic, whole, 0));
    while c < row.len()
        invariant
            c <= row@.len(),
            r < usize::MAX,
            rv == row.deep_view(),
            out.deep_view() == before + row_hits(
                rv,
                sheet@,
                r as int,
                needle@,
                ic,
                whole,
                c as nat,
            ),
        decreases row@.len() - c,
    {
        assert(rv[c as int] == row@[c as int].deep_view());
        let t = cell_to_string(&row[c]);
        let hit = if chars_of(t.as_str()).len() == 0 {
            false
        } else {
            let hay = make_haystack(t.as_str(), ic);
            if whole {
                same(hay.as_str(), needle)
            } else {
                has_text(hay.as_str(), needle)
            }
        };
        if hit {
            let mut reference = col_letters(c);
            push_decimal(&mut reference, (r + 1) as u64);
            let mut o: Vec<(String, Value)> = Vec::new();
            add_member(&mut o, "sheet", text_value(sheet));
            add_member(&mut o, "row", count_value(r + 1));
            add_member(&mut o, "col", count_value(c + 1));
            add_member(&mut o, "ref", Value::Text(reference));
            add_member(&mut o, "value", text_value(t.as_str()));
            assert(o.deep_view() =~= cell_match(sheet@, r as int, c as int, t@)->Object_0);
            push_deep(out, object(o));
        }
        c = c + 1;
        assert(out.deep_view() =~= before + row_hits(
            rv,
            sheet@,
            r as int,
            needle@,
            ic,
            whole,
            c as nat,
        ));
    }
}

fn push_sheet_hits(out: &mut Vec<Value>, s: &Sheet, needle: &str, ic: bool, whole: bool)
    ensures
        final(out).deep_view() == old(out).deep_view() + sheet_hits(
            s.deep_view(),
            needle@,
            ic,
            whole,
            s.1@.len(),
        ),
{
    let ghost before = out.deep_view();
    let ghost sv = s.deep_view();
    let mut r: usize = 0;
    assert(out.deep_view() =~= before + sheet_hits(sv, needle@, ic, whole, 0));
    while r < s.1.len()
        invariant
            r <= s.1@.len(),
            sv == s.deep_view(),
            out.deep_view() == before + sheet_hits(sv, needle@, ic, whole, r as nat),
        decreases s.1@.len() - r,
    {
        assert(sv.1[r as int] == s.1@[r as int].deep_view());
        push_row_hits(out, &s.1[r], s.0.as_str(), r, needle, ic, whole);
        r = r + 1;
        assert(out.deep_view() =~= before + sheet_hits(sv, needle@, ic, whole, r as nat));
    }
}

/// The cells of a workbook that meet a query.
pub fn op_sheet_find(
    sheets: &Vec<Sheet>,
    only: Option<&str>,
    needle: &str,
    ignore_case: bool,
    whole: bool,
) -> (r: Vec<Value>)
    ensures
        r.deep_view() == workbook_hits(
            sheets.deep_view(),
            match only {
                Some(n) => Some(n@),
                None => None,
            },
            needle@,
            ignore_case,
            whole,
            sheets@.len(),
        ),
{
    let ghost sv = sheets.deep_view();
    let ghost ov = match only {
        Some(n) => Some(n@),
        None => None,
    };
    let mut out: Vec<Value> = Vec::new();
    let mut i: usize = 0;
    assert(out.deep_view() =~= Seq::<Json>::empty());
    while i < sheets.len()
        invariant
            i <= sheets@.len(),
            sv == sheets.deep_view(),
            ov == (match only {
                Some(n) => Some(n@),
                None => None,
            }),
            out.deep_view() == workbook_hits(sv, ov, needle@, ignore_case, whole, i as nat),
        decreases sheets@.len() - i,
    {
        assert(sv[i as int] == sheets@[i as int].deep_view());
        let skip = match only {
            Some(n) => !same(n, sheets[i].0.as_str()),
            None => false,
        };
        if !skip {
            push_sheet_hits(&mut out, &sheets[i], needle, ignore_case, whole);
        }
        i = i + 1;
    }
    out
}

// ── records ─────────────────────────────────────────────────────────────────

/// The field names of a sheet: the texts of its first row.
pub open spec fn field_names(rows: RowsView) -> Seq<Seq<char>> {
    if rows.len() > 0 {
        item_texts(rows[0])
    } else {
        Seq::empty()
    }
}

/// An object with a member set: in its place where the key is there, else at the end.
pub open spec fn with_member(o: Seq<(Seq<char>, Json)>, key: Seq<char>, v: Json) -> Seq<
    (Seq<char>, Json),
> {
    let p = crate::value::member_pos(o, key, 0);
    if 0 <= p < o.len() {
        o.update(p, (key, v))
    } else {
        o.push((key, v))
    }
}

/// The record of a row with the first `n` fields.
pub open spec fn record_members(fields: Seq<Seq<char>>, row: Seq<Json>, n: nat) -> Seq<
    (Seq<char>, Json),
>
    decreases n,
{
    if n == 0 || n > fields.len() {
        Seq::empty()
    } else {
        with_member(
            record_members(fields, row, (n - 1) as nat),
            fields[n - 1],
            cell_at(row, n - 1),
        )
    }
}

/// The record of a row.
pub open spec fn record_of(fields: Seq<Seq<char>>, row: Seq<Json>) -> Json {
    Json::Object(record_members(fields, row, fields.len()))
}

/// The records of a sheet: one for each row below the first.
pub open spec fn sheet_records(rows: RowsView) -> Seq<Json> {
    if rows.len() == 0 {
        Seq::empty()
    } else {
        Seq::new((rows.len() - 1) as nat, |i: int| record_of(field_names(rows), rows[i + 1]))
    }
}

/// Sets a member of an object under construction.
pub fn set_member(o: &mut Vec<(String, Value)>, key: &str, v: Value)
    ensures
        final(o).deep_view() == with_member(old(o).deep_view(), key@, v.deep_view()),
{
    let ghost ov = o.deep_view();
    let mut i: usize = 0;
    while i < o.len() && !same(o[i].0.as_str(), key)
        invariant
            i <= o@.len(),
            ov == o.deep_view(),
            crate::value::member_pos(ov, key@, 0) == crate::value::member_pos(ov, key@, i as int),
        decreases o@.len() - i,
    {
        assert(ov[i as int] == (o@[i as int].0@, o@[i as int].1.deep_view()));
        i = i + 1;
    }
    assert(ov.len() == o@.len());
    if i < o.len() {
        assert(ov[i as int] == (o@[i as int].0@, o@[i as int].1.deep_view()));
        let item = (copy_text(key), v);
        let ghost iv = (item.0@, item.1.deep_view());
        crate::grid::set_deep(o, i, item);
        assert(o.deep_view() =~= ov.update(i as int, iv));
    } else {
        add_member(o, key, v);
    }
}

fn make_record(fields: &Vec<String>, row: &Vec<Value>) -> (r: Value)
    ensures
        r.deep_view() == record_of(fields.deep_view(), row.deep_view()),
{
    let mut o: Vec<(String, Value)> = Vec::new();
    let mut i: usize = 0;
    assert(o.deep_view() =~= Seq::<(Seq<char>, Json)>::empty());
    while i < fields.len()
        invariant
            i <= fields@.len(),
            o.deep_view() == record_members(fields.deep_view(), row.deep_view(), i as nat),
        decreases fields@.len() - i,
    {
        assert(fields.deep_view()[i as int] == fields@[i as int]@);
        set_member(&mut o, fields[i].as_str(), copy_cell(row, i));
        i = i + 1;
    }
    object(o)
}

/// The field names and the records of a sheet.
pub fn op_sheet_records(rows: &Rows) -> (r: (Vec<String>, Vec<Value>))
    ensures
        r.0.deep_view() == field_names(rows.deep_view()),
        r.1.deep_view() == sheet_records(rows.deep_view()),
{
    let ghost rv = rows.deep_view();
    if rows.len() == 0 {
        let none: Vec<String> = Vec::new();
        let nothing: Vec<Value> = Vec::new();
        assert(none.deep_view() =~= Seq::<Seq<char>>::empty());
        assert(nothing.deep_view() =~= Seq::<Json>::empty());
        return (none, nothing);
    }
    assert(rv[0] == rows@[0].deep_view());
    let fields = texts_of_items(&rows[0]);
    let ghost all = sheet_records(rv);
    let mut out: Vec<Value> = Vec::new();
    let mut i: usize = 1;
    while i < rows.len()
        invariant
            1 <= i <= rows@.len(),
            rv == rows.deep_view(),
            fields.deep_view() == field_names(rv),
            all == sheet_records(rv),
            out.deep_view() == all.take(i - 1),
        decreases rows@.len() - i,
    {
        assert(rv[i as int] == rows@[i as int].deep_view());
        push_deep(&mut out, make_record(&fields, &rows[i]));
        i = i + 1;
        assert(out.deep_view() =~= all.take(i - 1));
    }
    assert(all.take(i - 1) =~= all);
    (fields, out)
}

/// The keys of the first `n` members that are not among those before.
pub open spec fn new_keys(known: Seq<Seq<char>>, o: Seq<(Seq<char>, Json)>, n: nat) -> Seq<
    Seq<char>,
>
    decreases n,
{
    if n == 0 || n > o.len() {
        known
    } else {
        let before = new_keys(known, o, (n - 1) as nat);
        if before.contains(o[n - 1].0) {
            before
        } else {
            before.push(o[n - 1].0)
        }
    }
}

/// The keys of the first `n` records, in the order in which they first come.
pub open spec fn record_keys(records: Seq<Json>, n: nat) -> Seq<Seq<char>>
    decreases n,
{
    if n == 0 || n > records.len() {
        Seq::empty()
    } else {
        let before = record_keys(records, (n - 1) as nat);
        match records[n - 1] {
            Json::Object(o) => new_keys(before, o, o.len()),
            _ => before,
        }
    }
}

/// The columns of records: those that are asked for, or all keys.
pub open spec fn wanted_fields(fields: Option<Seq<Json>>, records: Seq<Json>) -> Seq<Seq<char>> {
    match fields {
        Some(f) => item_texts(f),
        None => record_keys(records, records.len()),
    }
}

/// The row of a record.
pub open spec fn record_row(fields: Seq<Seq<char>>, rec: Json) -> Seq<Json> {
    Seq::new(
        fields.len(),
        |i: int|
            match field(rec, fields[i]) {
                Some(v) => v,
                None => Json::Null,
            },
    )
}

/// The rows of records: the field names, then one row for each record.
pub open spec fn record_rows(fields: Seq<Seq<char>>, records: Seq<Json>) -> RowsView {
    seq![Seq::new(fields.len(), |i: int| Json::Text(fields[i]))] + Seq::new(
        records.len(),
        |i: int| record_row(fields, records[i]),
    )
}

fn collect_keys(records: &Vec<Value>) -> (r: Vec<String>)
    ensures
        r.deep_view() == record_keys(records.deep_view(), records@.len()),
{
    let mut out: Vec<String> = Vec::new();
    let mut i: usize = 0;
    assert(out.deep_view() =~= Seq::<Seq<char>>::empty());
    while i < records.len()
        invariant
            i <= records@.len(),
            out.deep_view() == record_keys(records.deep_view(), i as nat),
        decreases records@.len() - i,
    {
        assert(records.deep_view()[i as int] == records@[i as int].deep_view());
        match &records[i] {
            Value::Object(o) => {
                proof {
                    crate::value::lemma_object_view(o);
                }
                let ghost known = out.deep_view();
                let mut k: usize = 0;
                while k < o.len()
                    invariant
                        k <= o@.len(),
                        out.deep_view() == new_keys(known, o.deep_view(), k as nat),
                    decreases o@.len() - k,
                {
                    assert(o.deep_view()[k as int] == (
                        o@[k as int].0@,
                        o@[k as int].1.deep_view(),
                    ));
                    if !crate::xml::one_of(&out, o[k].0.as_str()) {
                        push_deep(&mut out, o[k].0.clone());
                    }
                    k = k + 1;
                }
            },
            _ => {},
        }
        i = i + 1;
    }
    out
}

/// The field names and the rows of records.
pub fn op_records_write(records: &Vec<Value>, fields: Option<&Vec<Value>>) -> (r: (
    Vec<String>,
    Rows,
))
    ensures
        ({
            let f = wanted_fields(
                match fields {
                    Some(a) => Some(a.deep_view()),
                    None => None,
                },
                records.deep_view(),
            );
            &&& r.0.deep_view() == f
            &&& r.1.deep_view() == record_rows(f, records.deep_view())
        }),
{
    let names = match fields {
        Some(a) => texts_of_items(a),
        None => collect_keys(records),
    };
    let ghost fv = names.deep_view();
    let ghost all = record_rows(fv, records.deep_view());
    let mut out: Rows = Vec::new();
    let mut head: Vec<Value> = Vec::new();
    let mut k: usize = 0;
    let ghost hv = Seq::new(fv.len(), |i: int| Json::Text(fv[i]));
    while k < names.len()
        invariant
            k <= names@.len(),
            fv == names.deep_view(),
            hv == Seq::new(fv.len(), |i: int| Json::Text(fv[i])),
            head.deep_view() == hv.take(k as int),
        decreases names@.len() - k,
    {
        assert(fv[k as int] == names@[k as int]@);
        push_deep(&mut head, text_value(names[k].as_str()));
        k = k + 1;
        assert(head.deep_view() =~= hv.take(k as int));
    }
    assert(hv.take(k as int) =~= hv);
    push_deep(&mut out, head);
    assert(out.deep_view() =~= all.take(1));
    let mut i: usize = 0;
    while i < records.len()
        invariant
            i <= records@.len(),
            fv == names.deep_view(),
            all == record_rows(fv, records.deep_view()),
            out.deep_view() == all.take(i + 1),
        decreases records@.len() - i,
    {
        assert(records.deep_view()[i as int] == records@[i as int].deep_view());
        let ghost want = record_row(fv, records.deep_view()[i as int]);
        let mut row: Vec<Value> = Vec::new();
        let mut c: usize = 0;
        while c < names.len()
            invariant
                c <= names@.len(),
                i < records@.len(),
                fv == names.deep_view(),
                want == record_row(fv, records@[i as int].deep_view()),
                row.deep_view() == want.take(c as int),
            decreases names@.len() - c,
        {
            assert(fv[c as int] == names@[c as int]@);
            let v = match records[i].get(names[c].as_str()) {
                Some(x) => x.dup(),
                None => Value::Null,
            };
            push_deep(&mut row, v);
            c = c + 1;
            assert(row.deep_view() =~= want.take(c as int));
        }
        assert(want.take(c as int) =~= want);
        push_deep(&mut out, row);
        i = i + 1;
        assert(out.deep_view() =~= all.take(i + 1));
    }
    assert(all.take(i + 1) =~= all);
    (names, out)
}

proof fn lemma_member_found(o: Seq<(Seq<char>, Json)>, key: Seq<char>, i: int)
    requires
        0 <= i <= o.len(),
    ensures
        i <= crate::value::member_pos(o, key, i) <= o.len(),
        crate::value::member_pos(o, key, i) < o.len() ==> o[crate::value::member_pos(
            o,
            key,
            i,
        )].0 == key,
        forall|k: int| i <= k < crate::value::member_pos(o, key, i) ==> (#[trigger] o[k]).0 != key,
    decreases o.len() - i,
{
    if i < o.len() && o[i].0 != key {
        lemma_member_found(o, key, i + 1);
    }
}

proof fn lemma_pos_is(o: Seq<(Seq<char>, Json)>, key: Seq<char>, i: int, p: int)
    requires
        0 <= i <= p < o.len(),
        o[p].0 == key,
        forall|k: int| i <= k < p ==> (#[trigger] o[k]).0 != key,
    ensures
        crate::value::member_pos(o, key, i) == p,
    decreases p - i,
{
    if i < p {
        lemma_pos_is(o, key, i + 1, p);
    }
}

proof fn lemma_record_members(fields: Seq<Seq<char>>, row: Seq<Json>, n: nat)
    requires
        fields.no_duplicates(),
        n <= fields.len(),
    ensures
        record_members(fields, row, n).len() == n,
        forall|k: int|
            0 <= k < n ==> #[trigger] record_members(fields, row, n)[k] == (
                fields[k],
                cell_at(row, k),
            ),
    decreases n,
{
    if n > 0 {
        lemma_record_members(fields, row, (n - 1) as nat);
        let o = record_members(fields, row, (n - 1) as nat);
        lemma_member_found(o, fields[n - 1], 0);
        let p = crate::value::member_pos(o, fields[n - 1], 0);
        if p < o.len() {
            assert(o[p] == (fields[p], cell_at(row, p)));
            assert(fields[p] == fields[n - 1]);
        }
    }
}

/// A record of a row gives the row back, where no field name comes twice and the row
/// is no longer than the fields; missing cells come back as null.
pub proof fn record_gives_row_back(fields: Seq<Seq<char>>, row: Seq<Json>)
    requires
        fields.no_duplicates(),
    ensures
        record_row(fields, record_of(fields, row)) == Seq::new(
            fields.len(),
            |i: int| cell_at(row, i),
        ),
{
    lemma_record_members(fields, row, fields.len());
    let o = record_members(fields, row, fields.len());
    assert forall|i: int| 0 <= i < fields.len() implies record_row(fields, record_of(fields, row))[i]
        == cell_at(row, i) by {
        assert forall|k: int| 0 <= k < i implies (#[trigger] o[k]).0 != fields[i] by {
            assert(o[k] == (fields[k], cell_at(row, k)));
        }
        assert(o[i] == (fields[i], cell_at(row, i)));
        lemma_pos_is(o, fields[i], 0, i);
    }
    assert(record_row(fields, record_of(fields, row)) =~= Seq::new(
        fields.len(),
        |i: int| cell_at(row, i),
    ));
}

/// The nonblank lines among the first `n`, trimmed, with their numbers from 1.
pub open spec fn numbered_lines(ls: Seq<Seq<char>>, n: nat) -> Seq<(u64, Seq<char>)>
    decreases n,
{
    if n == 0 || n > ls.len() {
        Seq::empty()
    } else {
        let before = numbered_lines(ls, (n - 1) as nat);
        if trim(ls[n - 1]).len() > 0 {
            before.push((n as u64, trim(ls[n - 1])))
        } else {
            before
        }
    }
}

/// The lines of a JSON Lines text that hold a record, with their numbers.
pub fn ndjson_lines(text: &str) -> (r: Vec<(u64, String)>)
    ensures
        r.deep_view() == numbered_lines(lines(text@), lines(text@).len()),
{
    let ls = text_lines(text);
    let ghost lv = ls.deep_view();
    let mut out: Vec<(u64, String)> = Vec::new();
    let mut i: usize = 0;
    assert(out.deep_view() =~= Seq::<(u64, Seq<char>)>::empty());
    while i < ls.len()
        invariant
            i <= ls@.len(),
            lv == ls.deep_view(),
            out.deep_view() == numbered_lines(lv, i as nat),
        decreases ls@.len() - i,
    {
        assert(lv[i as int] == ls@[i as int]@);
        let t = trim_text(ls[i].as_str());
        i = i + 1;
        if chars_of(t.as_str()).len() > 0 {
            let ghost tv = t@;
            push_deep(&mut out, (i as u64, t));
            assert(out.deep_view().last() == (i as u64, tv));
        }
    }
    out
}

// ── rules ───────────────────────────────────────────────────────────────────

/// A bound: the bits of a number and how it is written.
pub type Bound = (u64, String);

/// A rule on a column.
pub struct CheckRule {
    pub kind: Option<String>,
    pub min: Option<Bound>,
    pub max: Option<Bound>,
    pub allowed: Option<Vec<String>>,
}

#[verifier::ext_equal]
pub struct RuleView {
    pub kind: Option<Seq<char>>,
    pub min: Option<(u64, Seq<char>)>,
    pub max: Option<(u64, Seq<char>)>,
    pub allowed: Option<Seq<Seq<char>>>,
}

pub open spec fn bound_view(b: Option<Bound>) -> Option<(u64, Seq<char>)> {
    match b {
        Some(x) => Some((x.0, x.1@)),
        None => None,
    }
}

impl DeepView for CheckRule {
    type V = RuleView;

    open spec fn deep_view(&self) -> RuleView {
        RuleView {
            kind: crate::xml::opt_text(self.kind),
            min: bound_view(self.min),
            max: bound_view(self.max),
            allowed: match self.allowed {
                Some(a) => Some(a.deep_view()),
                None => None,
            },
        }
    }
}

/// What a cell breaks in a rule: its type, its lower bound, its upper bound or its
/// list of values, in this order; nothing where it keeps the rule.
pub open spec fn broken(cell: Json, num: Option<u64>, r: RuleView) -> Option<Seq<char>> {
    if r.kind == Some("nonempty"@) && is_blank(cell) {
        Some("nonempty"@)
    } else if r.kind == Some("number"@) && !is_blank(cell) && num is None {
        Some("number"@)
    } else if r.kind == Some("int"@) && !is_blank(cell) && (num is None || whole_magnitude(
        num->0,
    ) is None) {
        Some("int"@)
    } else if r.min is Some && num is Some && less(num->0, min_of(r).0) {
        Some("min "@ + min_of(r).1)
    } else if r.max is Some && num is Some && less(max_of(r).0, num->0) {
        Some("max "@ + max_of(r).1)
    } else if r.allowed is Some && !is_blank(cell) && !r.allowed->0.contains(cell_text(cell)) {
        Some("allowed"@)
    } else {
        None
    }
}

pub open spec fn min_of(r: RuleView) -> (u64, Seq<char>) {
    r.min->0
}

pub open spec fn max_of(r: RuleView) -> (u64, Seq<char>) {
    r.max->0
}

fn kind_is(k: &Option<String>, name: &str) -> (r: bool)
    ensures
        r == (crate::xml::opt_text(*k) == Some(name@)),
{
    match k {
        Some(s) => same(s.as_str(), name),
        None => false,
    }
}

/// What a cell breaks in a rule.
pub fn check_cell(cell: &Value, num: Option<u64>, r: &CheckRule) -> (b: Option<String>)
    ensures
        crate::xml::opt_text(b) == broken(cell.deep_view(), num, r.deep_view()),
{
    let blank = sheet_cell_blank(cell);
    if kind_is(&r.kind, "nonempty") && blank {
        return Some(copy_text("nonempty"));
    }
    if kind_is(&r.kind, "number") && !blank && num.is_none() {
        return Some(copy_text("number"));
    }
    if kind_is(&r.kind, "int") && !blank {
        let whole = match num {
            Some(x) => crate::reals::is_whole(x),
            None => false,
        };
        if !whole {
            return Some(copy_text("int"));
        }
    }
    match (&r.min, num) {
        (Some(b), Some(x)) => {
            if bits_less(x, b.0) {
                return Some(crate::text::concat2("min ", b.1.as_str()));
            }
        },
        _ => {},
    }
    match (&r.max, num) {
        (Some(b), Some(x)) => {
            if bits_less(b.0, x) {
                return Some(crate::text::concat2("max ", b.1.as_str()));
            }
        },
        _ => {},
    }
    match &r.allowed {
        Some(a) => {
            if !blank && !crate::xml::one_of(a, cell_to_string(cell).as_str()) {
                return Some(copy_text("allowed"));
            }
        },
        None => {},
    }
    None
}

/// A cell that breaks a rule: where it is, its column's name, what it breaks and what
/// it holds. Rows and columns count from 1.
pub open spec fn violation(r: int, c: int, name: Seq<char>, rule: Seq<char>, cell: Json) -> Json {
    Json::Object(
        seq![
            ("ref"@, Json::Text(letters_of(c + 1) + decimal((r + 1) as nat))),
            ("row"@, unsigned((r + 1) as u64)),
            ("col"@, unsigned(crate::deck::in_64_bits((c + 1) as nat))),
            ("column"@, Json::Text(name)),
            ("rule"@, Json::Text(rule)),
            ("value"@, cell),
        ],
    )
}

/// The violations of a rule on column `c` in the rows from `start` up to `n`.
pub open spec fn violations(
    rows: RowsView,
    nums: Seq<Seq<Option<u64>>>,
    start: int,
    c: int,
    name: Seq<char>,
    rule: RuleView,
    n: int,
) -> Seq<Json>
    decreases n - start,
{
    if n <= start || n > rows.len() {
        Seq::empty()
    } else {
        let before = violations(rows, nums, start, c, name, rule, n - 1);
        match broken(cell_at(rows[n - 1], c), num_at(nums, n - 1, c), rule) {
            Some(b) => before.push(violation(n - 1, c, name, b, cell_at(rows[n - 1], c))),
            None => before,
        }
    }
}

/// What a column is called in a violation: the text of its header cell unless it is
/// empty, else `Col` and its number.
pub open spec fn checked_name(header: bool, rows: RowsView, c: int) -> Seq<char> {
    if header && rows.len() > 0 && c < rows[0].len() && cell_text(rows[0][c]).len() > 0 {
        cell_text(rows[0][c])
    } else {
        "Col"@ + decimal(crate::deck::in_64_bits((c + 1) as nat) as nat)
    }
}

pub fn name_of_checked(header: bool, rows: &Rows, c: usize) -> (r: String)
    ensures
        r@ == checked_name(header, rows.deep_view(), c as int),
{
    if header && rows.len() > 0 && c < rows[0].len() {
        assert(rows.deep_view()[0] == rows@[0].deep_view());
        assert(rows.deep_view()[0][c as int] == rows@[0]@[c as int].deep_view());
        let t = cell_to_string(&rows[0][c]);
        if chars_of(t.as_str()).len() > 0 {
            return t;
        }
    }
    let mut s = copy_text("Col");
    push_decimal(&mut s, (c as u64).wrapping_add(1));
    s
}

/// The violations of one rule on column `c`.
pub fn check_column(rows: &Rows, nums: &Nums, header: bool, c: usize, rule: &CheckRule) -> (r: Vec<
    Value,
>)
    ensures
        ({
            let rv = rows.deep_view();
            r.deep_view() == violations(
                rv,
                nums_view(nums@),
                data_start(header, rv),
                c as int,
                checked_name(header, rv, c as int),
                rule.deep_view(),
                rv.len() as int,
            )
        }),
{
    let start = first_data_row(header, rows);
    let name = name_of_checked(header, rows, c);
    let ghost rv = rows.deep_view();
    let ghost nv = nums_view(nums@);
    let mut out: Vec<Value> = Vec::new();
    let mut i: usize = start;
    assert(out.deep_view() =~= Seq::<Json>::empty());
    while i < rows.len()
        invariant
            start <= i <= rows@.len(),
            rv == rows.deep_view(),
            nv == nums_view(nums@),
            out.deep_view() == violations(
                rv,
                nv,
                start as int,
                c as int,
                name@,
                rule.deep_view(),
                i as int,
            ),
        decreases rows@.len() - i,
    {
        assert(rv[i as int] == rows@[i as int].deep_view());
        let cell = copy_cell(&rows[i], c);
        match check_cell(&cell, number_of(nums, i, c), rule) {
            Some(b) => {
                let mut reference = col_letters(c);
                push_decimal(&mut reference, (i + 1) as u64);
                let ghost v = violation(i as int, c as int, name@, b@, cell.deep_view());
                let mut o: Vec<(String, Value)> = Vec::new();
                add_member(&mut o, "ref", Value::Text(reference));
                add_member(&mut o, "row", count_value(i + 1));
                add_member(
                    &mut o,
                    "col",
                    Value::Number(Number::Unsigned((c as u64).wrapping_add(1))),
                );
                add_member(&mut o, "column", text_value(name.as_str()));
                add_member(&mut o, "rule", Value::Text(b));
                add_member(&mut o, "value", cell);
                assert(o.deep_view() =~= v->Object_0);
                push_deep(&mut out, object(o));
            },
            None => {},
        }
        i = i + 1;
    }
    out
}

/// The rule that an object describes, with its bounds as they were read.
pub fn read_rule(j: &Value, min: Option<Bound>, max: Option<Bound>) -> (r: CheckRule)
    ensures
        r.deep_view() == (RuleView {
            kind: as_text(field(j.deep_view(), "type"@)),
            min: bound_view(min),
            max: bound_view(max),
            allowed: match as_array(field(j.deep_view(), "allowed"@)) {
                Some(a) => Some(item_texts(a)),
                None => None,
            },
        }),
{
    CheckRule {
        kind: crate::xlsx::copy_at(j, "type"),
        min,
        max,
        allowed: match j.array_at("allowed") {
            Some(a) => Some(texts_of_items(a)),
            None => None,
        },
    }
}

/// The violations of the first `n` rules, each on its column.
pub open spec fn all_violations(
    rows: RowsView,
    nums: Seq<Seq<Option<u64>>>,
    header: bool,
    rules: Seq<(usize, RuleView)>,
    n: nat,
) -> Seq<Json>
    decreases n,
{
    if n == 0 || n > rules.len() {
        Seq::empty()
    } else {
        let c = rules[n - 1].0 as int;
        all_violations(rows, nums, header, rules, (n - 1) as nat) + violations(
            rows,
            nums,
            data_start(header, rows),
            c,
            checked_name(header, rows, c),
            rules[n - 1].1,
            rows.len() as int,
        )
    }
}

pub open spec fn rules_view(rules: Seq<(usize, CheckRule)>) -> Seq<(usize, RuleView)> {
    Seq::new(rules.len(), |i: int| (rules[i].0, rules[i].1.deep_view()))
}

/// The violations of all rules.
pub fn op_sheet_validate(
    rows: &Rows,
    nums: &Nums,
    header: bool,
    rules: &Vec<(usize, CheckRule)>,
) -> (r: Vec<Value>)
    ensures
        r.deep_view() == all_violations(
            rows.deep_view(),
            nums_view(nums@),
            header,
            rules_view(rules@),
            rules@.len(),
        ),
{
    let ghost lv = rules_view(rules@);
    let mut out: Vec<Value> = Vec::new();
    let mut i: usize = 0;
    assert(out.deep_view() =~= Seq::<Json>::empty());
    while i < rules.len()
        invariant
            i <= rules@.len(),
            lv == rules_view(rules@),
            out.deep_view() == all_violations(
                rows.deep_view(),
                nums_view(nums@),
                header,
                lv,
                i as nat,
            ),
        decreases rules@.len() - i,
    {
        assert(lv[i as int] == (rules@[i as int].0, rules@[i as int].1.deep_view()));
        let found = check_column(rows, nums, header, rules[i].0, &rules[i].1);
        crate::deep::append_deep(&mut out, found);
        i = i + 1;
    }
    out
}

// ── what is found and what is checked ───────────────────────────────────────

/// Whether a text that is shown is sought: it is not empty, and it is the query or, unless the
/// whole must be, has it somewhere.
pub open spec fn is_sought(shown: Seq<char>, query: Seq<char>, ic: bool, whole: bool) -> bool {
    &&& shown != Seq::<char>::empty()
    &&& whole ==> without_case(shown, ic) == query
    &&& !whole ==> occurs_in(query, without_case(shown, ic))
}

/// What is told of a cell that was found.
pub open spec fn found_cell(s: SheetView, r: int, c: int) -> Json {
    Json::Object(
        seq![
            ("sheet"@, Json::Text(s.0)),
            ("row"@, Json::Number(Num::Unsigned((r + 1) as u64))),
            ("col"@, Json::Number(Num::Unsigned((c + 1) as u64))),
            ("ref"@, Json::Text(letters_of(c + 1) + decimal((r + 1) as nat))),
            ("value"@, Json::Text(cell_text(s.1[r][c]))),
        ],
    )
}

proof fn lemma_found_in_row(
    s: SheetView,
    r: int,
    query: Seq<char>,
    ic: bool,
    whole: bool,
    n: nat,
)
    requires
        0 <= r < s.1.len(),
        n <= s.1[r].len(),
    ensures
        row_hits(s.1[r], s.0, r, query, ic, whole, n) == Seq::new(n, |c: int| c).filter(
            |c: int| is_sought(cell_text(s.1[r][c]), query, ic, whole),
        ).map_values(|c: int| found_cell(s, r, c)),
    decreases n,
{
    reveal(Seq::filter);
    let is = |c: int| is_sought(cell_text(s.1[r][c]), query, ic, whole);
    let tell = |c: int| found_cell(s, r, c);
    let all = Seq::new(n, |c: int| c);
    if n > 0 {
        lemma_found_in_row(s, r, query, ic, whole, (n - 1) as nat);
        assert(all.drop_last() =~= Seq::new((n - 1) as nat, |c: int| c));
        assert(all.last() == n - 1);
        let t = cell_text(s.1[r][n - 1]);
        if t.len() == 0 {
            assert(t =~= Seq::<char>::empty());
        }
        texts_are_found_first(without_case(t, ic), query, 0);
        assert(is_hit(t, query, ic, whole) == is(n - 1));
        if is(n - 1) {
            assert(all.filter(is).map_values(tell) =~= all.drop_last().filter(is).map_values(
                tell,
            ).push(tell(n - 1)));
        }
    } else {
        assert(all.filter(is).map_values(tell) =~= Seq::<Json>::empty());
    }
}

/// A search of a sheet tells of just the cells that show what is sought, row by row from the
/// top and each row from the left.
pub proof fn searches_find_the_cells(
    s: SheetView,
    query: Seq<char>,
    ic: bool,
    whole: bool,
    r: nat,
)
    requires
        r < s.1.len(),
    ensures
        sheet_hits(s, query, ic, whole, 0).len() == 0,
        sheet_hits(s, query, ic, whole, r + 1) == sheet_hits(s, query, ic, whole, r) + Seq::new(
            s.1[r as int].len(),
            |c: int| c,
        ).filter(
            |c: int| is_sought(cell_text(s.1[r as int][c]), query, ic, whole),
        ).map_values(|c: int| found_cell(s, r as int, c)),
{
    lemma_found_in_row(s, r as int, query, ic, whole, s.1[r as int].len());
}

/// A search of a workbook takes its sheets in turn, or those of the one name.
pub proof fn searches_go_through_the_sheets(
    sheets: Seq<SheetView>,
    only: Option<Seq<char>>,
    query: Seq<char>,
    ic: bool,
    whole: bool,
    n: nat,
)
    requires
        n < sheets.len(),
    ensures
        workbook_hits(sheets, only, query, ic, whole, 0).len() == 0,
        ({
            let found = sheet_hits(
                sheets[n as int],
                query,
                ic,
                whole,
                sheets[n as int].1.len(),
            );
            let now = workbook_hits(sheets, only, query, ic, whole, n + 1);
            let was = workbook_hits(sheets, only, query, ic, whole, n);
            &&& only is None ==> now == was + found
            &&& only == Some(sheets[n as int].0) ==> now == was + found
            &&& only is Some && only->0 != sheets[n as int].0 ==> now == was
        }),
{
}

/// Whether a cell has all that a rule asks for.
pub open spec fn keeps_rule(cell: Json, num: Option<u64>, r: RuleView) -> bool {
    &&& r.kind == Some("nonempty"@) ==> !is_blank(cell)
    &&& r.kind == Some("number"@) && !is_blank(cell) ==> num is Some
    &&& r.kind == Some("int"@) && !is_blank(cell) ==> num is Some && whole_magnitude(
        num->0,
    ) is Some
    &&& r.min is Some && num is Some ==> !less(num->0, (r.min->0).0)
    &&& r.max is Some && num is Some ==> !less((r.max->0).0, num->0)
    &&& r.allowed is Some && !is_blank(cell) ==> r.allowed->0.contains(cell_text(cell))
}

proof fn lemma_rule_names()
    ensures
        "nonempty"@ != "number"@,
        "nonempty"@ != "int"@,
        "number"@ != "int"@,
{
    reveal_strlit("nonempty");
    reveal_strlit("number");
    reveal_strlit("int");
    assert("nonempty"@[0] != "int"@[0]);
    assert("nonempty"@.len() != "number"@.len());
    assert("number"@.len() != "int"@.len());
}

/// A rule is broken by just the cells that lack something it asks for, and what is told names
/// what is lacking; each row is checked in turn, and tells of no more than one thing.
pub proof fn rules_tell_what_is_lacking(
    rows: RowsView,
    nums: Seq<Seq<Option<u64>>>,
    start: int,
    c: int,
    name: Seq<char>,
    rule: RuleView,
    r: int,
)
    requires
        0 <= start <= r < rows.len(),
    ensures
        violations(rows, nums, start, c, name, rule, start).len() == 0,
        ({
            let cell = cell_at(rows[r], c);
            let num = num_at(nums, r, c);
            let was = violations(rows, nums, start, c, name, rule, r);
            let now = violations(rows, nums, start, c, name, rule, r + 1);
            let tell = |what: Seq<char>|
                Json::Object(
                    seq![
                        ("ref"@, Json::Text(letters_of(c + 1) + decimal((r + 1) as nat))),
                        ("row"@, Json::Number(Num::Unsigned((r + 1) as u64))),
                        (
                            "col"@,
                            Json::Number(Num::Unsigned(crate::deck::in_64_bits((c + 1) as nat))),
                        ),
                        ("column"@, Json::Text(name)),
                        ("rule"@, Json::Text(what)),
                        ("value"@, cell),
                    ],
                );
            &&& keeps_rule(cell, num, rule) ==> now == was
            &&& !keeps_rule(cell, num, rule) ==> now.len() == was.len() + 1 && now.take(
                was.len() as int,
            ) == was
            &&& rule.kind == Some("nonempty"@) && is_blank(cell) ==> now == was.push(
                tell("nonempty"@),
            )
            &&& rule.kind == Some("number"@) && !is_blank(cell) && num is None ==> now == was.push(
                tell("number"@),
            )
            &&& rule.kind == Some("int"@) && !is_blank(cell) && num is None ==> now == was.push(
                tell("int"@),
            )
            &&& rule.kind is None && rule.min is Some && num is Some && less(
                num->0,
                (rule.min->0).0,
            ) ==> now == was.push(tell("min "@ + (rule.min->0).1))
            &&& rule.kind is None && rule.min is None && rule.max is Some && num is Some && less(
                (rule.max->0).0,
                num->0,
            ) ==> now == was.push(tell("max "@ + (rule.max->0).1))
            &&& rule.kind is None && rule.min is None && rule.max is None && !keeps_rule(
                cell,
                num,
                rule,
            ) ==> now == was.push(tell("allowed"@))
        }),
{
    lemma_rule_names();
    let was = violations(rows, nums, start, c, name, rule, r);
    let now = violations(rows, nums, start, c, name, rule, r + 1);
    if now.len() > was.len() {
        assert(now.take(was.len() as int) =~= was);
    }
}

} // verus!
