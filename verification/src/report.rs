//! What is shown of the answer to a query: the part of the answer that a
//! page holds, as lines or as a table.

use crate::centrality::degree_rows;
use crate::cli::page_bounds;
use crate::graph::pair_texts;
use crate::inspect::{
    entry_views, five_texts, EntryView, InfoView, ItemInfoRelationEntry, ItemInfoResult,
};
use crate::lookup::{candidate_views, Candidate, CandidateView};
use crate::model::texts;
use crate::table::{header_texts, render, row_texts, table};
use crate::text::{concat, decimal, decimal_string};
use vstd::prelude::*;
use vstd::string::StringExecFns;

verus! {

/// Where the page starts in a list of `len` entries.
pub open spec fn page_start(len: nat, offset: usize) -> nat {
    if offset < len {
        offset as nat
    } else {
        len
    }
}

/// Where the page ends in a list of `len` entries.
pub open spec fn page_end(len: nat, offset: usize, limit: Option<usize>) -> nat {
    let start = page_start(len, offset);
    match limit {
        Some(l) => if start + l < len {
            (start + l) as nat
        } else {
            len
        },
        None => len,
    }
}

/// The entries of `list` that the page holds.
pub open spec fn page_of<T>(list: Seq<T>, offset: usize, limit: Option<usize>) -> Seq<T> {
    list.subrange(
        page_start(list.len(), offset) as int,
        page_end(list.len(), offset, limit) as int,
    )
}

/// The texts of `parts` with `sep` between each two of them.
pub open spec fn joined(parts: Seq<Seq<char>>, sep: Seq<char>) -> Seq<char>
    decreases parts.len(),
{
    if parts.len() == 0 {
        Seq::empty()
    } else if parts.len() == 1 {
        parts[0]
    } else {
        joined(parts.drop_last(), sep) + sep + parts.last()
    }
}

/// The texts of `parts` with `sep` between each two of them.
pub fn join_texts(parts: &Vec<String>, sep: &str) -> (r: String)
    ensures
        r@ == joined(texts(parts@), sep@),
{
    let mut out = String::new();
    let mut i: usize = 0;
    let ghost all = texts(parts@);
    assert(out@ =~= joined(all.take(0), sep@));
    while i < parts.len()
        invariant
            i <= parts.len(),
            all == texts(parts@),
            out@ == joined(all.take(i as int), sep@),
        decreases parts.len() - i,
    {
        let ghost before = out@;
        if i > 0 {
            out.append(sep);
        }
        out.append(parts[i].as_str());
        proof {
            let now = all.take(i + 1);
            assert(now.drop_last() =~= all.take(i as int));
            assert(now.last() == parts@[i as int]@);
            if i == 0 {
                assert(out@ =~= now[0]);
            }
        }
        i += 1;
    }
    assert(all.take(i as int) =~= all);
    out
}

/// The rows of a numbered list: for each of the entries of `paths` from
/// `start` up to `end`, its number, counted from one, and the entry.
pub open spec fn numbered(paths: Seq<Seq<char>>, start: int, end: int) -> Seq<Seq<Seq<char>>> {
    Seq::new((end - start) as nat, |i: int| seq![decimal((start + i + 1) as nat), paths[start + i]])
}

/// The numbered table of the page of `paths`, the numbers under the header
/// `first`.
pub open spec fn numbered_table(
    first: Seq<char>,
    paths: Seq<Seq<char>>,
    offset: usize,
    limit: Option<usize>,
) -> Seq<char> {
    table(
        seq![first, "Path"@],
        numbered(
            paths,
            page_start(paths.len(), offset) as int,
            page_end(paths.len(), offset, limit) as int,
        ),
    )
}

fn numbered_text(first: &str, paths: &Vec<String>, offset: usize, limit: Option<usize>) -> (r:
    String)
    ensures
        r@ == numbered_table(first@, texts(paths@), offset, limit),
{
    let (start, end) = page_bounds(paths.len(), offset, limit);
    let ghost want = numbered(texts(paths@), start as int, end as int);
    let mut body: Vec<Vec<String>> = Vec::new();
    let mut i: usize = start;
    assert(row_texts(body@) =~= want.take(0));
    while i < end
        invariant
            start <= i <= end <= paths.len(),
            want == numbered(texts(paths@), start as int, end as int),
            row_texts(body@) == want.take(i - start),
        decreases end - i,
    {
        let mut row: Vec<String> = Vec::new();
        row.push(decimal_string((i + 1) as u128));
        row.push(paths[i].clone());
        let ghost before = row_texts(body@);
        body.push(row);
        proof {
            assert(texts(row@) =~= want[i - start]);
            assert(row_texts(body@) =~= before.push(texts(row@)));
            assert(want.take(i - start + 1) =~= want.take(i - start).push(want[i - start]));
        }
        i += 1;
    }
    assert(want.take(end - start) =~= want);
    let mut headers: Vec<&str> = Vec::new();
    headers.push(first);
    headers.push("Path");
    assert(header_texts(headers@) =~= seq![first@, "Path"@]);
    render(headers.as_slice(), body.as_slice())
}

/// What is shown of the files connected to a file: the page of them as a
/// numbered table.
pub fn connected_files_text(paths: &Vec<String>, offset: usize, limit: Option<usize>) -> (r:
    String)
    ensures
        r@ == numbered_table("#"@, texts(paths@), offset, limit),
{
    numbered_text("#", paths, offset, limit)
}

/// What is shown of a shortest path: the page of its steps as a numbered
/// table, or a word that there is no path.
pub fn shortest_path_text(steps: &Vec<String>, offset: usize, limit: Option<usize>) -> (r: String)
    ensures
        r@ == if steps.len() == 0 {
            "<no path>"@
        } else {
            numbered_table("Step"@, texts(steps@), offset, limit)
        },
{
    if steps.len() == 0 {
        String::from_str("<no path>")
    } else {
        numbered_text("Step", steps, offset, limit)
    }
}

/// What is shown of the files that use a function: the page of them, one
/// to a line.
pub fn function_usage_lines(paths: &Vec<String>, offset: usize, limit: Option<usize>) -> (r: Vec<
    String,
>)
    ensures
        texts(r@) == page_of(texts(paths@), offset, limit),
{
    let (start, end) = page_bounds(paths.len(), offset, limit);
    let ghost want = texts(paths@).subrange(start as int, end as int);
    let mut out: Vec<String> = Vec::new();
    let mut i: usize = start;
    assert(texts(out@) =~= want.take(0));
    while i < end
        invariant
            start <= i <= end <= paths.len(),
            want == texts(paths@).subrange(start as int, end as int),
            texts(out@) == want.take(i - start),
        decreases end - i,
    {
        let ghost before = texts(out@);
        out.push(paths[i].clone());
        proof {
            assert(texts(out@) =~= before.push(paths@[i as int]@));
            assert(want.take(i - start + 1) =~= want.take(i - start).push(want[i - start]));
        }
        i += 1;
    }
    assert(want.take(end - start) =~= want);
    out
}

/// The lines for cycles: the files of each, with arrows between them.
pub open spec fn arrow_lines(cycles: Seq<Seq<Seq<char>>>) -> Seq<Seq<char>> {
    cycles.map_values(|c: Seq<Seq<char>>| joined(c, " -> "@))
}

/// What is shown of the cycles: for each cycle of the page a line of its
/// files, with arrows between them.
pub fn cycle_lines(cycles: &Vec<Vec<String>>, offset: usize, limit: Option<usize>) -> (r: Vec<
    String,
>)
    ensures
        texts(r@) == arrow_lines(page_of(row_texts(cycles@), offset, limit)),
{
    let (start, end) = page_bounds(cycles.len(), offset, limit);
    let ghost want = arrow_lines(row_texts(cycles@).subrange(start as int, end as int));
    let mut out: Vec<String> = Vec::new();
    let mut i: usize = start;
    assert(texts(out@) =~= want.take(0));
    while i < end
        invariant
            start <= i <= end <= cycles.len(),
            want == arrow_lines(row_texts(cycles@).subrange(start as int, end as int)),
            texts(out@) == want.take(i - start),
        decreases end - i,
    {
        let ghost before = texts(out@);
        let line = join_texts(&cycles[i], " -> ");
        out.push(line);
        proof {
            assert(row_texts(cycles@).subrange(start as int, end as int)[i - start] == texts(
                cycles@[i as int]@,
            ));
            assert(texts(out@) =~= before.push(line@));
            assert(want.take(i - start + 1) =~= want.take(i - start).push(want[i - start]));
        }
        i += 1;
    }
    assert(want.take(end - start) =~= want);
    out
}

/// The headers of a table of degrees, `first` over the names.
pub open spec fn degree_headers(first: Seq<char>, verbose: bool) -> Seq<Seq<char>> {
    if verbose {
        seq![first, "In"@, "Out"@, "Total"@]
    } else {
        seq![first, "Total"@]
    }
}

/// The cells of a row of degrees: the name and the sum of the degrees;
/// where more is asked for, each degree before the sum.
pub open spec fn degree_cells(row: (Seq<char>, nat, nat), verbose: bool) -> Seq<Seq<char>> {
    if verbose {
        seq![row.0, decimal(row.1), decimal(row.2), decimal(row.1 + row.2)]
    } else {
        seq![row.0, decimal(row.1 + row.2)]
    }
}

/// The table of the page of the rows of degrees.
pub open spec fn degree_table(
    first: Seq<char>,
    rows: Seq<(Seq<char>, nat, nat)>,
    offset: usize,
    limit: Option<usize>,
    verbose: bool,
) -> Seq<char> {
    table(
        degree_headers(first, verbose),
        page_of(rows, offset, limit).map_values(
            |r: (Seq<char>, nat, nat)| degree_cells(r, verbose),
        ),
    )
}

fn degree_text(
    first: &str,
    rows: &Vec<(String, usize, usize)>,
    offset: usize,
    limit: Option<usize>,
    verbose: bool,
) -> (r: String)
    ensures
        r@ == degree_table(first@, degree_rows(rows@), offset, limit, verbose),
{
    let (start, end) = page_bounds(rows.len(), offset, limit);
    let ghost page = degree_rows(rows@).subrange(start as int, end as int);
    let ghost want = page.map_values(|r: (Seq<char>, nat, nat)| degree_cells(r, verbose));
    let mut body: Vec<Vec<String>> = Vec::new();
    let mut i: usize = start;
    assert(row_texts(body@) =~= want.take(0));
    while i < end
        invariant
            start <= i <= end <= rows.len(),
            page == degree_rows(rows@).subrange(start as int, end as int),
            want == page.map_values(|r: (Seq<char>, nat, nat)| degree_cells(r, verbose)),
            row_texts(body@) == want.take(i - start),
        decreases end - i,
    {
        let mut row: Vec<String> = Vec::new();
        let ins: u128 = rows[i].1 as u128;
        let outs: u128 = rows[i].2 as u128;
        row.push(rows[i].0.clone());
        if verbose {
            row.push(decimal_string(ins));
            row.push(decimal_string(outs));
        }
        row.push(decimal_string(ins + outs));
        let ghost before = row_texts(body@);
        body.push(row);
        proof {
            assert(page[i - start] == degree_rows(rows@)[i as int]);
            assert(texts(row@) =~= want[i - start]);
            assert(row_texts(body@) =~= before.push(texts(row@)));
            assert(want.take(i - start + 1) =~= want.take(i - start).push(want[i - start]));
        }
        i += 1;
    }
    assert(want.take(end - start) =~= want);
    let mut headers: Vec<&str> = Vec::new();
    headers.push(first);
    if verbose {
        headers.push("In");
        headers.push("Out");
    }
    headers.push("Total");
    assert(header_texts(headers@) =~= degree_headers(first@, verbose));
    render(headers.as_slice(), body.as_slice())
}

/// What is shown of the hubs: the page of them as a table of degrees.
pub fn hubs_text(
    rows: &Vec<(String, usize, usize)>,
    offset: usize,
    limit: Option<usize>,
    verbose: bool,
) -> (r: String)
    ensures
        r@ == degree_table("Path"@, degree_rows(rows@), offset, limit, verbose),
{
    degree_text("Path", rows, offset, limit, verbose)
}

/// What is shown of the modules by their centrality: the page of them as
/// a table of degrees.
pub fn module_centrality_text(
    rows: &Vec<(String, usize, usize)>,
    offset: usize,
    limit: Option<usize>,
    verbose: bool,
) -> (r: String)
    ensures
        r@ == degree_table("Module"@, degree_rows(rows@), offset, limit, verbose),
{
    degree_text("Module", rows, offset, limit, verbose)
}

/// The cells of an implementation: the path of its file; where more is
/// asked for, the type too.
pub open spec fn impl_cells(row: (Seq<char>, Seq<char>), verbose: bool) -> Seq<Seq<char>> {
    if verbose {
        seq![row.0, row.1]
    } else {
        seq![row.0]
    }
}

/// What is shown of the implementations of a trait: the page of them as a
/// table, or a word that there are none.
pub open spec fn impls_shown(
    rows: Seq<(Seq<char>, Seq<char>)>,
    offset: usize,
    limit: Option<usize>,
    verbose: bool,
) -> Seq<char> {
    if rows.len() == 0 {
        "<no implementations found>"@
    } else {
        table(
            if verbose {
                seq!["Path"@, "Type"@]
            } else {
                seq!["Path"@]
            },
            page_of(rows, offset, limit).map_values(
                |r: (Seq<char>, Seq<char>)| impl_cells(r, verbose),
            ),
        )
    }
}

/// What is shown of the implementations of a trait.
pub fn trait_impls_text(
    rows: &Vec<(String, String)>,
    offset: usize,
    limit: Option<usize>,
    verbose: bool,
) -> (r: String)
    ensures
        r@ == impls_shown(pair_texts(rows@), offset, limit, verbose),
{
    if rows.len() == 0 {
        return String::from_str("<no implementations found>");
    }
    let (start, end) = page_bounds(rows.len(), offset, limit);
    let ghost page = pair_texts(rows@).subrange(start as int, end as int);
    let ghost want = page.map_values(|r: (Seq<char>, Seq<char>)| impl_cells(r, verbose));
    let mut body: Vec<Vec<String>> = Vec::new();
    let mut i: usize = start;
    assert(row_texts(body@) =~= want.take(0));
    while i < end
        invariant
            start <= i <= end <= rows.len(),
            page == pair_texts(rows@).subrange(start as int, end as int),
            want == page.map_values(|r: (Seq<char>, Seq<char>)| impl_cells(r, verbose)),
            row_texts(body@) == want.take(i - start),
        decreases end - i,
    {
        let mut row: Vec<String> = Vec::new();
        row.push(rows[i].0.clone());
        if verbose {
            row.push(rows[i].1.clone());
        }
        let ghost before = row_texts(body@);
        body.push(row);
        proof {
            assert(page[i - start] == pair_texts(rows@)[i as int]);
            assert(texts(row@) =~= want[i - start]);
            assert(row_texts(body@) =~= before.push(texts(row@)));
            assert(want.take(i - start + 1) =~= want.take(i - start).push(want[i - start]));
        }
        i += 1;
    }
    assert(want.take(end - start) =~= want);
    let mut headers: Vec<&str> = Vec::new();
    headers.push("Path");
    if verbose {
        headers.push("Type");
    }
    assert(header_texts(headers@) =~= if verbose {
        seq!["Path"@, "Type"@]
    } else {
        seq!["Path"@]
    });
    render(headers.as_slice(), body.as_slice())
}

/// The cells of an item that nothing refers to: the path of its file and
/// its name; where more is asked for, its identifier, kind and visibility
/// too.
pub open spec fn unreferenced_cells(
    row: (Seq<char>, Seq<char>, Seq<char>, Seq<char>, Seq<char>),
    verbose: bool,
) -> Seq<Seq<char>> {
    if verbose {
        seq![row.0, row.1, row.2, row.3, row.4]
    } else {
        seq![row.0, row.2]
    }
}

/// What is shown of the items that nothing refers to: the page of them as
/// a table, or a word that there are none.
pub open spec fn unreferenced_shown(
    rows: Seq<(Seq<char>, Seq<char>, Seq<char>, Seq<char>, Seq<char>)>,
    offset: usize,
    limit: Option<usize>,
    verbose: bool,
) -> Seq<char> {
    if rows.len() == 0 {
        "<no unreferenced items>"@
    } else {
        table(
            if verbose {
                seq!["Path"@, "ItemId"@, "Name"@, "Kind"@, "Vis"@]
            } else {
                seq!["Path"@, "Name"@]
            },
            page_of(rows, offset, limit).map_values(
                |r: (Seq<char>, Seq<char>, Seq<char>, Seq<char>, Seq<char>)|
                    unreferenced_cells(r, verbose),
            ),
        )
    }
}

/// What is shown of the items that nothing refers to.
pub fn unreferenced_text(
    rows: &Vec<(String, String, String, String, String)>,
    offset: usize,
    limit: Option<usize>,
    verbose: bool,
) -> (r: String)
    ensures
        r@ == unreferenced_shown(five_texts(rows@), offset, limit, verbose),
{
    if rows.len() == 0 {
        return String::from_str("<no unreferenced items>");
    }
    let (start, end) = page_bounds(rows.len(), offset, limit);
    let ghost page = five_texts(rows@).subrange(start as int, end as int);
    let ghost want = page.map_values(
        |r: (Seq<char>, Seq<char>, Seq<char>, Seq<char>, Seq<char>)| unreferenced_cells(r, verbose),
    );
    let mut body: Vec<Vec<String>> = Vec::new();
    let mut i: usize = start;
    assert(row_texts(body@) =~= want.take(0));
    while i < end
        invariant
            start <= i <= end <= rows.len(),
            page == five_texts(rows@).subrange(start as int, end as int),
            want == page.map_values(
                |r: (Seq<char>, Seq<char>, Seq<char>, Seq<char>, Seq<char>)|
                    unreferenced_cells(r, verbose),
            ),
            row_texts(body@) == want.take(i - start),
        decreases end - i,
    {
        let mut row: Vec<String> = Vec::new();
        row.push(rows[i].0.clone());
        if verbose {
            row.push(rows[i].1.clone());
        }
        row.push(rows[i].2.clone());
        if verbose {
            row.push(rows[i].3.clone());
            row.push(rows[i].4.clone());
        }
        let ghost before = row_texts(body@);
        body.push(row);
        proof {
            assert(page[i - start] == five_texts(rows@)[i as int]);
            assert(texts(row@) =~= want[i - start]);
            assert(row_texts(body@) =~= before.push(texts(row@)));
            assert(want.take(i - start + 1) =~= want.take(i - start).push(want[i - start]));
        }
        i += 1;
    }
    assert(want.take(end - start) =~= want);
    let mut headers: Vec<&str> = Vec::new();
    headers.push("Path");
    if verbose {
        headers.push("ItemId");
    }
    headers.push("Name");
    if verbose {
        headers.push("Kind");
        headers.push("Vis");
    }
    assert(header_texts(headers@) =~= if verbose {
        seq!["Path"@, "ItemId"@, "Name"@, "Kind"@, "Vis"@]
    } else {
        seq!["Path"@, "Name"@]
    });
    render(headers.as_slice(), body.as_slice())
}

/// The identifiers of the entries.
pub open spec fn entry_ids(list: Seq<EntryView>) -> Seq<Seq<char>> {
    list.map_values(|e: EntryView| e.id)
}

/// The identifiers of the entries in one line, or a word that there are
/// none.
pub open spec fn ids_shown(list: Seq<EntryView>) -> Seq<char> {
    if list.len() == 0 {
        "<none>"@
    } else {
        joined(entry_ids(list), ", "@)
    }
}

/// The line for one entry.
pub open spec fn entry_line(e: EntryView) -> Seq<char> {
    "- ["@ + e.relation + "] "@ + e.name + " ("@ + e.id + ") @ "@ + e.path + " :: "@ + e.context
}

/// The lines for the entries under `title`, after an empty line.
pub open spec fn relation_lines(title: Seq<char>, list: Seq<EntryView>) -> Seq<Seq<char>> {
    if list.len() == 0 {
        seq!["\n"@ + title + ": <none>"@]
    } else {
        seq!["\n"@ + title + ":"@] + list.map_values(|e: EntryView| entry_line(e))
    }
}

/// The lines that name an item and say where it stands.
pub open spec fn head_lines(info: InfoView) -> Seq<Seq<char>> {
    seq![
        "Item: "@ + info.name,
        "Id: "@ + info.id,
        "Kind: "@ + info.kind,
        "Vis: "@ + info.visibility,
        "Location: "@ + info.path + ":"@ + decimal(info.line_start as nat) + "-"@ + decimal(
            info.line_end as nat,
        ),
    ]
}

/// The lines for the source of an item, where it is wanted and there.
pub open spec fn code_lines(info: InfoView, show_code: bool) -> Seq<Seq<char>> {
    if show_code && info.code is Some {
        seq!["\n--- code ---\n"@ + info.code->0 + "\n--- end code ---"@]
    } else {
        Seq::empty()
    }
}

/// What is shown of an item, line by line: its name, identifier, kind,
/// visibility and place; then the identifiers of the items that relate to
/// it and of those to which it relates, or, where more is asked for, its
/// source and a line for each of those relationships.
pub open spec fn info_lines(info: Option<InfoView>, verbose: bool, show_code: bool) -> Seq<
    Seq<char>,
> {
    match info {
        None => seq!["<item not found>"@],
        Some(i) => if verbose {
            head_lines(i) + code_lines(i, show_code) + relation_lines("Callers"@, i.inbound)
                + relation_lines("Callees"@, i.outbound)
        } else {
            head_lines(i) + seq![
                "\nCallers: "@ + ids_shown(i.inbound),
                "Callees: "@ + ids_shown(i.outbound),
            ]
        },
    }
}

fn ids_text(list: &Vec<ItemInfoRelationEntry>) -> (r: String)
    ensures
        r@ == ids_shown(entry_views(list@)),
{
    if list.len() == 0 {
        return String::from_str("<none>");
    }
    let ghost want = entry_ids(entry_views(list@));
    let mut ids: Vec<String> = Vec::new();
    let mut i: usize = 0;
    assert(texts(ids@) =~= want.take(0));
    while i < list.len()
        invariant
            i <= list.len(),
            want == entry_ids(entry_views(list@)),
            texts(ids@) == want.take(i as int),
        decreases list.len() - i,
    {
        let ghost before = texts(ids@);
        ids.push(list[i].id.clone());
        proof {
            assert(texts(ids@) =~= before.push(list@[i as int].id@));
            assert(want.take(i + 1) =~= want.take(i as int).push(want[i as int]));
        }
        i += 1;
    }
    assert(want.take(i as int) =~= want);
    join_texts(&ids, ", ")
}

fn push_relation_lines(out: &mut Vec<String>, title: &str, list: &Vec<ItemInfoRelationEntry>)
    ensures
        texts(final(out)@) == texts(old(out)@) + relation_lines(title@, entry_views(list@)),
{
    let ghost start = texts(out@);
    let ghost want = relation_lines(title@, entry_views(list@));
    let mut head = concat("\n", title);
    if list.len() == 0 {
        head.append(": <none>");
        out.push(head);
        assert(texts(out@) =~= start + want);
        return ;
    }
    head.append(":");
    out.push(head);
    assert(texts(out@) =~= start + want.take(1));
    let mut i: usize = 0;
    while i < list.len()
        invariant
            i <= list.len(),
            list.len() > 0,
            want == relation_lines(title@, entry_views(list@)),
            texts(out@) == start + want.take(i + 1),
        decreases list.len() - i,
    {
        let e = &list[i];
        let mut line = concat("- [", e.relation.as_str());
        line.append("] ");
        line.append(e.name.as_str());
        line.append(" (");
        line.append(e.id.as_str());
        line.append(") @ ");
        line.append(e.path.as_str());
        line.append(" :: ");
        line.append(e.context.as_str());
        let ghost before = texts(out@);
        out.push(line);
        proof {
            assert(line@ == entry_line(list@[i as int]@));
            assert(want[i + 1] == entry_line(entry_views(list@)[i as int]));
            assert(texts(out@) =~= before.push(line@));
            assert(want.take(i + 2) =~= want.take(i + 1).push(want[i + 1]));
        }
        i += 1;
    }
    assert(want.take(i + 1) =~= want);
}

/// What is shown of an item, line by line.
pub fn item_info_lines(info: &Option<ItemInfoResult>, verbose: bool, show_code: bool) -> (r: Vec<
    String,
>)
    ensures
        texts(r@) == info_lines(
            match *info {
                Some(i) => Some(i@),
                None => None,
            },
            verbose,
            show_code,
        ),
{
    let mut out: Vec<String> = Vec::new();
    let i = match info {
        None => {
            out.push(String::from_str("<item not found>"));
            assert(texts(out@) =~= seq!["<item not found>"@]);
            return out;
        },
        Some(i) => i,
    };
    out.push(concat("Item: ", i.name.as_str()));
    out.push(concat("Id: ", i.id.as_str()));
    out.push(concat("Kind: ", i.kind.as_str()));
    out.push(concat("Vis: ", i.visibility.as_str()));
    let mut place = concat("Location: ", i.path.as_str());
    place.append(":");
    place.append(decimal_string(i.line_start as u128).as_str());
    place.append("-");
    place.append(decimal_string(i.line_end as u128).as_str());
    out.push(place);
    assert(texts(out@) =~= head_lines(i@));
    if verbose {
        if show_code {
            match &i.code {
                Some(code) => {
                    let mut block = concat("\n--- code ---\n", code.as_str());
                    block.append("\n--- end code ---");
                    out.push(block);
                },
                None => {},
            }
        }
        assert(texts(out@) =~= head_lines(i@) + code_lines(i@, show_code));
        push_relation_lines(&mut out, "Callers", &i.inbound);
        push_relation_lines(&mut out, "Callees", &i.outbound);
    } else {
        let callers = ids_text(&i.inbound);
        let callees = ids_text(&i.outbound);
        out.push(concat("\nCallers: ", callers.as_str()));
        out.push(concat("Callees: ", callees.as_str()));
        assert(texts(out@) =~= head_lines(i@) + seq![
            "\nCallers: "@ + ids_shown(i@.inbound),
            "Callees: "@ + ids_shown(i@.outbound),
        ]);
    }
    out
}

/// The entries without what is said of how each relationship came about.
pub open spec fn without_context(list: Seq<EntryView>) -> Seq<EntryView> {
    list.map_values(
        |e: EntryView|
            EntryView {
                id: e.id,
                name: e.name,
                path: e.path,
                relation: e.relation,
                context: Seq::empty(),
            },
    )
}

/// What is known of an item without its source and without what is said
/// of how each relationship came about.
pub open spec fn trimmed(info: InfoView) -> InfoView {
    InfoView {
        id: info.id,
        name: info.name,
        kind: info.kind,
        visibility: info.visibility,
        path: info.path,
        line_start: info.line_start,
        line_end: info.line_end,
        code: None,
        inbound: without_context(info.inbound),
        outbound: without_context(info.outbound),
    }
}

fn trim_entries(list: &Vec<ItemInfoRelationEntry>) -> (r: Vec<ItemInfoRelationEntry>)
    ensures
        entry_views(r@) == without_context(entry_views(list@)),
{
    let ghost want = without_context(entry_views(list@));
    let mut out: Vec<ItemInfoRelationEntry> = Vec::new();
    let mut i: usize = 0;
    assert(entry_views(out@) =~= want.take(0));
    while i < list.len()
        invariant
            i <= list.len(),
            want == without_context(entry_views(list@)),
            entry_views(out@) == want.take(i as int),
        decreases list.len() - i,
    {
        let e = &list[i];
        let entry = ItemInfoRelationEntry {
            id: e.id.clone(),
            name: e.name.clone(),
            path: e.path.clone(),
            relation: e.relation.clone(),
            context: String::new(),
        };
        let ghost before = entry_views(out@);
        out.push(entry);
        proof {
            assert(entry@.context =~= Seq::<char>::empty());
            assert(entry@ == want[i as int]);
            assert(entry_views(out@) =~= before.push(entry@));
            assert(want.take(i + 1) =~= want.take(i as int).push(want[i as int]));
        }
        i += 1;
    }
    assert(want.take(i as int) =~= want);
    out
}

/// What is known of an item, without its source and without what is said
/// of how each relationship came about.
pub fn trim_info(info: ItemInfoResult) -> (r: ItemInfoResult)
    ensures
        r@ == trimmed(info@),
{
    let inbound = trim_entries(&info.inbound);
    let outbound = trim_entries(&info.outbound);
    ItemInfoResult {
        id: info.id,
        name: info.name,
        kind: info.kind,
        visibility: info.visibility,
        path: info.path,
        line_start: info.line_start,
        line_end: info.line_end,
        code: None,
        inbound,
        outbound,
    }
}

/// The line for one of the items that carry a name.
pub open spec fn candidate_line(c: CandidateView) -> Seq<char> {
    "- id="@ + c.id + "  kind="@ + c.kind + "  path="@ + c.path
}

/// What is said where a name stands for several items: the name, a line
/// for each of the first ten of the items, and how to tell them apart.
pub open spec fn ambiguity_report(name: Seq<char>, ranked: Seq<CandidateView>) -> Seq<Seq<char>> {
    let shown = if ranked.len() < 10 {
        ranked
    } else {
        ranked.take(10)
    };
    seq!["Ambiguous name '"@ + name + "'. Top matches:"@] + shown.map_values(
        |c: CandidateView| candidate_line(c),
    ) + seq!["Disambiguate by providing --item-id or add --kind."@]
}

/// What is said where a name stands for several items.
pub fn ambiguity_lines(name: &str, ranked: &Vec<Candidate>) -> (r: Vec<String>)
    ensures
        texts(r@) == ambiguity_report(name@, candidate_views(ranked@)),
{
    let count: usize = if ranked.len() < 10 {
        ranked.len()
    } else {
        10
    };
    let ghost shown = candidate_views(ranked@).take(count as int);
    let ghost lines = shown.map_values(|c: CandidateView| candidate_line(c));
    let ghost head = "Ambiguous name '"@ + name@ + "'. Top matches:"@;
    assert(shown =~= if ranked.len() < 10 {
        candidate_views(ranked@)
    } else {
        candidate_views(ranked@).take(10)
    });
    let mut out: Vec<String> = Vec::new();
    let mut first = concat("Ambiguous name '", name);
    first.append("'. Top matches:");
    out.push(first);
    assert(texts(out@) =~= seq![head] + lines.take(0));
    let mut i: usize = 0;
    while i < count
        invariant
            i <= count <= ranked.len(),
            shown == candidate_views(ranked@).take(count as int),
            lines == shown.map_values(|c: CandidateView| candidate_line(c)),
            texts(out@) == seq![head] + lines.take(i as int),
        decreases count - i,
    {
        let c = &ranked[i];
        let mut line = concat("- id=", c.id.0.as_str());
        line.append("  kind=");
        line.append(c.kind.as_str());
        line.append("  path=");
        line.append(c.path.as_str());
        let ghost before = texts(out@);
        out.push(line);
        proof {
            assert(shown[i as int] == ranked@[i as int]@);
            assert(line@ == candidate_line(ranked@[i as int]@));
            assert(texts(out@) =~= before.push(line@));
            assert(lines.take(i + 1) =~= lines.take(i as int).push(lines[i as int]));
        }
        i += 1;
    }
    assert(lines.take(i as int) =~= lines);
    let ghost before = texts(out@);
    out.push(String::from_str("Disambiguate by providing --item-id or add --kind."));
    assert(texts(out@) =~= before.push("Disambiguate by providing --item-id or add --kind."@));
    out
}

} // verus!
