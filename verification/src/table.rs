//! Plain tables of text: a frame of `+`, `-` and `|` around cells that are
//! padded to the width of their column. Widths are counted in bytes.

use crate::text::bytes_of;
use vstd::prelude::*;

verus! {

/// `n` times the character `c`.
pub open spec fn repeat(c: char, n: nat) -> Seq<char> {
    Seq::new(n, |i: int| c)
}

/// The line that separates rows: `+`, and for each column as many `-` as it
/// is wide and two more, then `+`.
pub open spec fn sep_line(widths: Seq<usize>) -> Seq<char>
    decreases widths.len(),
{
    if widths.len() == 0 {
        seq!['+']
    } else {
        sep_line(widths.drop_last()) + repeat('-', (widths.last() + 2) as nat) + seq!['+']
    }
}

/// How many bytes a text has.
pub open spec fn byte_len(s: Seq<char>) -> nat {
    bytes_of(s).len()
}

/// One cell in its column: a space, the text, spaces up to the width of the
/// column, a space and `|`.
pub open spec fn cell_text(cell: Seq<char>, width: usize) -> Seq<char> {
    seq![' '] + cell + repeat(
        ' ',
        if byte_len(cell) < width {
            (width - byte_len(cell)) as nat
        } else {
            0nat
        },
    ) + seq![' ', '|']
}

/// The line of the first `n` cells: `|`, then each cell in its column.
pub open spec fn row_line(cells: Seq<Seq<char>>, widths: Seq<usize>, n: int) -> Seq<char>
    decreases n,
{
    if n <= 0 || n > cells.len() || n > widths.len() {
        seq!['|']
    } else {
        row_line(cells, widths, n - 1) + cell_text(cells[n - 1], widths[n - 1])
    }
}

/// The cell of a row in column `c`; empty where the row is shorter.
pub open spec fn cell_of(row: Seq<Seq<char>>, c: int) -> Seq<char> {
    if 0 <= c < row.len() {
        row[c]
    } else {
        Seq::empty()
    }
}

/// The width of column `c` over its header and the first `n` rows: the
/// most bytes that one of these cells has.
pub open spec fn col_width(header: Seq<char>, rows: Seq<Seq<Seq<char>>>, c: int, n: int) -> nat
    decreases n,
{
    if n <= 0 || n > rows.len() {
        byte_len(header)
    } else {
        let prev = col_width(header, rows, c, n - 1);
        if byte_len(cell_of(rows[n - 1], c)) > prev {
            byte_len(cell_of(rows[n - 1], c))
        } else {
            prev
        }
    }
}

/// The cells of a row in the first `cols` columns.
pub open spec fn cells_of(row: Seq<Seq<char>>, cols: nat) -> Seq<Seq<char>> {
    Seq::new(cols, |c: int| cell_of(row, c))
}

/// The lines of the first `n` rows, each with a line feed after it.
pub open spec fn body_lines(rows: Seq<Seq<Seq<char>>>, widths: Seq<usize>, n: int) -> Seq<char>
    decreases n,
{
    if n <= 0 || n > rows.len() {
        Seq::empty()
    } else {
        body_lines(rows, widths, n - 1) + row_line(
            cells_of(rows[n - 1], widths.len()),
            widths,
            widths.len() as int,
        ) + seq!['\n']
    }
}

/// The widths of the columns: one column for each header.
pub open spec fn widths_of(headers: Seq<Seq<char>>, rows: Seq<Seq<Seq<char>>>) -> Seq<usize> {
    Seq::new(
        headers.len(),
        |c: int| col_width(headers[c], rows, c, rows.len() as int) as usize,
    )
}

/// The table: a separator, the headers, a separator, the rows, a
/// separator. There are as many columns as headers.
pub open spec fn table(headers: Seq<Seq<char>>, rows: Seq<Seq<Seq<char>>>) -> Seq<char> {
    let widths = widths_of(headers, rows);
    sep_line(widths) + seq!['\n'] + row_line(headers, widths, widths.len() as int) + seq!['\n']
        + sep_line(widths) + seq!['\n'] + body_lines(rows, widths, rows.len() as int) + sep_line(
        widths,
    )
}

/// The views of the headers.
pub open spec fn header_texts(v: Seq<&str>) -> Seq<Seq<char>> {
    v.map_values(|s: &str| s@)
}

/// The views of the rows.
pub open spec fn row_texts(v: Seq<Vec<String>>) -> Seq<Seq<Seq<char>>> {
    v.map_values(|r: Vec<String>| crate::model::texts(r@))
}

fn push_repeat(out: &mut String, c: char, n: usize)
    ensures
        final(out)@ == old(out)@ + repeat(c, n as nat),
{
    let ghost start = out@;
    let mut i: usize = 0;
    assert(start + repeat(c, 0) =~= start);
    while i < n
        invariant
            i <= n,
            out@ == start + repeat(c, i as nat),
        decreases n - i,
    {
        out.push(c);
        assert(start + repeat(c, (i + 1) as nat) =~= (start + repeat(c, i as nat)).push(c));
        i += 1;
    }
}

/// The line that separates rows.
pub fn sep(widths: &[usize]) -> (r: String)
    ensures
        r@ == sep_line(widths@),
{
    let mut s = String::new();
    s.push('+');
    let mut i: usize = 0;
    assert(widths@.take(0) =~= Seq::<usize>::empty());
    assert(s@ =~= seq!['+']);
    while i < widths.len()
        invariant
            i <= widths.len(),
            s@ == sep_line(widths@.take(i as int)),
        decreases widths.len() - i,
    {
        let ghost before = s@;
        assert(widths@.take(i + 1).drop_last() =~= widths@.take(i as int));
        assert(widths@.take(i + 1).last() == widths@[i as int]);
        s.push('-');
        s.push('-');
        push_repeat(&mut s, '-', widths[i]);
        s.push('+');
        assert(s@ =~= before + repeat('-', (widths@[i as int] + 2) as nat) + seq!['+']);
        i += 1;
    }
    assert(widths@.take(i as int) =~= widths@);
    s
}

fn push_cell(out: &mut String, cell: &str, width: usize)
    ensures
        final(out)@ == old(out)@ + cell_text(cell@, width),
{
    let ghost start = out@;
    out.push(' ');
    vstd::string::StringExecFns::append(out, cell);
    let len = cell.as_bytes().len();
    let ghost pad: nat = if len < width {
        (width - len) as nat
    } else {
        0nat
    };
    if len < width {
        push_repeat(out, ' ', width - len);
    } else {
        assert(out@ + repeat(' ', 0) =~= out@);
    }
    out.push(' ');
    out.push('|');
    assert(out@ =~= start + (seq![' '] + cell@ + repeat(' ', pad) + seq![' ', '|']));
}

/// The line of a row: its cells, each in its column.
pub fn line(cells: &[String], widths: &[usize]) -> (r: String)
    requires
        cells.len() <= widths.len(),
    ensures
        r@ == row_line(crate::model::texts(cells@), widths@, cells.len() as int),
{
    let ghost views = crate::model::texts(cells@);
    let mut s = String::new();
    s.push('|');
    let mut i: usize = 0;
    assert(s@ =~= seq!['|']);
    while i < cells.len()
        invariant
            i <= cells.len() <= widths.len(),
            views == crate::model::texts(cells@),
            s@ == row_line(views, widths@, i as int),
        decreases cells.len() - i,
    {
        assert(views[i as int] == cells@[i as int]@);
        push_cell(&mut s, cells[i].as_str(), widths[i]);
        i += 1;
    }
    s
}

/// The table of `rows` under `headers`. Each column is as wide as the
/// longest of its cells, the header among them; a row that is short of
/// cells gets empty ones, and what a row has beyond the columns is left
/// out.
pub fn render(headers: &[&str], rows: &[Vec<String>]) -> (r: String)
    ensures
        r@ == table(header_texts(headers@), row_texts(rows@)),
{
    let ghost hs = header_texts(headers@);
    let ghost rs = row_texts(rows@);
    let cols = headers.len();
    let mut widths: Vec<usize> = Vec::new();
    let mut c: usize = 0;
    while c < cols
        invariant
            c <= cols,
            cols == headers.len(),
            hs == header_texts(headers@),
            rs == row_texts(rows@),
            widths.len() == c,
            forall|k: int|
                0 <= k < c ==> #[trigger] widths@[k] == col_width(hs[k], rs, k, rows.len() as int),
        decreases cols - c,
    {
        assert(hs[c as int] == headers@[c as int]@);
        let mut w: usize = headers[c].as_bytes().len();
        let mut n: usize = 0;
        while n < rows.len()
            invariant
                n <= rows.len(),
                c < cols,
                hs == header_texts(headers@),
                rs == row_texts(rows@),
                w == col_width(hs[c as int], rs, c as int, n as int),
            decreases rows.len() - n,
        {
            assert(rs[n as int] == crate::model::texts(rows@[n as int]@));
            let len = if c < rows[n].len() {
                assert(crate::model::texts(rows@[n as int]@)[c as int] == rows@[n as int]@[c as int]@);
                rows[n][c].as_str().as_bytes().len()
            } else {
                proof {
                    vstd::utf8::encode_utf8_decode_utf8(Seq::<char>::empty());
                    assert(bytes_of(Seq::<char>::empty()).len() == 0) by {
                        reveal_with_fuel(vstd::utf8::encode_utf8, 1);
                    }
                }
                0
            };
            if len > w {
                w = len;
            }
            n += 1;
        }
        widths.push(w);
        c += 1;
    }
    assert(widths@ =~= widths_of(hs, rs));
    let mut out = sep(widths.as_slice());
    out.push('\n');
    let mut head = String::new();
    head.push('|');
    let mut i: usize = 0;
    assert(head@ =~= seq!['|']);
    while i < cols
        invariant
            i <= cols,
            cols == headers.len(),
            cols == widths.len(),
            hs == header_texts(headers@),
            head@ == row_line(hs, widths@, i as int),
        decreases cols - i,
    {
        assert(hs[i as int] == headers@[i as int]@);
        push_cell(&mut head, headers[i], widths[i]);
        i += 1;
    }
    vstd::string::StringExecFns::append(&mut out, head.as_str());
    out.push('\n');
    let separator = sep(widths.as_slice());
    vstd::string::StringExecFns::append(&mut out, separator.as_str());
    out.push('\n');
    let ghost top = out@;
    assert(top =~= sep_line(widths@) + seq!['\n'] + row_line(hs, widths@, widths.len() as int)
        + seq!['\n'] + sep_line(widths@) + seq!['\n']);
    let mut n: usize = 0;
    assert(top + body_lines(rs, widths@, 0) =~= top);
    while n < rows.len()
        invariant
            n <= rows.len(),
            cols == widths.len(),
            rs == row_texts(rows@),
            out@ == top + body_lines(rs, widths@, n as int),
        decreases rows.len() - n,
    {
        let ghost before = out@;
        let row = &rows[n];
        assert(rs[n as int] == crate::model::texts(row@));
        let ghost cells = cells_of(rs[n as int], cols as nat);
        let mut text = String::new();
        text.push('|');
        let mut k: usize = 0;
        assert(text@ =~= seq!['|']);
        while k < cols
            invariant
                k <= cols,
                cols == widths.len(),
                cells == cells_of(crate::model::texts(row@), cols as nat),
                text@ == row_line(cells, widths@, k as int),
            decreases cols - k,
        {
            if k < row.len() {
                assert(crate::model::texts(row@)[k as int] == row@[k as int]@);
                push_cell(&mut text, row[k].as_str(), widths[k]);
            } else {
                proof {
                    reveal_strlit("");
                    assert(""@ =~= Seq::<char>::empty());
                }
                push_cell(&mut text, "", widths[k]);
            }
            k += 1;
        }
        vstd::string::StringExecFns::append(&mut out, text.as_str());
        out.push('\n');
        assert(out@ =~= before + row_line(cells, widths@, widths.len() as int) + seq!['\n']);
        assert(top + (body_lines(rs, widths@, n as int) + row_line(
            cells,
            widths@,
            widths.len() as int,
        ) + seq!['\n']) =~= out@);
        n += 1;
    }
    vstd::string::StringExecFns::append(&mut out, separator.as_str());
    assert(out@ =~= table(hs, rs));
    out
}

} // verus!
