//! Reading `block-beta` source.
//!
//! ```text
//! block-beta
//!   columns 4                       the grid width
//!   Id["Label"] space Other         one row of cells, filled left to right
//!   A --> B                         a wire between two cells
//! ```
//!
//! Every token on a row consumes a cell, including `space` — which is the only
//! way to leave a hole in the grid, so it has to take a slot to make one.
use vstd::prelude::*;

use super::types::{Block, BlockView, Diagram, DiagramView, Edge, EdgeView};
use crate::text::{
    chars_of, decimal, decimal_reads_back, eq_ignore_case, find_pat, find_text, has_prefix,
    ident, ident_end, ident_run, is_digit, is_ident, is_ws, lemma_ident_run, lines,
    parse_decimal, parse_usize, same_ignoring_case, skip_ws, slice, split_lines, starts_with,
    string_of, strip_prefix, trim, trim_end, trim_start, trimmed,
};

verus! {

/// Whether `line` opens with `keyword` as a whole word: whatever follows the
/// keyword, if anything, is not a word character, so `blocks` does not open
/// with `block`.
pub open spec fn opens_with(line: Seq<char>, keyword: Seq<char>) -> bool {
    &&& starts_with(line, keyword)
    &&& (line.len() == keyword.len() || !is_ident(line[keyword.len() as int]))
}

/// Whether `line` opens with `keyword` as a whole word.
pub fn opens(line: &[char], keyword: &[char]) -> (r: bool)
    ensures
        r == opens_with(line@, keyword@),
{
    has_prefix(line, keyword) && (line.len() == keyword.len() || !ident(line[keyword.len()]))
}

/// The width a `columns N` line sets, if that is what the line is; a width
/// of nothing is read as one.
pub open spec fn columns_of(line: Seq<char>) -> Option<nat> {
    if !opens_with(line, "columns"@) {
        None
    } else {
        match parse_usize(trim(line.skip("columns"@.len() as int))) {
            Some(n) => Some(
                if n < 1 {
                    1
                } else {
                    n
                },
            ),
            None => None,
        }
    }
}

/// A `columns N` line, if that is what this is.
pub fn parse_columns(line: &[char]) -> (r: Option<usize>)
    ensures
        r matches Some(n) ==> columns_of(line@) == Some(n as nat),
        r is None ==> columns_of(line@) is None,
{
    let keyword = chars_of("columns");
    if !opens(line, &keyword) {
        return None;
    }
    let rest = trimmed(&slice(line, keyword.len(), line.len()));
    assert(line@.subrange(keyword@.len() as int, line@.len() as int) == line@.skip(
        keyword@.len() as int,
    ));
    match parse_decimal(&rest) {
        Some(n) => Some(
            if n < 1 {
                1
            } else {
                n
            },
        ),
        None => None,
    }
}

/// An `A --> B` line: a word, an arrow, a word, with any spacing between.
pub open spec fn edge_of(line: Seq<char>) -> Option<EdgeView> {
    let n = ident_run(line);
    if n == 0 {
        None
    } else {
        match strip_prefix(trim_start(line.skip(n as int)), "-->"@) {
            None => None,
            Some(tail) => {
                let t = trim_start(tail);
                let m = ident_run(t);
                if m == 0 {
                    None
                } else {
                    Some(EdgeView { source: line.take(n as int), target: t.take(m as int) })
                }
            },
        }
    }
}

/// An `A --> B` line, if that is what this is.
pub fn parse_edge(line: &[char]) -> (r: Option<Edge>)
    ensures
        r matches Some(e) ==> edge_of(line@) == Some(e@),
        r is None ==> edge_of(line@) is None,
{
    assert(line@.skip(0) == line@);
    let n = ident_end(line, 0);
    if n == 0 {
        return None;
    }
    let a = skip_ws(line, n);
    let rest = slice(line, a, line.len());
    assert(rest@ == line@.skip(a as int));
    let arrow = chars_of("-->");
    if !has_prefix(&rest, &arrow) {
        return None;
    }
    assert(rest@.skip(arrow@.len() as int) == line@.skip(a + arrow@.len()));
    let b = skip_ws(line, a + arrow.len());
    let e = ident_end(line, b);
    if e == b {
        return None;
    }
    assert(line@.skip(b as int).take((e - b) as int) == line@.subrange(b as int, e as int));
    assert(line@.take(n as int) == line@.subrange(0, n as int));
    Some(Edge { source: string_of(&slice(line, 0, n)), target: string_of(&slice(line, b, e)) })
}

/// Where a bracketed label that opened before `from` closes: the first `"]`
/// at or after `from`.
pub open spec fn close_from(s: Seq<char>, from: int) -> Option<int>
    decreases s.len() - from,
{
    if from < 0 || from + 1 >= s.len() {
        None
    } else if s[from] == '"' && s[from + 1] == ']' {
        Some(from)
    } else {
        close_from(s, from + 1)
    }
}

pub proof fn lemma_close_from(s: Seq<char>, from: int)
    ensures
        close_from(s, from) matches Some(c) ==> from <= c && c + 1 < s.len() && s[c] == '"'
            && s[c + 1] == ']',
    decreases s.len() - from,
{
    if !(from < 0 || from + 1 >= s.len()) && !(s[from] == '"' && s[from + 1] == ']') {
        lemma_close_from(s, from + 1);
    }
}

/// Where the label opened before `from` closes, if it does.
fn find_close(s: &[char], from: usize) -> (r: Option<usize>)
    ensures
        r matches Some(c) ==> close_from(s@, from as int) == Some(c as int),
        r is None ==> close_from(s@, from as int) is None,
{
    let mut j = from;
    while j < s.len() && j + 1 < s.len()
        invariant
            from <= j,
            close_from(s@, from as int) == close_from(s@, j as int),
        decreases s.len() - j,
    {
        if s[j] == '"' && s[j + 1] == ']' {
            return Some(j);
        }
        j += 1;
    }
    None
}

/// One cell token: an id, and the label it was written with, if any.
pub struct CellView {
    pub id: Seq<char>,
    pub label: Option<Seq<char>>,
}

/// The cells on a row from position `i`, left to right.
///
/// A token is `Id["Label"]` or a bare `Id`; anything between tokens is
/// skipped. An `Id[` with no closing `"]` falls back to the bare form rather
/// than swallowing the rest of the line.
pub open spec fn cells_from(s: Seq<char>, i: int) -> Seq<CellView>
    decreases s.len() - i,
{
    if i < 0 || i >= s.len() {
        Seq::empty()
    } else if !is_ident(s[i]) {
        cells_from(s, i + 1)
    } else {
        let after = i + ident_run(s.skip(i));
        proof {
            lemma_ident_run(s.skip(i));
            assert(s.skip(i)[0] == s[i]);
            lemma_close_from(s, after + 2);
        }
        let bracketed = after + 1 < s.len() && s[after] == '[' && s[after + 1] == '"';
        let id = s.subrange(i, after);
        match close_from(s, after + 2) {
            Some(c) => if bracketed {
                seq![CellView { id, label: Some(s.subrange(after + 2, c)) }] + cells_from(
                    s,
                    c + 2,
                )
            } else {
                seq![CellView { id, label: None }] + cells_from(s, after)
            },
            None => seq![CellView { id, label: None }] + cells_from(s, after),
        }
    }
}

/// One cell token, as read.
pub struct Cell {
    pub id: Vec<char>,
    pub label: Option<Vec<char>>,
}

impl View for Cell {
    type V = CellView;

    open spec fn view(&self) -> CellView {
        CellView {
            id: self.id@,
            label: match self.label {
                Some(l) => Some(l@),
                None => None,
            },
        }
    }
}

/// The cells on a row, left to right.
pub fn cells(line: &[char]) -> (out: Vec<Cell>)
    ensures
        out@.map_values(|c: Cell| c@) == cells_from(line@, 0),
{
    let mut out: Vec<Cell> = Vec::new();
    let mut i: usize = 0;
    while i < line.len()
        invariant
            i <= line.len(),
            cells_from(line@, 0) == out@.map_values(|c: Cell| c@) + cells_from(line@, i as int),
        decreases line.len() - i,
    {
        if !ident(line[i]) {
            i += 1;
            continue;
        }
        let after = ident_end(line, i);
        proof {
            lemma_ident_run(line@.skip(i as int));
            assert(line@.skip(i as int)[0] == line@[i as int]);
            lemma_close_from(line@, after + 2);
        }
        let bracketed = after < line.len() && line[after] == '[' && after + 1 < line.len()
            && line[after + 1] == '"';
        if bracketed {
            if let Some(close) = find_close(line, after + 2) {
                let cell = Cell { id: slice(line, i, after), label: Some(slice(line, after + 2, close)) };
                let ghost before = out@.map_values(|c: Cell| c@);
                out.push(cell);
                assert(out@.map_values(|c: Cell| c@) == before.push(cell@));
                assert(cells_from(line@, i as int) == seq![cell@] + cells_from(line@, close + 2));
                i = close + 2;
                continue;
            }
        }
        let cell = Cell { id: slice(line, i, after), label: None };
        let ghost before = out@.map_values(|c: Cell| c@);
        out.push(cell);
        assert(out@.map_values(|c: Cell| c@) == before.push(cell@));
        assert(cells_from(line@, i as int) == seq![cell@] + cells_from(line@, after as int));
        i = after;
    }
    out
}

/// A bare `space` holds a slot open without drawing anything; `space["Gap"]`
/// names a block that happens to be called space.
pub open spec fn is_hole(cell: CellView) -> bool {
    cell.label is None && eq_ignore_case(cell.id, "space"@)
}

/// The block a cell draws, in column `col` of row `row`: labelled as written,
/// or with its own id when no label was.
pub open spec fn block_of(cell: CellView, col: nat, row: nat) -> BlockView {
    BlockView {
        id: cell.id,
        label: match cell.label {
            Some(l) => l,
            None => cell.id,
        },
        col,
        row,
    }
}

/// The blocks drawn by the first `n` cells of row `row`; every cell takes a
/// column, holes included.
pub open spec fn blocks_upto(cells: Seq<CellView>, n: int, row: nat) -> Seq<BlockView>
    decreases n,
{
    if n <= 0 {
        Seq::empty()
    } else {
        let before = blocks_upto(cells, n - 1, row);
        if is_hole(cells[n - 1]) {
            before
        } else {
            before.push(block_of(cells[n - 1], (n - 1) as nat, row))
        }
    }
}

/// Everything before a `%%` comment.
pub open spec fn strip_comment(line: Seq<char>) -> Seq<char> {
    match find_pat(line, "%%"@) {
        Some(k) => line.take(k),
        None => line,
    }
}

/// Everything before a `%%` comment.
fn without_comment(line: &[char]) -> (out: Vec<char>)
    ensures
        out@ == strip_comment(line@),
{
    match find_text(line, &chars_of("%%")) {
        Some(k) => {
            assert(line@.take(k as int) == line@.subrange(0, k as int));
            slice(line, 0, k)
        },
        None => {
            assert(line@.subrange(0, line@.len() as int) == line@);
            slice(line, 0, line.len())
        },
    }
}

/// A diagram part way through reading: what has been read, and which row the
/// next line of cells fills.
pub struct ReadState {
    pub diagram: DiagramView,
    pub row: nat,
}

/// How one line changes the diagram being read: the header and blank lines
/// change nothing, `columns N` sets the width, `A --> B` adds a wire, and any
/// other line is a row of cells.
pub open spec fn read_line(st: ReadState, raw: Seq<char>) -> ReadState {
    let line = trim(strip_comment(raw));
    let d = st.diagram;
    if line.len() == 0 || opens_with(line, "block-beta"@) || opens_with(line, "block"@) {
        st
    } else if let Some(c) = columns_of(line) {
        ReadState { diagram: DiagramView { columns: c, blocks: d.blocks, edges: d.edges }, row: st.row }
    } else if let Some(e) = edge_of(line) {
        ReadState {
            diagram: DiagramView { columns: d.columns, blocks: d.blocks, edges: d.edges.push(e) },
            row: st.row,
        }
    } else {
        let cs = cells_from(line, 0);
        ReadState {
            diagram: DiagramView {
                columns: d.columns,
                blocks: d.blocks + blocks_upto(cs, cs.len() as int, st.row),
                edges: d.edges,
            },
            row: st.row + 1,
        }
    }
}

/// The lines read in order, from a grid one column wide with nothing in it.
pub open spec fn read_lines(ls: Seq<Seq<char>>) -> ReadState
    decreases ls.len(),
{
    if ls.len() == 0 {
        ReadState {
            diagram: DiagramView { columns: 1, blocks: Seq::empty(), edges: Seq::empty() },
            row: 0,
        }
    } else {
        read_line(read_lines(ls.drop_last()), ls.last())
    }
}

/// What `parse` reads from a source.
pub open spec fn parse_of(source: Seq<char>) -> DiagramView {
    read_lines(lines(source)).diagram
}

/// Parse a block diagram. A line that matches nothing is still a row.
pub fn parse(source: &str) -> (d: Diagram)
    ensures
        d@ == parse_of(source@),
{
    let all = split_lines(&chars_of(source));
    let mut diagram = Diagram::default();
    let mut row: usize = 0;
    let ghost ls = lines(source@);
    let header = chars_of("block-beta");
    let short_header = chars_of("block");
    let space = chars_of("space");
    let mut i: usize = 0;
    assert(diagram@.blocks =~= Seq::<BlockView>::empty());
    assert(diagram@.edges =~= Seq::<EdgeView>::empty());
    assert(ls.take(0) =~= Seq::<Seq<char>>::empty());
    while i < all.len()
        invariant
            i <= all.len() == ls.len(),
            ls == lines(source@),
            forall|m: int| 0 <= m < all.len() ==> #[trigger] all[m]@ == ls[m],
            header@ == "block-beta"@,
            short_header@ == "block"@,
            space@ == "space"@,
            row <= i,
            diagram@ == read_lines(ls.take(i as int)).diagram,
            row as nat == read_lines(ls.take(i as int)).row,
        decreases all.len() - i,
    {
        assert(ls.take(i + 1).drop_last() == ls.take(i as int));
        assert(ls.take(i + 1).last() == all[i as int]@);
        let line = trimmed(&without_comment(&all[i]));
        if line.len() == 0 || opens(&line, &header) || opens(&line, &short_header) {
        } else if let Some(columns) = parse_columns(&line) {
            diagram.columns = columns;
        } else if let Some(found) = parse_edge(&line) {
            diagram.edges.push(found);
            assert(diagram@.edges == read_lines(ls.take(i as int)).diagram.edges.push(found@));
        } else {
            let cs = cells(&line);
            let ghost cv = cs@.map_values(|c: Cell| c@);
            let ghost before = diagram@.blocks;
            let mut k: usize = 0;
            assert(before + blocks_upto(cv, 0, row as nat) == before);
            while k < cs.len()
                invariant
                    k <= cs.len(),
                    cv == cs@.map_values(|c: Cell| c@),
                    space@ == "space"@,
                    diagram@.blocks == before + blocks_upto(cv, k as int, row as nat),
                    diagram@.columns == read_lines(ls.take(i as int)).diagram.columns,
                    diagram@.edges == read_lines(ls.take(i as int)).diagram.edges,
                decreases cs.len() - k,
            {
                let cell = &cs[k];
                assert(cv[k as int] == cell@);
                let hole = cell.label.is_none() && same_ignoring_case(&cell.id, &space);
                if !hole {
                    let label = match &cell.label {
                        Some(l) => string_of(l),
                        None => string_of(&cell.id),
                    };
                    let block = Block { id: string_of(&cell.id), label, col: k, row };
                    assert(block@ == block_of(cv[k as int], k as nat, row as nat));
                    let ghost pre = diagram@.blocks;
                    diagram.blocks.push(block);
                    assert(diagram@.blocks == pre.push(block@));
                    assert(diagram@.blocks == before + blocks_upto(cv, k as int, row as nat).push(
                        block@,
                    ));
                }
                k += 1;
            }
            row += 1;
        }
        i += 1;
    }
    assert(ls.take(ls.len() as int) == ls);
    diagram
}

/// Whether `a` comes before `b` in reading order: an earlier row, or the
/// same row further left.
pub open spec fn reads_before(a: BlockView, b: BlockView) -> bool {
    a.row < b.row || (a.row == b.row && a.col < b.col)
}

proof fn lemma_blocks_upto(cells: Seq<CellView>, n: int, row: nat)
    ensures
        forall|i: int|
            0 <= i < blocks_upto(cells, n, row).len() ==> (#[trigger] blocks_upto(cells, n, row)[i]).row
                == row && blocks_upto(cells, n, row)[i].col < n,
        forall|i: int, j: int|
            0 <= i < j < blocks_upto(cells, n, row).len() ==> #[trigger] blocks_upto(
                cells,
                n,
                row,
            )[i].col < #[trigger] blocks_upto(cells, n, row)[j].col,
    decreases n,
{
    if n > 0 {
        lemma_blocks_upto(cells, n - 1, row);
        let prev = blocks_upto(cells, n - 1, row);
        let all = blocks_upto(cells, n, row);
        if !is_hole(cells[n - 1]) {
            assert(all == prev.push(block_of(cells[n - 1], (n - 1) as nat, row)));
            assert forall|i: int| 0 <= i < all.len() implies (#[trigger] all[i]).row == row
                && all[i].col < n by {
                if i < prev.len() {
                    assert(all[i] == prev[i]);
                }
            }
            assert forall|i: int, j: int| 0 <= i < j < all.len() implies #[trigger] all[i].col
                < #[trigger] all[j].col by {
                assert(all[i] == prev[i]);
                if j < prev.len() {
                    assert(all[j] == prev[j]);
                }
            }
        }
    }
}

proof fn lemma_read_lines(ls: Seq<Seq<char>>)
    ensures
        read_lines(ls).diagram.columns >= 1,
        forall|i: int|
            0 <= i < read_lines(ls).diagram.blocks.len() ==> (#[trigger] read_lines(
                ls,
            ).diagram.blocks[i]).row < read_lines(ls).row,
        forall|i: int, j: int|
            0 <= i < j < read_lines(ls).diagram.blocks.len() ==> reads_before(
                #[trigger] read_lines(ls).diagram.blocks[i],
                #[trigger] read_lines(ls).diagram.blocks[j],
            ),
    decreases ls.len(),
{
    if ls.len() > 0 {
        lemma_read_lines(ls.drop_last());
        let st = read_lines(ls.drop_last());
        let line = trim(strip_comment(ls.last()));
        if !(line.len() == 0 || opens_with(line, "block-beta"@) || opens_with(line, "block"@))
            && columns_of(line) is None && edge_of(line) is None {
            let cs = cells_from(line, 0);
            let fresh = blocks_upto(cs, cs.len() as int, st.row);
            lemma_blocks_upto(cs, cs.len() as int, st.row);
            let all = st.diagram.blocks + fresh;
            assert(read_lines(ls).diagram.blocks == all);
            assert forall|i: int, j: int| 0 <= i < j < all.len() implies reads_before(
                #[trigger] all[i],
                #[trigger] all[j],
            ) by {
                if j >= st.diagram.blocks.len() {
                    assert(all[j] == fresh[j - st.diagram.blocks.len()]);
                    if i >= st.diagram.blocks.len() {
                        assert(all[i] == fresh[i - st.diagram.blocks.len()]);
                    }
                }
            }
            assert forall|i: int| 0 <= i < all.len() implies (#[trigger] all[i]).row < st.row
                + 1 by {
                if i >= st.diagram.blocks.len() {
                    assert(all[i] == fresh[i - st.diagram.blocks.len()]);
                }
            }
        }
    }
}

/// A block grid is never narrower than one column, and its blocks come out
/// in reading order: row by row from the top, and left to right within a
/// row, each cell a column of its own.
pub proof fn blocks_fill_the_grid_in_reading_order(source: Seq<char>)
    ensures
        parse_of(source).columns >= 1,
        forall|i: int, j: int|
            0 <= i < j < parse_of(source).blocks.len() ==> reads_before(
                #[trigger] parse_of(source).blocks[i],
                #[trigger] parse_of(source).blocks[j],
            ),
{
    lemma_read_lines(lines(source));
}

/// A non-empty run of identifier characters.
pub open spec fn word(s: Seq<char>) -> bool {
    s.len() > 0 && forall|i: int| 0 <= i < s.len() ==> is_ident(#[trigger] s[i])
}

/// A run of white space, possibly empty.
pub open spec fn spacing(s: Seq<char>) -> bool {
    forall|i: int| 0 <= i < s.len() ==> is_ws(#[trigger] s[i])
}

proof fn lemma_word_then(w: Seq<char>, after: Seq<char>)
    requires
        word(w),
        after.len() == 0 || !is_ident(after[0]),
    ensures
        ident_run(w + after) == w.len(),
    decreases w.len(),
{
    let s = w + after;
    assert(s[0] == w[0]);
    if w.len() > 1 {
        assert(s.drop_first() =~= w.drop_first() + after);
        assert forall|i: int| 0 <= i < w.len() - 1 implies is_ident(#[trigger] w.drop_first()[i]) by {
            assert(w.drop_first()[i] == w[i + 1]);
        }
        lemma_word_then(w.drop_first(), after);
    } else {
        assert(s.drop_first() =~= after);
        assert(ident_run(after) == 0);
    }
}

proof fn lemma_skip_spacing(gap: Seq<char>, rest: Seq<char>)
    requires
        spacing(gap),
    ensures
        trim_start(gap + rest) == trim_start(rest),
    decreases gap.len(),
{
    if gap.len() > 0 {
        assert((gap + rest)[0] == gap[0]);
        assert((gap + rest).drop_first() =~= gap.drop_first() + rest);
        lemma_skip_spacing(gap.drop_first(), rest);
    } else {
        assert(gap + rest =~= rest);
    }
}

/// An edge written `A --> B`, with any spacing round the arrow, joins the
/// two words as written.
pub proof fn an_edge_joins_the_words_it_names(
    source: Seq<char>,
    before: Seq<char>,
    after: Seq<char>,
    target: Seq<char>,
)
    requires
        word(source),
        word(target),
        spacing(before),
        spacing(after),
    ensures
        edge_of(source + before + seq!['-', '-', '>'] + after + target) == Some(
            EdgeView { source, target },
        ),
{
    reveal_strlit("-->");
    let arrow = seq!['-', '-', '>'];
    let tail = before + arrow + after + target;
    let line = source + tail;
    assert(line =~= source + before + arrow + after + target);
    if before.len() > 0 {
        assert(tail[0] == before[0]);
        assert(is_ws(before[0]));
    } else {
        assert(tail[0] == '-');
    }
    lemma_word_then(source, tail);
    assert(line.take(source.len() as int) =~= source);
    assert(line.skip(source.len() as int) =~= tail);
    assert(tail =~= before + (arrow + after + target));
    lemma_skip_spacing(before, arrow + after + target);
    assert(trim_start(arrow + after + target) == arrow + after + target);
    assert("-->"@ =~= arrow);
    assert((arrow + after + target).take(3) =~= arrow);
    assert((arrow + after + target).skip(3) =~= after + target);
    lemma_skip_spacing(after, target);
    assert(trim_start(target) == target);
    lemma_word_then(target, Seq::empty());
    assert(target + Seq::<char>::empty() =~= target);
    assert(target.take(target.len() as int) =~= target);
}

proof fn lemma_close_at(s: Seq<char>, from: int, c: int)
    requires
        0 <= from <= c,
        c + 1 < s.len(),
        s[c] == '"' && s[c + 1] == ']',
        forall|j: int| from <= j < c ==> #[trigger] s[j] != '"',
    ensures
        close_from(s, from) == Some(c),
    decreases c - from,
{
    if from < c {
        lemma_close_at(s, from + 1, c);
    }
}

/// A cell written `Id["Label"]` is the block `Id` labelled with what the
/// quotes hold; a bare `Id` is a cell without a label.
pub proof fn a_cell_reads_back_as_written(id: Seq<char>, label: Seq<char>)
    requires
        word(id),
        forall|j: int| 0 <= j < label.len() ==> #[trigger] label[j] != '"',
    ensures
        cells_from(id + seq!['[', '"'] + label + seq!['"', ']'], 0) == seq![
            CellView { id, label: Some(label) },
        ],
        cells_from(id, 0) == seq![CellView { id, label: None }],
{
    let close = seq!['"', ']'];
    let s = id + seq!['[', '"'] + label + close;
    let n = id.len() as int;
    assert(s[0] == id[0]);
    assert(s.skip(0) =~= s);
    assert(s =~= id + (seq!['[', '"'] + label + close));
    lemma_word_then(id, seq!['[', '"'] + label + close);
    assert(s[n] == '[');
    assert(s[n + 1] == '"');
    let c = n + 2 + label.len();
    assert(s[c] == '"');
    assert(s[c + 1] == ']');
    assert forall|j: int| n + 2 <= j < c implies #[trigger] s[j] != '"' by {
        assert(s[j] == label[j - n - 2]);
    }
    lemma_close_at(s, n + 2, c);
    assert(s.subrange(0, n) =~= id);
    assert(s.subrange(n + 2, c) =~= label);
    assert(cells_from(s, c + 2) == Seq::<CellView>::empty());
    assert(seq![CellView { id, label: Some(label) }] + Seq::<CellView>::empty() =~= seq![
        CellView { id, label: Some(label) },
    ]);
    assert(id.skip(0) =~= id);
    assert(id =~= id + Seq::<char>::empty());
    lemma_word_then(id, Seq::empty());
    assert(close_from(id, n + 2) is None);
    assert(id.subrange(0, n) =~= id);
    assert(cells_from(id, n) == Seq::<CellView>::empty());
    assert(seq![CellView { id, label: None }] + Seq::<CellView>::empty() =~= seq![
        CellView { id, label: None },
    ]);
}

/// A `columns N` line sets the grid to `N` columns, and to one where `N` is
/// zero.
pub proof fn a_columns_line_sets_the_width_it_names(n: nat)
    requires
        n <= usize::MAX,
    ensures
        columns_of(seq!['c', 'o', 'l', 'u', 'm', 'n', 's', ' '] + decimal(n)) == Some(
            if n == 0 {
                1
            } else {
                n
            },
        ),
{
    reveal_strlit("columns");
    let digits = decimal(n);
    decimal_reads_back(n);
    let line = seq!['c', 'o', 'l', 'u', 'm', 'n', 's', ' '] + digits;
    assert("columns"@ =~= seq!['c', 'o', 'l', 'u', 'm', 'n', 's']);
    assert(line.take(7) =~= "columns"@);
    assert(line[7] == ' ');
    assert(line.skip(7) =~= seq![' '] + digits);
    assert((seq![' '] + digits).drop_first() =~= digits);
    assert(is_digit(digits[0]));
    assert(is_digit(digits.last()));
    assert(trim_start(seq![' '] + digits) == trim_start(digits));
    assert(trim_start(digits) == digits);
    assert(trim_end(digits) == digits);
}

} // verus!
