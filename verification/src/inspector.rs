//! The primitive inspector's spreadsheet logic: which rows are shown, how
//! scrolling moves them, the column headers, the tab labels and the path
//! shown above the sheet.

use vstd::prelude::*;
use crate::node_graph::{NodeGraphState, find_node, node_index};
use crate::text::{chars_of, decimal_chars, push_all, push_str_chars, spec_decimal, string_from_chars};
use crate::types::PrimInspectorTab;

verus! {

/// The most rows the sheet draws at once.
pub const MAX_ROWS: usize = 200;

/// Rows shown: as many as fit, at most `MAX_ROWS`, at most all rows.
pub fn visible_rows(fit: usize, row_count: usize) -> (n: usize)
    ensures
        n <= fit,
        n <= MAX_ROWS,
        n <= row_count,
        n == fit || n == MAX_ROWS || n == row_count,
{
    let a = if fit < MAX_ROWS { fit } else { MAX_ROWS };
    if a < row_count { a } else { row_count }
}

/// The first row shown, moved back so that the shown rows end by the last
/// row.
pub fn clamp_row_offset(offset: usize, visible: usize, row_count: usize) -> (r: usize)
    requires
        offset + visible <= usize::MAX,
    ensures
        r == if offset + visible > row_count {
            if row_count >= visible { (row_count - visible) as usize } else { 0 }
        } else {
            offset
        },
{
    if offset + visible > row_count {
        if row_count >= visible { row_count - visible } else { 0 }
    } else {
        offset
    }
}

/// The first row after scrolling by `lines` rows: kept between the first
/// row and the last start that still fills the sheet.
pub fn scroll_row_offset(offset: usize, lines: i64, row_count: usize, visible: usize) -> (r: usize)
    requires
        visible < row_count,
        offset <= i64::MAX,
        row_count - visible <= i64::MAX,
        i64::MIN <= offset + lines <= i64::MAX,
    ensures
        r == if offset + lines < 0 {
            0
        } else if offset + lines > row_count - visible {
            (row_count - visible) as int
        } else {
            offset + lines
        },
{
    let hi: i64 = (row_count - visible) as i64;
    let v: i64 = offset as i64 + lines;
    let c: i64 = if v < 0 { 0 } else if v > hi { hi } else { v };
    c as usize
}

/// The suffix of component `c` of a vector column.
pub open spec fn component_suffix(c: nat) -> Seq<char> {
    if c == 0 {
        "X"@
    } else if c == 1 {
        "Y"@
    } else if c == 2 {
        "Z"@
    } else if c == 3 {
        "W"@
    } else {
        "?"@
    }
}

/// The headers of column `k` named `name` with `width` components: the
/// name alone for one component, otherwise `name.X`, `name.Y`, ... one per
/// component; each with the column and component it shows.
pub open spec fn column_group(name: Seq<char>, k: nat, width: nat) -> Seq<(Seq<char>, nat, nat)> {
    if width == 1 {
        seq![(name, k, 0nat)]
    } else {
        Seq::new(width, |c: int| (name + "."@ + component_suffix(c as nat), k, c as nat))
    }
}

/// The headers of the first `n` columns.
pub open spec fn column_headers_spec(names: Seq<Seq<char>>, widths: Seq<usize>, n: nat) -> Seq<(Seq<char>, nat, nat)>
    decreases n,
{
    if n == 0 {
        seq![]
    } else {
        column_headers_spec(names, widths, (n - 1) as nat) + column_group(
            names[n - 1],
            (n - 1) as nat,
            widths[n - 1] as nat,
        )
    }
}

/// A column header: its text, the column it shows, and the component.
pub struct ColumnHeader {
    pub header: String,
    pub source: usize,
    pub component: usize,
}

/// The header a column header shows.
pub open spec fn header_view(h: ColumnHeader) -> (Seq<char>, nat, nat) {
    (h.header@, h.source as nat, h.component as nat)
}

fn suffix_of(c: usize) -> (s: &'static str)
    ensures
        s@ == component_suffix(c as nat),
{
    if c == 0 {
        "X"
    } else if c == 1 {
        "Y"
    } else if c == 2 {
        "Z"
    } else if c == 3 {
        "W"
    } else {
        "?"
    }
}

/// The headers of the columns named `names`, whose values have `widths`
/// components.
pub fn column_headers(names: &Vec<String>, widths: &Vec<usize>) -> (hs: Vec<ColumnHeader>)
    requires
        names@.len() == widths@.len(),
    ensures
        hs@.map_values(|h: ColumnHeader| header_view(h)) == column_headers_spec(
            names@.map_values(|s: String| s@),
            widths@,
            names@.len(),
        ),
{
    let ghost nv = names@.map_values(|s: String| s@);
    let mut hs: Vec<ColumnHeader> = Vec::new();
    let mut k: usize = 0;
    while k < names.len()
        invariant
            k <= names@.len(),
            names@.len() == widths@.len(),
            nv == names@.map_values(|s: String| s@),
            hs@.map_values(|h: ColumnHeader| header_view(h)) == column_headers_spec(nv, widths@, k as nat),
        decreases names@.len() - k,
    {
        let ghost before = hs@.map_values(|h: ColumnHeader| header_view(h));
        let w = widths[k];
        let name = names[k].as_str();
        assert(nv[k as int] == name@);
        if w == 1 {
            let h = string_from_chars(&chars_of(name));
            hs.push(ColumnHeader { header: h, source: k, component: 0 });
            assert(hs@.map_values(|h: ColumnHeader| header_view(h)) =~= before + column_group(nv[k as int], k as nat, 1));
        } else {
            let mut c: usize = 0;
            while c < w
                invariant
                    c <= w,
                    w == widths@[k as int],
                    w != 1,
                    k < names@.len(),
                    name@ == nv[k as int],
                    hs@.map_values(|h: ColumnHeader| header_view(h)) == before + column_group(nv[k as int], k as nat, w as nat).take(c as int),
                decreases w - c,
            {
                let mut v: Vec<char> = Vec::new();
                push_str_chars(&mut v, name);
                push_str_chars(&mut v, ".");
                push_str_chars(&mut v, suffix_of(c));
                let h = string_from_chars(&v);
                let ghost b2 = hs@.map_values(|h: ColumnHeader| header_view(h));
                hs.push(ColumnHeader { header: h, source: k, component: c });
                assert(hs@.map_values(|h: ColumnHeader| header_view(h)) =~= b2.push(header_view(hs@.last())));
                c = c + 1;
                assert(column_group(nv[k as int], k as nat, w as nat).take(c as int) =~= column_group(nv[k as int], k as nat, w as nat).take(c - 1).push(
                    column_group(nv[k as int], k as nat, w as nat)[c - 1]));
                assert(hs@.map_values(|h: ColumnHeader| header_view(h)) =~= before + column_group(nv[k as int], k as nat, w as nat).take(c as int));
            }
            assert(column_group(nv[k as int], k as nat, w as nat).take(c as int) =~= column_group(nv[k as int], k as nat, w as nat));
        }
        k = k + 1;
    }
    hs
}

/// The label of a tab: its name and, in brackets, how many elements it
/// lists.
pub open spec fn tab_label_spec(tab: PrimInspectorTab, count: nat) -> Seq<char> {
    let name = match tab {
        PrimInspectorTab::Vertex => "Vertex"@,
        PrimInspectorTab::Uniform => "Uniform"@,
        PrimInspectorTab::FaceVarying => "FaceVarying"@,
        PrimInspectorTab::Constant => "Constant"@,
    };
    name + " ("@ + spec_decimal(count) + ")"@
}

/// The label of a tab listing `count` elements.
pub fn tab_label(tab: PrimInspectorTab, count: usize) -> (s: String)
    ensures
        s@ == tab_label_spec(tab, count as nat),
{
    let mut v: Vec<char> = Vec::new();
    let name = match tab {
        PrimInspectorTab::Vertex => "Vertex",
        PrimInspectorTab::Uniform => "Uniform",
        PrimInspectorTab::FaceVarying => "FaceVarying",
        PrimInspectorTab::Constant => "Constant",
    };
    push_str_chars(&mut v, name);
    push_str_chars(&mut v, " (");
    let d = decimal_chars(count);
    push_all(&mut v, &d);
    push_str_chars(&mut v, ")");
    string_from_chars(&v)
}

/// The path shown above the sheet: empty with no node selected, `/name`
/// for the selected node, `/` if the selected node is gone.
pub fn breadcrumb<S, V, P>(graph: &NodeGraphState<S, V, P>) -> (s: String)
    ensures
        match graph.selected_node {
            None => s@.len() == 0,
            Some(id) => {
                let k = node_index(graph.nodes@, id);
                s@ == if k < graph.nodes@.len() {
                    "/"@ + graph.nodes@[k].name@
                } else {
                    "/"@
                }
            },
        },
{
    match graph.selected_node {
        None => String::new(),
        Some(id) => {
            let k = find_node(&graph.nodes, id);
            let mut v: Vec<char> = Vec::new();
            push_str_chars(&mut v, "/");
            if k < graph.nodes.len() {
                push_str_chars(&mut v, graph.nodes[k].name.as_str());
            }
            string_from_chars(&v)
        },
    }
}

} // verus!
