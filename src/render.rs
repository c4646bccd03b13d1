//! Drawing visible rows into a character grid.

use vstd::prelude::*;
use vstd::set_lib::{lemma_int_range, set_int_range};
use crate::node::{FileNode, base_name, segment_count};
use crate::tree::{FileTree, nodes_of, visible_rows};

verus! {

/// A rectangular region of a grid, in cells.
#[derive(Debug, Clone, Copy, PartialEq, Eq)]
pub struct Area {
    pub x: u16,
    pub y: u16,
    pub width: u16,
    pub height: u16,
}

/// A character grid stored row by row: the cell at row `r`, column `c` is
/// `cells[r * width + c]`.
#[derive(Debug)]
pub struct Grid {
    pub width: usize,
    pub height: usize,
    pub cells: Vec<char>,
}

impl Grid {
    pub open spec fn wf(&self) -> bool {
        self.cells@.len() == self.width * self.height
    }

    /// Whether `area` lies inside the grid.
    pub open spec fn contains_area(&self, area: Area) -> bool {
        area.x + area.width <= self.width && area.y + area.height <= self.height
    }

    /// A grid of the given size with every cell set to `fill`.
    pub fn new(width: usize, height: usize, fill: char) -> (r: Grid)
        requires
            width * height <= usize::MAX,
        ensures
            r.wf(),
            r.width == width,
            r.height == height,
            forall|k: int| 0 <= k < r.cells@.len() ==> r.cells@[k] == fill,
    {
        let total = width * height;
        let mut cells: Vec<char> = Vec::new();
        let mut k: usize = 0;
        while k < total
            invariant
                k <= total,
                cells@.len() == k,
                forall|m: int| 0 <= m < k ==> cells@[m] == fill,
            decreases total - k,
        {
            cells.push(fill);
            k = k + 1;
        }
        Grid { width, height, cells }
    }

    /// The character at row `r`, column `c`.
    pub fn get(&self, r: usize, c: usize) -> (ch: char)
        requires
            self.wf(),
            r < self.height,
            c < self.width,
        ensures
            ch == self.cells@[r * self.width + c],
    {
        let total = self.cells.len();
        proof {
            lemma_index_bound(self.width as int, self.height as int, r as int, c as int);
        }
        self.cells[r * self.width + c]
    }
}

/// Whether the row at `i` of `rows` writes column `col` (relative to the
/// area): columns from the row's indentation on, as far as its base name
/// reaches and the area's width allows.
pub open spec fn writes(rows: Seq<FileNode>, area: Area, i: int, col: int) -> bool {
    let indent = segment_count(rows[i].spec_path()) as int;
    let name = base_name(rows[i].spec_path());
    0 <= i < area.height && i < rows.len() && 0 <= col < area.width && indent <= col < indent
        + name.len()
}

/// The character a cell holds after drawing `rows` into `area`.
pub open spec fn painted(
    old: Seq<char>,
    width: nat,
    rows: Seq<FileNode>,
    area: Area,
    r: int,
    c: int,
) -> char {
    let i = r - area.y;
    let col = c - area.x;
    if writes(rows, area, i, col) {
        base_name(rows[i].spec_path())[col - segment_count(rows[i].spec_path())]
    } else {
        old[r * width + c]
    }
}

/// The columns of row `i` that drawing writes.
pub open spec fn written_columns(rows: Seq<FileNode>, area: Area, i: int) -> Set<int> {
    Set::new(|col: int| writes(rows, area, i, col))
}

proof fn lemma_index_bound(w: int, h: int, r: int, c: int)
    requires
        0 <= r < h,
        0 <= c < w,
    ensures
        0 <= r * w + c < w * h,
{
    assert(r * w + c < w * h) by (nonlinear_arith)
        requires
            0 <= r < h,
            0 <= c < w,
    ;
    assert(0 <= r * w) by (nonlinear_arith)
        requires
            0 <= r,
            0 <= w,
    ;
}

proof fn lemma_index_unique(w: int, r1: int, c1: int, r2: int, c2: int)
    requires
        0 <= r1,
        0 <= r2,
        0 <= c1 < w,
        0 <= c2 < w,
        r1 * w + c1 == r2 * w + c2,
    ensures
        r1 == r2,
        c1 == c2,
{
    if r1 < r2 {
        assert(r1 * w + c1 < r2 * w) by (nonlinear_arith)
            requires
                r1 < r2,
                0 <= c1 < w,
        ;
    } else if r2 < r1 {
        assert(r2 * w + c2 < r1 * w) by (nonlinear_arith)
            requires
                r2 < r1,
                0 <= c2 < w,
        ;
    }
}

/// Draws `rows` into `area` of the grid, one row per line from the area's
/// top: each row's base name starts at its depth as indentation and is cut at
/// the area's right edge. Cells that are not written keep their contents.
pub fn render_rows(rows: &Vec<&FileNode>, area: Area, grid: &mut Grid)
    requires
        old(grid).wf(),
        old(grid).contains_area(area),
    ensures
        final(grid).wf(),
        final(grid).width == old(grid).width,
        final(grid).height == old(grid).height,
        forall|r: int, c: int|
            0 <= r < old(grid).height && 0 <= c < old(grid).width ==>
                #[trigger] final(grid).cells@[r * old(grid).width + c] == painted(
                old(grid).cells@,
                old(grid).width as nat,
                nodes_of(rows@),
                area,
                r,
                c,
            ),
        area.width == 0 || area.height == 0 ==> *final(grid) == *old(grid),
{
    if area.width < 1 || area.height < 1 {
        proof {
            assert forall|r: int, c: int|
                0 <= r < grid.height && 0 <= c < grid.width implies #[trigger] grid.cells@[r
                * grid.width + c] == painted(
                grid.cells@,
                grid.width as nat,
                nodes_of(rows@),
                area,
                r,
                c,
            ) by {}
        }
        return ;
    }
    let ghost old_cells = grid.cells@;
    let ghost rs = nodes_of(rows@);
    let w = grid.width;
    let ghost h = grid.height;
    let total = grid.cells.len();
    let mut i: u16 = 0;
    while i < area.height && (i as usize) < rows.len()
        invariant
            grid.wf(),
            grid.width == w,
            grid.height == h,
            total == grid.cells@.len(),
            grid.contains_area(area),
            old_cells.len() == grid.cells@.len(),
            rs == nodes_of(rows@),
            i <= area.height,
            forall|r: int, c: int|
                0 <= r < grid.height && 0 <= c < w ==> #[trigger] grid.cells@[r * w + c] == if r
                    < area.y + i {
                    painted(old_cells, w as nat, rs, area, r, c)
                } else {
                    old_cells[r * w + c]
                },
        decreases area.height - i,
    {
        let node = rows[i as usize];
        let indent = node.depth();
        let name = node.name();
        let n = name.unicode_len();
        let row = area.y as usize + i as usize;
        let ghost seg = segment_count(rs[i as int].spec_path());
        assert(*node == rs[i as int]);
        let mut col: u16 = indent;
        while col < area.width && ((col - indent) as usize) < n
            invariant
                grid.wf(),
                grid.width == w,
                grid.height == h,
                total == grid.cells@.len(),
                grid.contains_area(area),
                old_cells.len() == grid.cells@.len(),
                rs == nodes_of(rows@),
                i < area.height,
                i < rows@.len(),
                row == area.y + i,
                name@ == base_name(rs[i as int].spec_path()),
                n == name@.len(),
                seg == segment_count(rs[i as int].spec_path()),
                indent as nat == if seg <= u16::MAX as nat { seg } else { u16::MAX as nat },
                indent <= col,
                forall|r: int, c: int|
                    0 <= r < grid.height && 0 <= c < w ==> #[trigger] grid.cells@[r * w + c]
                        == if r < area.y + i || (r == area.y + i && c < area.x + col) {
                        painted(old_cells, w as nat, rs, area, r, c)
                    } else {
                        old_cells[r * w + c]
                    },
            decreases area.width - col,
        {
            let c0 = area.x as usize + col as usize;
            proof {
                lemma_index_bound(w as int, grid.height as int, row as int, c0 as int);
            }
            let idx = row * w + c0;
            let ch = name.get_char((col - indent) as usize);
            let ghost before = grid.cells@;
            grid.cells.set(idx, ch);
            proof {
                assert forall|r: int, c: int|
                    0 <= r < grid.height && 0 <= c < w implies #[trigger] grid.cells@[r * w + c]
                        == if r < area.y + i || (r == area.y + i && c < area.x + col + 1) {
                        painted(old_cells, w as nat, rs, area, r, c)
                    } else {
                        old_cells[r * w + c]
                    } by {
                    lemma_index_bound(w as int, grid.height as int, r, c);
                    if r * w + c == idx {
                        lemma_index_unique(w as int, r, c, row as int, c0 as int);
                        assert(seg <= u16::MAX as nat);
                        assert(indent as nat == seg);
                        assert(grid.cells@[idx as int] == ch);
                        assert(r - area.y == i);
                        assert(c - area.x == col);
                        assert(rs.len() == rows@.len());
                        assert((col - indent) < n);
                        assert(writes(rs, area, i as int, col as int));
                        assert(painted(old_cells, w as nat, rs, area, r, c) == ch);
                    } else {
                        assert(grid.cells@[r * w + c] == before[r * w + c]);
                        if r == row && c == c0 {
                        }
                    }
                }
            }
            col = col + 1;
        }
        proof {
            assert forall|r: int, c: int|
                0 <= r < grid.height && 0 <= c < w implies #[trigger] grid.cells@[r * w + c] == if r
                    < area.y + i + 1 {
                    painted(old_cells, w as nat, rs, area, r, c)
                } else {
                    old_cells[r * w + c]
                } by {
                if r == area.y + i && c >= area.x + col {
                    assert(!writes(rs, area, i as int, c - area.x));
                }
                if r == area.y + i && c < area.x + indent {
                    assert(!writes(rs, area, i as int, c - area.x));
                }
            }
        }
        i = i + 1;
    }
    proof {
        assert forall|r: int, c: int|
            0 <= r < grid.height && 0 <= c < w implies #[trigger] grid.cells@[r * w + c] == painted(
                old_cells,
                w as nat,
                rs,
                area,
                r,
                c,
            ) by {
            if r >= area.y + i {
                assert(!writes(rs, area, r - area.y, c - area.x));
            }
        }
    }
}

impl FileTree {
    /// Draws the visible rows of the tree into `area` of the grid. The walk
    /// processes at most `area.height` nodes; an empty area draws nothing.
    pub fn render(&self, area: Area, grid: &mut Grid)
        requires
            old(grid).wf(),
            old(grid).contains_area(area),
        ensures
            final(grid).wf(),
            final(grid).width == old(grid).width,
            final(grid).height == old(grid).height,
            forall|r: int, c: int|
                0 <= r < old(grid).height && 0 <= c < old(grid).width ==>
                    #[trigger] final(grid).cells@[r * old(grid).width + c] == painted(
                    old(grid).cells@,
                    old(grid).width as nat,
                    visible_rows(self.root(), self.spec_state()@, area.height as nat),
                    area,
                    r,
                    c,
                ),
            area.width == 0 || area.height == 0 ==> *final(grid) == *old(grid),
    {
        if area.width < 1 || area.height < 1 {
            return ;
        }
        let list = self.to_list_with_limit(area.height);
        render_rows(&list, area, grid);
    }
}

/// A drawn row is cut at the area's right edge: of a row whose indentation
/// is `indent` and whose base name has `len` characters, drawing writes
/// exactly the columns from `indent` up to `min(width, indent + len)`, so
/// `width - indent` of them when the name is longer than that, and none when
/// the indentation reaches the width.
pub proof fn lemma_truncation(rows: Seq<FileNode>, area: Area, i: int)
    requires
        0 <= i < area.height,
        i < rows.len(),
    ensures
        ({
            let indent = segment_count(rows[i].spec_path()) as int;
            let len = base_name(rows[i].spec_path()).len() as int;
            let end = if indent + len < area.width { indent + len } else { area.width as int };
            &&& written_columns(rows, area, i) == set_int_range(indent, end)
            &&& written_columns(rows, area, i).finite()
            &&& written_columns(rows, area, i).len() == if indent < end { end - indent } else { 0 }
            &&& (len > area.width - indent ==> written_columns(rows, area, i).len() == if indent
                < area.width { area.width - indent } else { 0 })
        }),
{
    let indent = segment_count(rows[i].spec_path()) as int;
    let len = base_name(rows[i].spec_path()).len() as int;
    let end = if indent + len < area.width { indent + len } else { area.width as int };
    assert(written_columns(rows, area, i) =~= set_int_range(indent, end));
    if indent < end {
        lemma_int_range(indent, end);
    } else {
        assert(set_int_range(indent, end) =~= Set::<int>::empty());
    }
}

} // verus!
