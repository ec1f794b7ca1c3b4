use vstd::prelude::*;
use crate::bytes::{
    bytes_eq, lemma_split_at_total, lemma_total_len_nonneg, lemma_total_len_part, split_at,
    split_bytes, table_end_bytes, table_end_marker, trim_bytes, trim_of, vecs_view,
};
use crate::geom::{
    CELL_TEXT_X_OFFSET, CELL_TEXT_Y_OFFSET, FONT_SIZE, LINE_HEIGHT, MARGIN, PAGE_TOP,
    USABLE_WIDTH,
};
use crate::ops::{
    lemma_with_appended_compose, pages_view, with_appended, ConvertError, DrawOp, LayoutState,
    OpV,
};

verus! {

// The table grid renderer.  A table arrives as a marker-encoded byte string:
// a line starting the table, one `|`-delimited line per row (the first and
// last `|` delimit the grid), and an end-marker line.  The first data row
// fixes the column count; all columns share the usable width evenly.

/// A horizontal border line of width `w` starting at `(x, y)`.
pub open spec fn hline_op(x: int, y: int, w: int) -> OpV {
    OpV::Line { x1: x, y1: y, x2: x + w, y2: y }
}

/// A vertical border line at `x` from `y1` down to `y2`.
pub open spec fn vline_op(x: int, y1: int, y2: int) -> OpV {
    OpV::Line { x1: x, y1: y1, x2: x, y2: y2 }
}

/// The instructions of one row's cells, from cell index `ci` on: each drawn
/// cell places its trimmed text inside its column and a vertical border at
/// the column's left edge, from the table's top down to the row's baseline.
/// Cells beyond the column count, and columns the row does not have, draw
/// nothing.
pub open spec fn cells_ops(
    cells: Seq<Seq<u8>>,
    ci: int,
    ncols: int,
    colw: int,
    top_y: int,
    y: int,
) -> Seq<OpV>
    decreases cells.len() - ci,
{
    if ci < 0 || ci >= cells.len() || ci > ncols {
        Seq::<OpV>::empty()
    } else {
        let x = MARGIN as int + (ci - 1) * colw;
        seq![
            OpV::Text {
                content: trim_of(cells[ci]),
                font_size: FONT_SIZE as int,
                x: x + CELL_TEXT_X_OFFSET as int,
                y: y + CELL_TEXT_Y_OFFSET as int,
                bold: false,
            },
            vline_op(x, top_y, y),
        ] + cells_ops(cells, ci + 1, ncols, colw, top_y, y)
    }
}

/// The instructions and final cursor of the data rows: each row first moves
/// the cursor one line height down, then draws its cells and a horizontal
/// border at its baseline.  The end marker stops the table; rows after it
/// are ignored.
pub open spec fn rows_ops(rows: Seq<Seq<u8>>, ncols: int, colw: int, top_y: int, y: int) -> (
    Seq<OpV>,
    int,
)
    decreases rows.len(),
{
    if rows.len() == 0 {
        (Seq::<OpV>::empty(), y)
    } else if trim_of(rows[0]) == table_end_marker() {
        (Seq::<OpV>::empty(), y)
    } else {
        let y2 = y - LINE_HEIGHT as int;
        let cells = split_at(rows[0], 124);
        let row_ops = cells_ops(cells, 1, ncols, colw, top_y, y2) + seq![
            hline_op(MARGIN as int, y2, ncols * colw),
        ];
        let rest = rows_ops(rows.drop_first(), ncols, colw, top_y, y2);
        (row_ops + rest.0, rest.1)
    }
}

/// A table block is well-formed when it has at least two lines and its first
/// data row yields at least one column.
pub open spec fn table_valid(text: Seq<u8>) -> bool {
    let rows = split_at(text, 10);
    rows.len() >= 2 && split_at(rows[1], 124).len() >= 3
}

/// The column count of a well-formed table: the `|`-separated pieces of the
/// first data row, less the two outside the grid.
pub open spec fn table_columns(text: Seq<u8>) -> int {
    split_at(split_at(text, 10)[1], 124).len() - 2
}

/// The uniform column width.
pub open spec fn table_column_width(text: Seq<u8>) -> int {
    USABLE_WIDTH as int / table_columns(text)
}

/// The instructions and final cursor of a whole table starting at cursor
/// `y`: a top border, the data rows, then the right-edge vertical border and
/// one final horizontal border at the last baseline.
pub open spec fn table_render(text: Seq<u8>, y: int) -> (Seq<OpV>, int)
    recommends
        table_valid(text),
{
    let rows = split_at(text, 10);
    let ncols = table_columns(text);
    let colw = table_column_width(text);
    let body = rows_ops(rows.skip(1), ncols, colw, y, y);
    (
        seq![hline_op(MARGIN as int, y, ncols * colw)] + body.0 + seq![
            vline_op(MARGIN as int + ncols * colw, y, body.1),
            hline_op(MARGIN as int, body.1, ncols * colw),
        ],
        body.1,
    )
}

/// A horizontal line instruction.
pub open spec fn is_horizontal(o: OpV) -> bool {
    o matches OpV::Line { y1, y2, .. } && y1 == y2
}

/// A vertical line instruction of non-zero length.
pub open spec fn is_vertical(o: OpV) -> bool {
    o matches OpV::Line { x1, y1, x2, y2 } && x1 == x2 && y1 != y2
}

/// How many instructions of `ops` are horizontal lines.
pub open spec fn count_horizontal(ops: Seq<OpV>) -> int
    decreases ops.len(),
{
    if ops.len() == 0 {
        0
    } else {
        (if is_horizontal(ops[0]) {
            1int
        } else {
            0int
        }) + count_horizontal(ops.drop_first())
    }
}

/// How many instructions of `ops` are vertical lines.
pub open spec fn count_vertical(ops: Seq<OpV>) -> int
    decreases ops.len(),
{
    if ops.len() == 0 {
        0
    } else {
        (if is_vertical(ops[0]) {
            1int
        } else {
            0int
        }) + count_vertical(ops.drop_first())
    }
}

proof fn lemma_counts_concat(a: Seq<OpV>, b: Seq<OpV>)
    ensures
        count_horizontal(a + b) == count_horizontal(a) + count_horizontal(b),
        count_vertical(a + b) == count_vertical(a) + count_vertical(b),
    decreases a.len(),
{
    if a.len() == 0 {
        assert(a + b =~= b);
    } else {
        assert((a + b).drop_first() =~= a.drop_first() + b);
        lemma_counts_concat(a.drop_first(), b);
    }
}

proof fn lemma_counts_single(o: OpV)
    ensures
        count_horizontal(seq![o]) == if is_horizontal(o) {
            1int
        } else {
            0int
        },
        count_vertical(seq![o]) == if is_vertical(o) {
            1int
        } else {
            0int
        },
{
    assert(seq![o].drop_first() =~= Seq::<OpV>::empty());
    assert(count_horizontal(Seq::<OpV>::empty()) == 0);
    assert(count_vertical(Seq::<OpV>::empty()) == 0);
}

proof fn lemma_counts_pair(a: OpV, b: OpV)
    ensures
        count_horizontal(seq![a, b]) == (if is_horizontal(a) {
            1int
        } else {
            0int
        }) + (if is_horizontal(b) {
            1int
        } else {
            0int
        }),
        count_vertical(seq![a, b]) == (if is_vertical(a) {
            1int
        } else {
            0int
        }) + (if is_vertical(b) {
            1int
        } else {
            0int
        }),
{
    assert(seq![a, b] =~= seq![a] + seq![b]);
    lemma_counts_concat(seq![a], seq![b]);
    lemma_counts_single(a);
    lemma_counts_single(b);
}

proof fn lemma_cells_counts(cells: Seq<Seq<u8>>, ci: int, ncols: int, colw: int, top_y: int, y: int)
    requires
        y < top_y,
        1 <= ci <= ncols + 1,
        cells.len() == ncols + 2,
    ensures
        count_horizontal(cells_ops(cells, ci, ncols, colw, top_y, y)) == 0,
        count_vertical(cells_ops(cells, ci, ncols, colw, top_y, y)) == ncols + 1 - ci,
    decreases ncols + 2 - ci,
{
    if ci > ncols {
        assert(cells_ops(cells, ci, ncols, colw, top_y, y) == Seq::<OpV>::empty());
    } else {
        lemma_cells_counts(cells, ci + 1, ncols, colw, top_y, y);
        let x = MARGIN as int + (ci - 1) * colw;
        let head = seq![
            OpV::Text {
                content: trim_of(cells[ci]),
                font_size: FONT_SIZE as int,
                x: x + CELL_TEXT_X_OFFSET as int,
                y: y + CELL_TEXT_Y_OFFSET as int,
                bold: false,
            },
            vline_op(x, top_y, y),
        ];
        lemma_counts_concat(head, cells_ops(cells, ci + 1, ncols, colw, top_y, y));
        lemma_counts_pair(head[0], head[1]);
        assert(head =~= seq![head[0], head[1]]);
        assert(count_vertical(head) == 1);
        assert(count_horizontal(head) == 0);
    }
}

proof fn lemma_rows_counts(rows: Seq<Seq<u8>>, ncols: int, colw: int, top_y: int, y: int, k: int)
    requires
        y <= top_y,
        0 <= k <= rows.len(),
        forall|j: int|
            0 <= j < k ==> trim_of(#[trigger] rows[j]) != table_end_marker() && split_at(
                rows[j],
                124,
            ).len() == ncols + 2,
        k == rows.len() || trim_of(rows[k]) == table_end_marker(),
        1 <= ncols,
    ensures
        count_horizontal(rows_ops(rows, ncols, colw, top_y, y).0) == k,
        count_vertical(rows_ops(rows, ncols, colw, top_y, y).0) == k * ncols,
        rows_ops(rows, ncols, colw, top_y, y).1 == y - k * (LINE_HEIGHT as int),
    decreases k,
{
    if k == 0 {
        if rows.len() > 0 {
            assert(trim_of(rows[0]) == table_end_marker());
        }
    } else {
        assert(trim_of(rows[0]) != table_end_marker());
        let y2 = y - LINE_HEIGHT as int;
        let cells = split_at(rows[0], 124);
        assert(cells.len() == ncols + 2);
        lemma_cells_counts(cells, 1, ncols, colw, top_y, y2);
        assert forall|j: int|
            0 <= j < k - 1 implies trim_of(#[trigger] rows.drop_first()[j])
            != table_end_marker() && split_at(rows.drop_first()[j], 124).len() == ncols
            + 2 by {
            assert(rows.drop_first()[j] == rows[j + 1]);
        }
        if k - 1 < rows.drop_first().len() {
            assert(rows.drop_first()[k - 1] == rows[k]);
        }
        lemma_rows_counts(rows.drop_first(), ncols, colw, top_y, y2, k - 1);
        let row_ops = cells_ops(cells, 1, ncols, colw, top_y, y2) + seq![
            hline_op(MARGIN as int, y2, ncols * colw),
        ];
        let rest = rows_ops(rows.drop_first(), ncols, colw, top_y, y2);
        lemma_counts_concat(cells_ops(cells, 1, ncols, colw, top_y, y2), seq![
            hline_op(MARGIN as int, y2, ncols * colw),
        ]);
        lemma_counts_single(hline_op(MARGIN as int, y2, ncols * colw));
        lemma_counts_concat(row_ops, rest.0);
        assert(count_vertical(row_ops + rest.0) == ncols + (k - 1) * ncols);
        assert(ncols + (k - 1) * ncols == k * ncols) by (nonlinear_arith);
    }
}

/// The border counts of a rendered table: a table with `k` data rows, each
/// with the full complement of cells, draws exactly `k + 2` horizontal
/// border lines and `k * columns + 1` vertical border segments — one
/// vertical per cell per row, plus the one right-edge border.
pub proof fn lemma_table_border_counts(text: Seq<u8>, y: int, k: int)
    requires
        table_valid(text),
        1 <= k,
        1 <= table_columns(text),
        k <= split_at(text, 10).len() - 1,
        forall|j: int|
            0 <= j < k ==> trim_of(#[trigger] split_at(text, 10).skip(1)[j])
                != table_end_marker() && split_at(split_at(text, 10).skip(1)[j], 124).len()
                == table_columns(text) + 2,
        k == split_at(text, 10).len() - 1 || trim_of(split_at(text, 10).skip(1)[k])
            == table_end_marker(),
    ensures
        count_horizontal(table_render(text, y).0) == k + 2,
        count_vertical(table_render(text, y).0) == k * table_columns(text) + 1,
{
    let rows = split_at(text, 10);
    let ncols = table_columns(text);
    let colw = table_column_width(text);
    let body = rows_ops(rows.skip(1), ncols, colw, y, y);
    lemma_rows_counts(rows.skip(1), ncols, colw, y, y, k);
    assert(body.1 == y - k * (LINE_HEIGHT as int));
    assert(24 <= k * (LINE_HEIGHT as int)) by (nonlinear_arith)
        requires
            1 <= k,
    ;
    let head = seq![hline_op(MARGIN as int, y, ncols * colw)];
    let tail = seq![
        vline_op(MARGIN as int + ncols * colw, y, body.1),
        hline_op(MARGIN as int, body.1, ncols * colw),
    ];
    lemma_counts_concat(head, body.0);
    lemma_counts_concat(head + body.0, tail);
    lemma_counts_single(hline_op(MARGIN as int, y, ncols * colw));
    assert(head =~= seq![hline_op(MARGIN as int, y, ncols * colw)]);
    lemma_counts_pair(tail[0], tail[1]);
    assert(tail =~= seq![tail[0], tail[1]]);
    assert(count_vertical(tail) == 1);
    assert(count_horizontal(tail) == 1);
    assert(table_render(text, y).0 == (head + body.0) + tail);
}

/// Render one marker-encoded table block at the current cursor.  A malformed
/// block is rejected before anything is drawn; a well-formed one emits
/// exactly the instructions of `table_render` and leaves the cursor at the
/// last row's baseline.
pub fn process_table_for_pdf(st: &mut LayoutState, text: &Vec<u8>) -> (r: Result<
    (),
    ConvertError,
>)
    requires
        old(st).wf(),
        text@.len() <= 0x1_0000_0000,
        old(st).y >= -0x0800_0000_0000_0000,
    ensures
        final(st).wf(),
        r is Ok <==> table_valid(text@),
        r is Err ==> r == Result::<(), ConvertError>::Err(ConvertError::MalformedTable)
            && *final(st) == *old(st),
        r is Ok ==> pages_view(final(st).pages@) == with_appended(
            pages_view(old(st).pages@),
            table_render(text@, old(st).y as int).0,
        ) && final(st).y as int == table_render(text@, old(st).y as int).1
            && final(st).y as int >= old(st).y - 24 * (text@.len() as int) - 24,
{
    let ghost y0 = old(st).y as int;
    let ghost old_pv = pages_view(old(st).pages@);
    let rows = split_bytes(text, 10);
    let ghost rows_v = split_at(text@, 10);
    proof {
        lemma_split_at_total(text@, 10);
    }
    if rows.len() < 2 {
        return Err(ConvertError::MalformedTable);
    }
    proof {
        assert(rows@[1]@ == rows_v[1]);
        lemma_total_len_part(rows_v, 1);
        lemma_total_len_nonneg(rows_v);
        lemma_split_at_total(rows_v[1], 124);
    }
    let cells1 = split_bytes(&rows[1], 124);
    if cells1.len() < 3 {
        return Err(ConvertError::MalformedTable);
    }
    let ncols_us: usize = cells1.len() - 2;
    let ncols: i64 = ncols_us as i64;
    let ghost ng: int = table_columns(text@);
    proof {
        assert(ncols as int == ng);
        assert(1 <= ng <= 0x1_0000_0002);
    }
    let colw: i64 = USABLE_WIDTH / ncols;
    let ghost cg: int = table_column_width(text@);
    proof {
        assert(colw as int == cg);
        assert(0 <= cg && cg * ng <= 760 && ng * cg <= 760) by (nonlinear_arith)
            requires
                ng >= 1,
                cg == 760int / ng,
        ;
    }
    let initial_y: i64 = st.y;
    let ghost body_all = rows_ops(rows_v.skip(1), ng, cg, y0, y0);
    let op0 = DrawOp::Line { x1: MARGIN, y1: st.y, x2: MARGIN + ncols * colw, y2: st.y };
    proof {
        assert(op0@ == hline_op(MARGIN as int, y0, ng * cg));
    }
    st.emit(op0);
    let ghost mut body_acc: Seq<OpV> = Seq::<OpV>::empty();
    proof {
        assert(body_acc + rows_ops(rows_v.skip(1), ng, cg, y0, y0).0 =~= body_all.0);
    }
    let n: usize = rows.len();
    let mut ri: usize = 1;
    let mut done: bool = false;
    while ri < n && !done
        invariant
            1 <= ri <= n,
            n == rows@.len(),
            vecs_view(rows@) == rows_v,
            rows_v == split_at(text@, 10),
            text@.len() <= 0x1_0000_0000,
            n <= text@.len() + 1,
            st.wf(),
            ncols as int == ng,
            ncols_us as int == ng,
            colw as int == cg,
            1 <= ng <= 0x1_0000_0002,
            0 <= cg,
            ng * cg <= 760,
            cg * ng <= 760,
            initial_y as int == y0,
            -0x0800_0000_0000_0000 <= y0 <= PAGE_TOP,
            st.y as int >= y0 - 24 * (ri as int),
            old_pv.len() >= 1,
            pages_view(st.pages@) == with_appended(
                old_pv,
                seq![hline_op(MARGIN as int, y0, ng * cg)] + body_acc,
            ),
            body_all.0 == body_acc + rows_ops(rows_v.skip(ri as int), ng, cg, y0, st.y as int).0,
            body_all.1 == rows_ops(rows_v.skip(ri as int), ng, cg, y0, st.y as int).1,
            done ==> rows_ops(rows_v.skip(ri as int), ng, cg, y0, st.y as int).0
                == Seq::<OpV>::empty() && rows_ops(
                rows_v.skip(ri as int),
                ng,
                cg,
                y0,
                st.y as int,
            ).1 == st.y as int,
        decreases n - ri + (if done {
            0int
        } else {
            1int
        }),
    {
        proof {
            assert(rows_v.skip(ri as int)[0] == rows_v[ri as int]);
            assert(rows_v.skip(ri as int).drop_first() =~= rows_v.skip(ri + 1));
            assert(rows@[ri as int]@ == rows_v[ri as int]);
        }
        let row = &rows[ri];
        let trow = trim_bytes(row);
        let te = table_end_bytes();
        if bytes_eq(&trow, &te) {
            done = true;
        } else {
            st.advance(LINE_HEIGHT);
            let y2: i64 = st.y;
            let ghost y2g = y2 as int;
            let cells = split_bytes(row, 124);
            let ghost cells_v = split_at(rows_v[ri as int], 124);
            let ghost cells_all = cells_ops(cells_v, 1, ng, cg, y0, y2g);
            let ghost row_base = body_acc;
            let ghost mut cell_acc: Seq<OpV> = Seq::<OpV>::empty();
            proof {
                assert(cell_acc + cells_ops(cells_v, 1, ng, cg, y0, y2g) =~= cells_all);
            }
            let m: usize = cells.len();
            let mut ci: usize = 1;
            while ci < m && ci <= ncols_us
                invariant
                    1 <= ci <= m + 1,
                    ci <= ncols_us + 1,
                    m == cells@.len(),
                    vecs_view(cells@) == cells_v,
                    st.wf(),
                    ncols_us as int == ng,
                    colw as int == cg,
                    1 <= ng <= 0x1_0000_0002,
                    0 <= cg,
                    ng * cg <= 760,
                    cg * ng <= 760,
                    initial_y as int == y0,
                    -0x0800_0000_0000_0000 <= y0 <= PAGE_TOP,
                    y2 as int == y2g,
                    y2g >= y0 - 24 * (ri as int) - 24,
                    st.y == y2,
                    old_pv.len() >= 1,
                    pages_view(st.pages@) == with_appended(
                        old_pv,
                        seq![hline_op(MARGIN as int, y0, ng * cg)] + row_base + cell_acc,
                    ),
                    cells_all == cell_acc + cells_ops(cells_v, ci as int, ng, cg, y0, y2g),
                decreases m - ci,
            {
                proof {
                    assert(cells@[ci as int]@ == cells_v[ci as int]);
                    assert(((ci - 1) as int) * cg <= ng * cg) by (nonlinear_arith)
                        requires
                            0 <= (ci - 1) as int <= ng,
                            0 <= cg,
                    ;
                    assert(0 <= ((ci - 1) as int) * cg) by (nonlinear_arith)
                        requires
                            0 <= (ci - 1) as int,
                            0 <= cg,
                    ;
                }
                let x: i64 = MARGIN + ((ci - 1) as i64) * colw;
                let content = trim_bytes(&cells[ci]);
                let top = DrawOp::Text {
                    content,
                    font_size: FONT_SIZE,
                    x: x + CELL_TEXT_X_OFFSET,
                    y: y2 + CELL_TEXT_Y_OFFSET,
                    bold: false,
                };
                let ghost topv = top@;
                let ghost vlv = vline_op(x as int, y0, y2g);
                proof {
                    assert(cells_ops(cells_v, ci as int, ng, cg, y0, y2g) == seq![topv, vlv]
                        + cells_ops(cells_v, ci + 1, ng, cg, y0, y2g));
                }
                st.emit(top);
                proof {
                    lemma_with_appended_compose(
                        old_pv,
                        seq![hline_op(MARGIN as int, y0, ng * cg)] + row_base + cell_acc,
                        seq![topv],
                    );
                }
                let vl = DrawOp::Line { x1: x, y1: initial_y, x2: x, y2: y2 };
                proof {
                    assert(vl@ == vlv);
                }
                st.emit(vl);
                proof {
                    lemma_with_appended_compose(
                        old_pv,
                        (seq![hline_op(MARGIN as int, y0, ng * cg)] + row_base + cell_acc)
                            + seq![topv],
                        seq![vlv],
                    );
                    let prev_cell_acc = cell_acc;
                    cell_acc = cell_acc + seq![topv, vlv];
                    assert(((seq![hline_op(MARGIN as int, y0, ng * cg)] + row_base
                        + prev_cell_acc) + seq![topv]) + seq![vlv] =~= seq![
                        hline_op(MARGIN as int, y0, ng * cg),
                    ] + row_base + cell_acc);
                    assert(prev_cell_acc + (seq![topv, vlv] + cells_ops(
                        cells_v,
                        ci + 1,
                        ng,
                        cg,
                        y0,
                        y2g,
                    )) =~= cell_acc + cells_ops(cells_v, ci + 1, ng, cg, y0, y2g));
                }
                ci = ci + 1;
            }
            proof {
                assert(cells_ops(cells_v, ci as int, ng, cg, y0, y2g) == Seq::<OpV>::empty());
                assert(cells_all =~= cell_acc);
            }
            let hl = DrawOp::Line { x1: MARGIN, y1: y2, x2: MARGIN + ncols * colw, y2: y2 };
            let ghost hlv = hline_op(MARGIN as int, y2g, ng * cg);
            proof {
                assert(hl@ == hlv);
            }
            st.emit(hl);
            proof {
                lemma_with_appended_compose(
                    old_pv,
                    seq![hline_op(MARGIN as int, y0, ng * cg)] + row_base + cell_acc,
                    seq![hlv],
                );
                body_acc = row_base + (cells_all + seq![hlv]);
                assert(seq![hline_op(MARGIN as int, y0, ng * cg)] + row_base + cell_acc + seq![
                    hlv,
                ] =~= seq![hline_op(MARGIN as int, y0, ng * cg)] + body_acc);
                let rest = rows_ops(rows_v.skip(ri + 1), ng, cg, y0, y2g);
                assert(rows_ops(rows_v.skip(ri as int), ng, cg, y0, y2g + 24).0 == (cells_all
                    + seq![hlv]) + rest.0);
                assert(row_base + ((cells_all + seq![hlv]) + rest.0) =~= body_acc + rest.0);
            }
            ri = ri + 1;
        }
    }
    proof {
        if !done {
            assert(rows_v.skip(n as int) =~= Seq::<Seq<u8>>::empty());
        }
        assert(body_all.0 =~= body_acc);
        assert(body_all.1 == st.y as int);
    }
    let vl_end = DrawOp::Line {
        x1: MARGIN + ncols * colw,
        y1: initial_y,
        x2: MARGIN + ncols * colw,
        y2: st.y,
    };
    let ghost vl_endv = vline_op(MARGIN as int + ng * cg, y0, body_all.1);
    proof {
        assert(vl_end@ == vl_endv);
    }
    st.emit(vl_end);
    proof {
        lemma_with_appended_compose(
            old_pv,
            seq![hline_op(MARGIN as int, y0, ng * cg)] + body_acc,
            seq![vl_endv],
        );
    }
    let hl_end = DrawOp::Line { x1: MARGIN, y1: st.y, x2: MARGIN + ncols * colw, y2: st.y };
    let ghost hl_endv = hline_op(MARGIN as int, body_all.1, ng * cg);
    proof {
        assert(hl_end@ == hl_endv);
    }
    st.emit(hl_end);
    proof {
        lemma_with_appended_compose(
            old_pv,
            (seq![hline_op(MARGIN as int, y0, ng * cg)] + body_acc) + seq![vl_endv],
            seq![hl_endv],
        );
        assert(((seq![hline_op(MARGIN as int, y0, ng * cg)] + body_acc) + seq![vl_endv]) + seq![
            hl_endv,
        ] =~= table_render(text@, y0).0);
    }
    Ok(())
}

} // verus!
