use vstd::prelude::*;
use crate::bytes::{
    append_bytes, clone_bytes, has_prefix_of, starts_with_bytes, table_end_marker,
    table_end_bytes, table_start_bytes, table_start_marker,
};
use crate::engine::{docs_view, DocContent, DocV, ImageContent};

verus! {

// Assembly of the content block sequence from an already-extracted document
// model: paragraphs are lists of runs (text, hard break, embedded image),
// tables are grids of cells, and the result is the ordered `DocContent`
// sequence the layout driver consumes.  The unverified reader only walks
// the source file and hands these plain values over.

/// One run inside a paragraph.
pub enum Run {
    /// A piece of literal text.
    Text(Vec<u8>),
    /// A hard break.
    LineBreak,
    /// An embedded image, already resolved to its raw bytes.
    Image(Vec<u8>),
}

/// A paragraph: its runs in order.
pub struct Paragraph {
    pub runs: Vec<Run>,
}

/// One table cell: the paragraphs inside it.
pub struct TableCell {
    pub paragraphs: Vec<Paragraph>,
}

/// One table row: its cells in order.
pub struct TableRow {
    pub cells: Vec<TableCell>,
}

/// A table: its rows in order.
pub struct Table {
    pub rows: Vec<TableRow>,
}

/// One top-level item of the document body.
pub enum BodyContent {
    Paragraph(Paragraph),
    Table(Table),
}

/// What one run contributes to a table cell's text: a hard break becomes a
/// space, an embedded image nothing.
pub open spec fn cell_run_text(r: Run) -> Seq<u8> {
    match r {
        Run::Text(v) => v@,
        Run::LineBreak => seq![32u8],
        Run::Image(_) => Seq::<u8>::empty(),
    }
}

/// The text of a run sequence inside a table cell.
pub open spec fn cell_runs_text(rs: Seq<Run>) -> Seq<u8>
    decreases rs.len(),
{
    if rs.len() == 0 {
        Seq::<u8>::empty()
    } else {
        cell_run_text(rs[0]) + cell_runs_text(rs.drop_first())
    }
}

/// The text of a cell: its paragraphs' texts, concatenated.
pub open spec fn cell_paragraphs_text(ps: Seq<Paragraph>) -> Seq<u8>
    decreases ps.len(),
{
    if ps.len() == 0 {
        Seq::<u8>::empty()
    } else {
        cell_runs_text(ps[0].runs@) + cell_paragraphs_text(ps.drop_first())
    }
}

/// The encoding of a row's cells: each cell's text followed by its closing
/// grid delimiter.
pub open spec fn cells_encoding(cs: Seq<TableCell>) -> Seq<u8>
    decreases cs.len(),
{
    if cs.len() == 0 {
        Seq::<u8>::empty()
    } else {
        cell_paragraphs_text(cs[0].paragraphs@) + seq![124u8] + cells_encoding(cs.drop_first())
    }
}

/// The encoding of the rows: each row opens with a grid delimiter, carries
/// its cells and ends the line.
pub open spec fn rows_encoding(rs: Seq<TableRow>) -> Seq<u8>
    decreases rs.len(),
{
    if rs.len() == 0 {
        Seq::<u8>::empty()
    } else {
        seq![124u8] + cells_encoding(rs[0].cells@) + seq![10u8] + rows_encoding(rs.drop_first())
    }
}

/// The marker-encoded byte string of a whole table.
pub open spec fn table_encoding(t: Table) -> Seq<u8> {
    table_start_marker() + seq![10u8] + rows_encoding(t.rows@) + table_end_marker() + seq![10u8]
}

/// What one run contributes to a paragraph's text: a hard break becomes a
/// line break, an embedded image nothing.
pub open spec fn para_run_text(r: Run) -> Seq<u8> {
    match r {
        Run::Text(v) => v@,
        Run::LineBreak => seq![10u8],
        Run::Image(_) => Seq::<u8>::empty(),
    }
}

/// The text of a paragraph's runs.
pub open spec fn para_runs_text(rs: Seq<Run>) -> Seq<u8>
    decreases rs.len(),
{
    if rs.len() == 0 {
        Seq::<u8>::empty()
    } else {
        para_run_text(rs[0]) + para_runs_text(rs.drop_first())
    }
}

/// The image blocks a paragraph emits: one per embedded image, in run order.
pub open spec fn image_blocks(rs: Seq<Run>) -> Seq<DocV>
    decreases rs.len(),
{
    if rs.len() == 0 {
        Seq::<DocV>::empty()
    } else {
        (match rs[0] {
            Run::Image(b) => seq![DocV { text: Seq::<u8>::empty(), image: Some(b@) }],
            _ => Seq::<DocV>::empty(),
        }) + image_blocks(rs.drop_first())
    }
}

/// The blocks of one paragraph: its image blocks first, then one text block
/// when the text is non-empty.
pub open spec fn paragraph_blocks(rs: Seq<Run>) -> Seq<DocV> {
    image_blocks(rs) + if para_runs_text(rs).len() > 0 {
        seq![DocV { text: para_runs_text(rs), image: None }]
    } else {
        Seq::<DocV>::empty()
    }
}

/// The blocks of the whole body, in document order.
pub open spec fn body_blocks(items: Seq<BodyContent>) -> Seq<DocV>
    decreases items.len(),
{
    if items.len() == 0 {
        Seq::<DocV>::empty()
    } else {
        (match items[0] {
            BodyContent::Paragraph(p) => paragraph_blocks(p.runs@),
            BodyContent::Table(t) => seq![DocV { text: table_encoding(t), image: None }],
        }) + body_blocks(items.drop_first())
    }
}

proof fn lemma_docs_view_push(s: Seq<DocContent>, d: DocContent)
    ensures
        docs_view(s.push(d)) == docs_view(s).push(d@),
{
    assert(docs_view(s.push(d)) =~= docs_view(s).push(d@));
}

/// Append a paragraph's text, as it reads inside a table cell, to the
/// buffer: hard breaks become spaces, embedded images are ignored.
pub fn process_paragraph_content(paragraph: &Paragraph, paragraph_text: &mut Vec<u8>)
    ensures
        final(paragraph_text)@ == old(paragraph_text)@ + cell_runs_text(paragraph.runs@),
{
    let ghost rs = paragraph.runs@;
    let n: usize = paragraph.runs.len();
    let mut i: usize = 0;
    proof {
        assert(rs.skip(0) =~= rs);
        assert(old(paragraph_text)@ + Seq::<u8>::empty() =~= old(paragraph_text)@);
    }
    while i < n
        invariant
            i <= n,
            n == paragraph.runs@.len(),
            rs == paragraph.runs@,
            old(paragraph_text)@ + cell_runs_text(rs) == paragraph_text@ + cell_runs_text(
                rs.skip(i as int),
            ),
        decreases n - i,
    {
        proof {
            assert(rs.skip(i as int)[0] == rs[i as int]);
            assert(rs.skip(i as int).drop_first() =~= rs.skip(i + 1));
        }
        let ghost before = paragraph_text@;
        match &paragraph.runs[i] {
            Run::Text(v) => {
                append_bytes(paragraph_text, v);
            },
            Run::LineBreak => {
                paragraph_text.push(32);
                proof {
                    assert(paragraph_text@ =~= before + seq![32u8]);
                }
            },
            Run::Image(_) => {
                proof {
                    assert(paragraph_text@ + Seq::<u8>::empty() =~= paragraph_text@);
                }
            },
        }
        proof {
            assert(paragraph_text@ == before + cell_run_text(rs[i as int]));
            assert((paragraph_text@) + cell_runs_text(rs.skip(i + 1)) =~= before + (cell_run_text(
                rs[i as int],
            ) + cell_runs_text(rs.skip(i + 1))));
        }
        i = i + 1;
    }
    proof {
        assert(cell_runs_text(rs.skip(n as int)) =~= Seq::<u8>::empty());
        assert(paragraph_text@ + Seq::<u8>::empty() =~= paragraph_text@);
        assert(old(paragraph_text)@ + cell_runs_text(rs) =~= paragraph_text@);
    }
}

/// Turn a table into one marker-encoded text block and append it to the
/// content sequence.
pub fn process_table(table: &Table, content_order: &mut Vec<DocContent>)
    ensures
        docs_view(final(content_order)@) == docs_view(old(content_order)@).push(
            DocV { text: table_encoding(*table), image: None },
        ),
{
    let mut enc: Vec<u8> = table_start_bytes();
    enc.push(10);
    let ghost rows = table.rows@;
    let ghost base = table_start_marker() + seq![10u8];
    proof {
        assert(enc@ =~= base);
        assert(rows.skip(0) =~= rows);
        assert(base + Seq::<u8>::empty() =~= base);
    }
    let n: usize = table.rows.len();
    let mut ri: usize = 0;
    while ri < n
        invariant
            ri <= n,
            n == table.rows@.len(),
            rows == table.rows@,
            base == table_start_marker() + seq![10u8],
            base + rows_encoding(rows) == enc@ + rows_encoding(rows.skip(ri as int)),
        decreases n - ri,
    {
        proof {
            assert(rows.skip(ri as int)[0] == rows[ri as int]);
            assert(rows.skip(ri as int).drop_first() =~= rows.skip(ri + 1));
        }
        let ghost row_start = enc@;
        enc.push(124);
        let row = &table.rows[ri];
        let ghost cells = row.cells@;
        let ghost cell_base = enc@;
        proof {
            assert(cells.skip(0) =~= cells);
            assert(cell_base + Seq::<u8>::empty() =~= cell_base);
        }
        let m: usize = row.cells.len();
        let mut ci: usize = 0;
        while ci < m
            invariant
                ci <= m,
                m == row.cells@.len(),
                cells == row.cells@,
                cell_base + cells_encoding(cells) == enc@ + cells_encoding(
                    cells.skip(ci as int),
                ),
            decreases m - ci,
        {
            proof {
                assert(cells.skip(ci as int)[0] == cells[ci as int]);
                assert(cells.skip(ci as int).drop_first() =~= cells.skip(ci + 1));
            }
            let cell = &row.cells[ci];
            let ghost pars = cell.paragraphs@;
            let ghost par_base = enc@;
            proof {
                assert(pars.skip(0) =~= pars);
                assert(par_base + Seq::<u8>::empty() =~= par_base);
            }
            let q: usize = cell.paragraphs.len();
            let mut pi: usize = 0;
            while pi < q
                invariant
                    pi <= q,
                    q == cell.paragraphs@.len(),
                    pars == cell.paragraphs@,
                    par_base + cell_paragraphs_text(pars) == enc@ + cell_paragraphs_text(
                        pars.skip(pi as int),
                    ),
                decreases q - pi,
            {
                proof {
                    assert(pars.skip(pi as int)[0] == pars[pi as int]);
                    assert(pars.skip(pi as int).drop_first() =~= pars.skip(pi + 1));
                }
                let ghost before = enc@;
                process_paragraph_content(&cell.paragraphs[pi], &mut enc);
                proof {
                    assert(enc@ + cell_paragraphs_text(pars.skip(pi + 1)) =~= before + (
                    cell_runs_text(pars[pi as int].runs@) + cell_paragraphs_text(
                        pars.skip(pi + 1),
                    )));
                }
                pi = pi + 1;
            }
            proof {
                assert(cell_paragraphs_text(pars.skip(q as int)) =~= Seq::<u8>::empty());
                assert(enc@ + Seq::<u8>::empty() =~= enc@);
                assert(enc@ =~= par_base + cell_paragraphs_text(pars));
            }
            let ghost before_pipe = enc@;
            enc.push(124);
            proof {
                assert(enc@ =~= before_pipe + seq![124u8]);
                assert(cells_encoding(cells.skip(ci as int)) == cell_paragraphs_text(
                    cells[ci as int].paragraphs@,
                ) + seq![124u8] + cells_encoding(cells.skip(ci + 1)));
                assert(par_base + cells_encoding(cells.skip(ci as int)) =~= enc@
                    + cells_encoding(cells.skip(ci + 1)));
            }
            ci = ci + 1;
        }
        proof {
            assert(cells_encoding(cells.skip(m as int)) =~= Seq::<u8>::empty());
            assert(enc@ + Seq::<u8>::empty() =~= enc@);
            assert(enc@ =~= cell_base + cells_encoding(cells));
        }
        let ghost before_nl = enc@;
        enc.push(10);
        proof {
            assert(enc@ =~= before_nl + seq![10u8]);
            assert(enc@ =~= row_start + (seq![124u8] + cells_encoding(rows[ri as int].cells@)
                + seq![10u8]));
            assert(enc@ + rows_encoding(rows.skip(ri + 1)) =~= row_start + ((seq![124u8]
                + cells_encoding(rows[ri as int].cells@) + seq![10u8]) + rows_encoding(
                rows.skip(ri + 1),
            )));
            assert((seq![124u8] + cells_encoding(rows[ri as int].cells@) + seq![10u8])
                + rows_encoding(rows.skip(ri + 1)) =~= rows_encoding(rows.skip(ri as int)));
        }
        ri = ri + 1;
    }
    proof {
        assert(rows_encoding(rows.skip(n as int)) =~= Seq::<u8>::empty());
        assert(enc@ + Seq::<u8>::empty() =~= enc@);
        assert(enc@ =~= base + rows_encoding(rows));
    }
    let te = table_end_bytes();
    append_bytes(&mut enc, &te);
    enc.push(10);
    proof {
        assert(enc@ =~= table_encoding(*table));
    }
    let ghost before_push = content_order@;
    content_order.push(DocContent { text: enc, image: None });
    proof {
        lemma_docs_view_push(before_push, content_order@[content_order@.len() - 1]);
        assert(content_order@[content_order@.len() - 1]@ == DocV {
            text: table_encoding(*table),
            image: None,
        });
    }
}

/// Turn one paragraph into content blocks: every embedded image becomes its
/// own image block, in run order, and the collected text (hard breaks kept
/// as line breaks) follows as one text block when it is non-empty.
pub fn process_paragraph(paragraph: &Paragraph, content_order: &mut Vec<DocContent>)
    ensures
        docs_view(final(content_order)@) == docs_view(old(content_order)@) + paragraph_blocks(
            paragraph.runs@,
        ),
{
    let ghost rs = paragraph.runs@;
    let ghost base = docs_view(old(content_order)@);
    let mut paragraph_text: Vec<u8> = Vec::new();
    let n: usize = paragraph.runs.len();
    let mut i: usize = 0;
    proof {
        assert(rs.skip(0) =~= rs);
        assert(base + Seq::<DocV>::empty() =~= base);
        assert(paragraph_text@ + Seq::<u8>::empty() =~= Seq::<u8>::empty());
    }
    while i < n
        invariant
            i <= n,
            n == paragraph.runs@.len(),
            rs == paragraph.runs@,
            base == docs_view(old(content_order)@),
            base + image_blocks(rs) == docs_view(content_order@) + image_blocks(
                rs.skip(i as int),
            ),
            para_runs_text(rs) == paragraph_text@ + para_runs_text(rs.skip(i as int)),
        decreases n - i,
    {
        proof {
            assert(rs.skip(i as int)[0] == rs[i as int]);
            assert(rs.skip(i as int).drop_first() =~= rs.skip(i + 1));
        }
        let ghost text_before = paragraph_text@;
        let ghost docs_before = docs_view(content_order@);
        match &paragraph.runs[i] {
            Run::Text(v) => {
                append_bytes(&mut paragraph_text, v);
            },
            Run::LineBreak => {
                paragraph_text.push(10);
                proof {
                    assert(paragraph_text@ =~= text_before + seq![10u8]);
                }
            },
            Run::Image(b) => {
                let bytes = clone_bytes(b);
                let ghost before_push = content_order@;
                content_order.push(
                    DocContent { text: Vec::new(), image: Some(ImageContent { bytes }) },
                );
                proof {
                    lemma_docs_view_push(
                        before_push,
                        content_order@[content_order@.len() - 1],
                    );
                    assert(content_order@[content_order@.len() - 1]@ == DocV {
                        text: Seq::<u8>::empty(),
                        image: Some(b@),
                    });
                }
            },
        }
        proof {
            assert(paragraph_text@ == text_before + para_run_text(rs[i as int]));
            assert(paragraph_text@ + para_runs_text(rs.skip(i + 1)) =~= text_before + (
            para_run_text(rs[i as int]) + para_runs_text(rs.skip(i + 1))));
            let ib = match rs[i as int] {
                Run::Image(b) => seq![DocV { text: Seq::<u8>::empty(), image: Some(b@) }],
                _ => Seq::<DocV>::empty(),
            };
            assert(docs_view(content_order@) == docs_before + ib);
            assert(docs_view(content_order@) + image_blocks(rs.skip(i + 1)) =~= docs_before + (
            ib + image_blocks(rs.skip(i + 1))));
        }
        i = i + 1;
    }
    proof {
        assert(image_blocks(rs.skip(n as int)) =~= Seq::<DocV>::empty());
        assert(para_runs_text(rs.skip(n as int)) =~= Seq::<u8>::empty());
        assert(docs_view(content_order@) + Seq::<DocV>::empty() =~= docs_view(content_order@));
        assert(paragraph_text@ + Seq::<u8>::empty() =~= paragraph_text@);
        assert(para_runs_text(rs) == paragraph_text@);
    }
    if paragraph_text.len() > 0 {
        let ghost before_push = content_order@;
        content_order.push(DocContent { text: paragraph_text, image: None });
        proof {
            lemma_docs_view_push(before_push, content_order@[content_order@.len() - 1]);
            assert(content_order@[content_order@.len() - 1]@ == DocV {
                text: para_runs_text(rs),
                image: None,
            });
            assert((base + image_blocks(rs)).push(
                DocV { text: para_runs_text(rs), image: None },
            ) =~= base + paragraph_blocks(rs));
        }
    } else {
        proof {
            assert(base + image_blocks(rs) =~= base + paragraph_blocks(rs));
        }
    }
}

/// Walk the document body in order, appending each item's blocks.
pub fn process_body_content(body_content: &Vec<BodyContent>, content_order: &mut Vec<DocContent>)
    ensures
        docs_view(final(content_order)@) == docs_view(old(content_order)@) + body_blocks(
            body_content@,
        ),
{
    let ghost items = body_content@;
    let ghost base = docs_view(old(content_order)@);
    let n: usize = body_content.len();
    let mut i: usize = 0;
    proof {
        assert(items.skip(0) =~= items);
        assert(base + Seq::<DocV>::empty() =~= base);
    }
    while i < n
        invariant
            i <= n,
            n == body_content@.len(),
            items == body_content@,
            base == docs_view(old(content_order)@),
            base + body_blocks(items) == docs_view(content_order@) + body_blocks(
                items.skip(i as int),
            ),
        decreases n - i,
    {
        proof {
            assert(items.skip(i as int)[0] == items[i as int]);
            assert(items.skip(i as int).drop_first() =~= items.skip(i + 1));
        }
        let ghost docs_before = docs_view(content_order@);
        match &body_content[i] {
            BodyContent::Paragraph(p) => {
                process_paragraph(p, content_order);
            },
            BodyContent::Table(t) => {
                process_table(t, content_order);
                proof {
                    assert(docs_view(content_order@) =~= docs_before + seq![
                        DocV {
                            text: table_encoding(items[i as int]->Table_0),
                            image: None,
                        },
                    ]);
                }
            },
        }
        proof {
            let blk = match items[i as int] {
                BodyContent::Paragraph(p) => paragraph_blocks(p.runs@),
                BodyContent::Table(t) => seq![DocV { text: table_encoding(t), image: None }],
            };
            assert(docs_view(content_order@) == docs_before + blk);
            assert(docs_view(content_order@) + body_blocks(items.skip(i + 1)) =~= docs_before
                + (blk + body_blocks(items.skip(i + 1))));
        }
        i = i + 1;
    }
    proof {
        assert(body_blocks(items.skip(n as int)) =~= Seq::<DocV>::empty());
        assert(docs_view(content_order@) + Seq::<DocV>::empty() =~= docs_view(content_order@));
    }
}

/// The directory inside the source archive that holds embedded media.
pub open spec fn word_prefix() -> Seq<u8> {
    seq![119u8, 111, 114, 100, 47]
}

/// The archive path of an embedded image: the relationship target, under
/// the media directory unless it already names it.
pub fn image_zip_path(target: &Vec<u8>) -> (r: Vec<u8>)
    ensures
        r@ == if has_prefix_of(target@, word_prefix()) {
            target@
        } else {
            word_prefix() + target@
        },
{
    let mut prefix: Vec<u8> = Vec::new();
    prefix.push(119);
    prefix.push(111);
    prefix.push(114);
    prefix.push(100);
    prefix.push(47);
    proof {
        assert(prefix@ =~= word_prefix());
    }
    if starts_with_bytes(target, &prefix) {
        clone_bytes(target)
    } else {
        let mut r = prefix;
        append_bytes(&mut r, target);
        r
    }
}

} // verus!
