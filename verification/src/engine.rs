use vstd::prelude::*;
use crate::bytes::{has_prefix_of, starts_with_bytes, table_start_bytes, table_start_marker};
use crate::geom::{LOW_WATER, MARGIN, PAGE_TOP};
use crate::image::{
    dims_of, image_block_error, image_end_y, image_fits, image_op, process_image,
};
use crate::ops::{pages_view, with_appended, ConvertError, LayoutState, OpV, Page};
use crate::table::{process_table_for_pdf, table_render, table_valid};
use crate::text::{flow_paragraph, paragraph_end_y, paragraph_ops};

verus! {

// The layout driver: one pass over the content blocks, in order.  A block's
// text is processed first (as a table when it carries the table marker,
// otherwise as a paragraph), then its image if it has one, and finally the
// low-water mark forces a fresh page when little room is left.

/// One unit of document content: text (possibly a marker-encoded table)
/// and/or raw image bytes.  An empty text with no image does nothing.
pub struct DocContent {
    pub text: Vec<u8>,
    pub image: Option<ImageContent>,
}

/// Raw encoded image bytes (PNG or JPEG).
pub struct ImageContent {
    pub bytes: Vec<u8>,
}

impl View for ImageContent {
    type V = Seq<u8>;

    open spec fn view(&self) -> Seq<u8> {
        self.bytes@
    }
}

/// The mathematical value of a content block.
#[verifier::ext_equal]
pub struct DocV {
    pub text: Seq<u8>,
    pub image: Option<Seq<u8>>,
}

impl View for DocContent {
    type V = DocV;

    open spec fn view(&self) -> DocV {
        DocV {
            text: self.text@,
            image: match self.image {
                Option::Some(ref ic) => Option::Some(ic.bytes@),
                Option::None => Option::None,
            },
        }
    }
}

/// The views of a sequence of content blocks.
pub open spec fn docs_view(s: Seq<DocContent>) -> Seq<DocV> {
    s.map_values(|d: DocContent| d@)
}

/// The machine limit the engine asks of a block: its text must be short
/// enough for the width and cursor arithmetic to stay inside 64 bits.
pub open spec fn content_wf(c: DocV) -> bool {
    c.text.len() <= 0x1_0000_0000
}

/// One block's effect on the pages and the cursor, or the error that aborts
/// the conversion at this block.
pub open spec fn block_step(pv: Seq<Seq<OpV>>, y: int, c: DocV) -> Result<
    (Seq<Seq<OpV>>, int),
    ConvertError,
> {
    let after_text: Result<(Seq<Seq<OpV>>, int), ConvertError> = if c.text.len() > 0 {
        if has_prefix_of(c.text, table_start_marker()) {
            if table_valid(c.text) {
                Ok((with_appended(pv, table_render(c.text, y).0), table_render(c.text, y).1))
            } else {
                Err(ConvertError::MalformedTable)
            }
        } else {
            Ok((with_appended(pv, paragraph_ops(c.text, y)), paragraph_end_y(c.text, y)))
        }
    } else {
        Ok((pv, y))
    };
    match after_text {
        Result::Err(e) => Err(e),
        Result::Ok(s1) => {
            let after_image: Result<(Seq<Seq<OpV>>, int), ConvertError> = match c.image {
                Option::None => Ok(s1),
                Option::Some(data) => match image_block_error(data) {
                    Option::Some(e) => Err(e),
                    Option::None => {
                        let dims = dims_of(data);
                        if image_fits(dims.0, dims.1, s1.1) {
                            Ok(
                                (
                                    with_appended(
                                        s1.0,
                                        seq![image_op(data, dims.0, dims.1, s1.1)],
                                    ),
                                    image_end_y(dims.0, dims.1, s1.1),
                                ),
                            )
                        } else {
                            Ok(
                                (
                                    s1.0.push(
                                        seq![image_op(data, dims.0, dims.1, PAGE_TOP as int)],
                                    ),
                                    image_end_y(dims.0, dims.1, PAGE_TOP as int),
                                ),
                            )
                        }
                    },
                },
            };
            match after_image {
                Result::Err(e) => Err(e),
                Result::Ok(s2) => {
                    if s2.1 < MARGIN as int + LOW_WATER as int {
                        Ok((s2.0.push(Seq::<OpV>::empty()), PAGE_TOP as int))
                    } else {
                        Ok(s2)
                    }
                },
            }
        },
    }
}

/// The conversion folded over the remaining blocks, from the given pages
/// and cursor; the first failing block fails the whole run.
pub open spec fn convert_from(blocks: Seq<DocV>, pv: Seq<Seq<OpV>>, y: int) -> Result<
    (Seq<Seq<OpV>>, int),
    ConvertError,
>
    decreases blocks.len(),
{
    if blocks.len() == 0 {
        Ok((pv, y))
    } else {
        match block_step(pv, y, blocks[0]) {
            Result::Err(e) => Err(e),
            Result::Ok(s) => convert_from(blocks.drop_first(), s.0, s.1),
        }
    }
}

/// The whole conversion: one fresh empty page, the cursor at the top, every
/// block in order.
pub open spec fn convert_result(blocks: Seq<DocV>) -> Result<
    (Seq<Seq<OpV>>, int),
    ConvertError,
> {
    convert_from(blocks, seq![Seq::<OpV>::empty()], PAGE_TOP as int)
}

/// Convert an ordered sequence of content blocks into pages of drawing
/// instructions.  The result is exactly `convert_result` of the blocks'
/// values: the pages on success, or the first block's error with no partial
/// output.
pub fn convert_paragraphs_to_pdf(content: &Vec<DocContent>) -> (r: Result<
    Vec<Page>,
    ConvertError,
>)
    requires
        forall|i: int| 0 <= i < content@.len() ==> content_wf(#[trigger] content@[i]@),
    ensures
        r matches Err(e) ==> convert_result(docs_view(content@)) == Result::<
            (Seq<Seq<OpV>>, int),
            ConvertError,
        >::Err(e),
        r matches Ok(pages) ==> convert_result(docs_view(content@)) matches Ok(s)
            && pages_view(pages@) == s.0,
{
    let mut st = LayoutState::new();
    let ghost blocks = docs_view(content@);
    proof {
        assert(blocks.skip(0) =~= blocks);
    }
    let n: usize = content.len();
    let mut i: usize = 0;
    while i < n
        invariant
            i <= n,
            n == content@.len(),
            blocks == docs_view(content@),
            forall|k: int| 0 <= k < content@.len() ==> content_wf(#[trigger] content@[k]@),
            st.wf(),
            MARGIN + LOW_WATER <= st.y,
            convert_result(blocks) == convert_from(
                blocks.skip(i as int),
                pages_view(st.pages@),
                st.y as int,
            ),
        decreases n - i,
    {
        let ghost pv0 = pages_view(st.pages@);
        let ghost y0 = st.y as int;
        let ghost c = blocks[i as int];
        proof {
            assert(blocks.skip(i as int)[0] == blocks[i as int]);
            assert(blocks.skip(i as int).drop_first() =~= blocks.skip(i + 1));
            assert(c == content@[i as int]@);
            assert(content_wf(c));
        }
        let item = &content[i];
        if item.text.len() > 0 {
            let ts = table_start_bytes();
            if starts_with_bytes(&item.text, &ts) {
                let tr = process_table_for_pdf(&mut st, &item.text);
                match tr {
                    Result::Err(e) => {
                        proof {
                            assert(block_step(pv0, y0, c) == Result::<
                                (Seq<Seq<OpV>>, int),
                                ConvertError,
                            >::Err(e));
                        }
                        return Err(e);
                    },
                    Result::Ok(_) => {},
                }
            } else {
                flow_paragraph(&mut st, &item.text);
            }
        }
        let ghost s1 = (pages_view(st.pages@), st.y as int);
        match &item.image {
            Option::None => {},
            Option::Some(img) => {
                let ir = process_image(&mut st, &img.bytes);
                match ir {
                    Result::Err(e) => {
                        proof {
                            assert(block_step(pv0, y0, c) == Result::<
                                (Seq<Seq<OpV>>, int),
                                ConvertError,
                            >::Err(e));
                        }
                        return Err(e);
                    },
                    Result::Ok(_) => {},
                }
            },
        }
        let ghost s2 = (pages_view(st.pages@), st.y as int);
        st.ensure_page_for(LOW_WATER);
        proof {
            assert(block_step(pv0, y0, c) == Result::<(Seq<Seq<OpV>>, int), ConvertError>::Ok(
                (pages_view(st.pages@), st.y as int),
            ));
        }
        i = i + 1;
    }
    proof {
        assert(blocks.skip(n as int) =~= Seq::<DocV>::empty());
    }
    Ok(st.pages)
}

} // verus!
