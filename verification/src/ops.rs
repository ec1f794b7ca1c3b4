use vstd::prelude::*;
use crate::geom::PAGE_TOP;

verus! {

// The engine does not draw anything itself: it produces a list of pages, each
// a list of drawing instructions, which an unverified backend replays against
// an actual document writer.  Coordinates are layout units (quarters of a
// millimeter); the origin is the page's bottom-left corner, as in the target
// document model.

/// One drawing instruction.
pub enum DrawOp {
    /// Place a text string with its left baseline at `(x, y)`.
    Text { content: Vec<u8>, font_size: i64, x: i64, y: i64, bold: bool },
    /// Draw a straight line segment from `(x1, y1)` to `(x2, y2)`.
    Line { x1: i64, y1: i64, x2: i64, y2: i64 },
    /// Place the image decoded from `data` with its bottom-left corner at
    /// `(x, y)`, scaled to `width` by `height` units.
    Image { data: Vec<u8>, x: i64, y: i64, width: i64, height: i64 },
}

/// The mathematical value of a drawing instruction.
#[verifier::ext_equal]
pub enum OpV {
    Text { content: Seq<u8>, font_size: int, x: int, y: int, bold: bool },
    Line { x1: int, y1: int, x2: int, y2: int },
    Image { data: Seq<u8>, x: int, y: int, width: int, height: int },
}

impl View for DrawOp {
    type V = OpV;

    open spec fn view(&self) -> OpV {
        match self {
            DrawOp::Text { content, font_size, x, y, bold } => OpV::Text {
                content: content@,
                font_size: *font_size as int,
                x: *x as int,
                y: *y as int,
                bold: *bold,
            },
            DrawOp::Line { x1, y1, x2, y2 } => OpV::Line {
                x1: *x1 as int,
                y1: *y1 as int,
                x2: *x2 as int,
                y2: *y2 as int,
            },
            DrawOp::Image { data, x, y, width, height } => OpV::Image {
                data: data@,
                x: *x as int,
                y: *y as int,
                width: *width as int,
                height: *height as int,
            },
        }
    }
}

/// One page: the drawing instructions placed on it, in emission order.
pub struct Page {
    pub ops: Vec<DrawOp>,
}

impl View for Page {
    type V = Seq<OpV>;

    open spec fn view(&self) -> Seq<OpV> {
        self.ops@.map_values(|o: DrawOp| o@)
    }
}

/// The instruction lists of a sequence of pages.
pub open spec fn pages_view(s: Seq<Page>) -> Seq<Seq<OpV>> {
    s.map_values(|p: Page| p@)
}

/// `pv` with `ops` appended to its last page.
pub open spec fn with_appended(pv: Seq<Seq<OpV>>, ops: Seq<OpV>) -> Seq<Seq<OpV>> {
    pv.update(pv.len() - 1, pv.last() + ops)
}

pub proof fn lemma_with_appended_empty(pv: Seq<Seq<OpV>>)
    requires
        pv.len() >= 1,
    ensures
        with_appended(pv, Seq::<OpV>::empty()) == pv,
{
    assert(pv.last() + Seq::<OpV>::empty() =~= pv.last());
    assert(with_appended(pv, Seq::<OpV>::empty()) =~= pv);
}

pub proof fn lemma_with_appended_compose(pv: Seq<Seq<OpV>>, a: Seq<OpV>, b: Seq<OpV>)
    requires
        pv.len() >= 1,
    ensures
        with_appended(with_appended(pv, a), b) == with_appended(pv, a + b),
{
    assert((pv.last() + a) + b =~= pv.last() + (a + b));
    assert(with_appended(with_appended(pv, a), b) =~= with_appended(pv, a + b));
}

/// Errors that abort a conversion.  There is no partial recovery: the first
/// failing block fails the whole document.
#[derive(Clone, Copy, Debug, PartialEq, Eq, Structural)]
pub enum ConvertError {
    /// A table block with fewer than two lines, or whose first data row
    /// yields no columns.
    MalformedTable,
    /// Image bytes whose signature is neither PNG nor JPEG.
    UnsupportedImage,
    /// Image bytes with a recognised signature that could not be decoded.
    ImageDecode,
}

/// The mutable layout state: the pages produced so far (the last one is the
/// current page) and the vertical cursor on the current page.
pub struct LayoutState {
    pub pages: Vec<Page>,
    pub y: i64,
}

impl LayoutState {
    /// There is always a current page, and the cursor never sits above the
    /// fresh-page starting position.
    pub open spec fn wf(&self) -> bool {
        &&& self.pages@.len() >= 1
        &&& self.y <= PAGE_TOP
    }

    /// A single empty page with the cursor at the top.
    pub fn new() -> (st: LayoutState)
        ensures
            st.wf(),
            pages_view(st.pages@) == seq![Seq::<OpV>::empty()],
            st.y == PAGE_TOP,
    {
        let mut pages: Vec<Page> = Vec::new();
        pages.push(Page { ops: Vec::new() });
        let st = LayoutState { pages, y: PAGE_TOP };
        proof {
            assert(st.pages@[0]@ =~= Seq::<OpV>::empty());
            assert(pages_view(st.pages@) =~= seq![Seq::<OpV>::empty()]);
        }
        st
    }

    /// Move the cursor down by `delta` units.
    pub fn advance(&mut self, delta: i64)
        requires
            old(self).wf(),
            0 <= delta,
            old(self).y - delta >= i64::MIN,
        ensures
            final(self).wf(),
            final(self).pages == old(self).pages,
            final(self).y == old(self).y - delta,
    {
        self.y = self.y - delta;
    }

    /// Open a fresh page and reset the cursor to the top.
    pub fn new_page(&mut self)
        requires
            old(self).wf(),
        ensures
            final(self).wf(),
            pages_view(final(self).pages@) == pages_view(old(self).pages@).push(
                Seq::<OpV>::empty(),
            ),
            final(self).y == PAGE_TOP,
    {
        self.pages.push(Page { ops: Vec::new() });
        self.y = PAGE_TOP;
        proof {
            assert(self.pages@.last()@ =~= Seq::<OpV>::empty());
            assert(pages_view(self.pages@) =~= pages_view(old(self).pages@).push(
                Seq::<OpV>::empty(),
            ));
        }
    }

    /// Room left above the bottom margin on the current page.
    pub fn remaining_height(&self) -> (r: i64)
        requires
            self.wf(),
            self.y >= i64::MIN + crate::geom::MARGIN,
        ensures
            r == self.y - crate::geom::MARGIN,
    {
        self.y - crate::geom::MARGIN
    }

    /// Break to a fresh page unless `required` units of room still fit above
    /// the bottom margin.
    pub fn ensure_page_for(&mut self, required: i64)
        requires
            old(self).wf(),
            0 <= required <= i64::MAX - crate::geom::MARGIN,
        ensures
            final(self).wf(),
            old(self).y - crate::geom::MARGIN < required ==> pages_view(final(self).pages@)
                == pages_view(old(self).pages@).push(Seq::<OpV>::empty()) && final(self).y
                == PAGE_TOP,
            old(self).y - crate::geom::MARGIN >= required ==> *final(self) == *old(self),
    {
        if self.y < crate::geom::MARGIN + required {
            self.new_page();
        }
    }

    /// Add one instruction to the current page; the cursor does not move.
    pub fn emit(&mut self, op: DrawOp)
        requires
            old(self).wf(),
        ensures
            final(self).wf(),
            pages_view(final(self).pages@) == with_appended(
                pages_view(old(self).pages@),
                seq![op@],
            ),
            final(self).y == old(self).y,
    {
        let ghost old_pages = self.pages@;
        let ghost opv = op@;
        let mut last = self.pages.pop().unwrap();
        last.ops.push(op);
        proof {
            assert(last@ =~= old_pages.last()@ + seq![opv]);
        }
        self.pages.push(last);
        proof {
            assert(pages_view(self.pages@) =~= with_appended(pages_view(old_pages), seq![opv]));
        }
    }
}

} // verus!
