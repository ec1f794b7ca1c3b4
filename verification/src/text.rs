use vstd::prelude::*;
use crate::bytes::{
    append_bytes, char_width, clone_bytes, estimate_text_width, has_space, lemma_split_at_total,
    lemma_total_len_nonneg, lemma_total_len_part, lemma_trim_len, lemma_vecs_view_push,
    lemma_words_of_count, lemma_words_of_wf, split_at, split_bytes, split_words, total_len,
    trim_bytes, trim_of, vecs_view, width_of, words_of,
};
use crate::geom::{
    BULLET_INDENT, FONT_SIZE, LINE_HEIGHT, MARGIN, PAGE_TOP, PARAGRAPH_SPACING, USABLE_WIDTH,
};
use crate::ops::{
    lemma_with_appended_compose, lemma_with_appended_empty, pages_view, with_appended, DrawOp,
    LayoutState, OpV,
};

verus! {

// The text flow engine: a paragraph's raw text is split at hard line breaks,
// each physical line is trimmed and greedily wrapped into rendered lines that
// fit the usable width, and every rendered line becomes one text instruction
// while the cursor moves down.

/// A word may join the current line if the line, a separating space and the
/// word together still fit the usable width.
pub open spec fn line_fits(cur: Seq<u8>, w: Seq<u8>) -> bool {
    width_of(cur, FONT_SIZE as int) + width_of(w, FONT_SIZE as int) + char_width(FONT_SIZE as int)
        <= USABLE_WIDTH as int
}

/// Greedy wrap: `cur` is the line under construction, `ws` the words still to
/// be placed.  A word that does not fit flushes the current line and starts
/// the next one; a word never fails to be placed, however wide.
pub open spec fn wrap_from(ws: Seq<Seq<u8>>, cur: Seq<u8>) -> Seq<Seq<u8>>
    decreases ws.len(),
{
    if ws.len() == 0 {
        if cur.len() == 0 {
            Seq::<Seq<u8>>::empty()
        } else {
            seq![cur]
        }
    } else if cur.len() > 0 && !line_fits(cur, ws[0]) {
        seq![cur] + wrap_from(ws.drop_first(), ws[0])
    } else if cur.len() == 0 {
        wrap_from(ws.drop_first(), ws[0])
    } else {
        wrap_from(ws.drop_first(), cur + seq![32u8] + ws[0])
    }
}

/// The rendered lines of one trimmed physical line.
pub open spec fn wrapped_lines(t: Seq<u8>) -> Seq<Seq<u8>> {
    wrap_from(words_of(t), Seq::<u8>::empty())
}

/// The words joined into one line with single spaces.
pub open spec fn join_words(ws: Seq<Seq<u8>>) -> Seq<u8>
    decreases ws.len(),
{
    if ws.len() == 0 {
        Seq::<u8>::empty()
    } else if ws.len() == 1 {
        ws[0]
    } else {
        ws[0] + seq![32u8] + join_words(ws.drop_first())
    }
}

/// At the body font size every byte is 11 units wide.
proof fn lemma_width_is_len11(s: Seq<u8>)
    ensures
        width_of(s, FONT_SIZE as int) == s.len() * 11,
{
    assert(char_width(FONT_SIZE as int) == 11);
    assert(s.len() * char_width(FONT_SIZE as int) == s.len() * 11) by (nonlinear_arith)
        requires
            char_width(FONT_SIZE as int) == 11,
    ;
}

/// Width is additive over concatenation.
proof fn lemma_width_concat(a: Seq<u8>, b: Seq<u8>, fs: int)
    ensures
        width_of(a + b, fs) == width_of(a, fs) + width_of(b, fs),
{
    assert((a + b).len() == a.len() + b.len());
    assert((a.len() + b.len()) * char_width(fs) == a.len() * char_width(fs) + b.len()
        * char_width(fs)) by (nonlinear_arith);
}

/// A single space is one character wide.
proof fn lemma_width_space(fs: int)
    ensures
        width_of(seq![32u8], fs) == char_width(fs),
{
    assert(seq![32u8].len() == 1);
    assert(1 * char_width(fs) == char_width(fs)) by (nonlinear_arith);
}

proof fn lemma_width_nonneg(a: Seq<u8>, fs: int)
    requires
        0 <= fs,
    ensures
        0 <= width_of(a, fs),
{
    assert(a.len() * char_width(fs) >= 0) by (nonlinear_arith)
        requires
            a.len() >= 0,
            char_width(fs) >= 0,
    ;
}

/// Width of the line `cur + ' ' + w`.
proof fn lemma_width_join_step(cur: Seq<u8>, w: Seq<u8>, fs: int)
    ensures
        width_of(cur + seq![32u8] + w, fs) == width_of(cur, fs) + char_width(fs) + width_of(
            w,
            fs,
        ),
{
    lemma_width_concat(cur + seq![32u8], w, fs);
    lemma_width_concat(cur, seq![32u8], fs);
    lemma_width_space(fs);
}

/// Wrapping emits at most one line per word.
proof fn lemma_wrap_from_count(ws: Seq<Seq<u8>>, cur: Seq<u8>)
    ensures
        wrap_from(ws, cur).len() <= ws.len() + if cur.len() == 0 {
            0int
        } else {
            1int
        },
    decreases ws.len(),
{
    if ws.len() == 0 {
    } else if cur.len() > 0 && !line_fits(cur, ws[0]) {
        lemma_wrap_from_count(ws.drop_first(), ws[0]);
    } else if cur.len() == 0 {
        lemma_wrap_from_count(ws.drop_first(), ws[0]);
    } else {
        lemma_wrap_from_count(ws.drop_first(), cur + seq![32u8] + ws[0]);
    }
}

/// A line that fits the usable width, or a single overlong word standing
/// alone (the accepted no-hyphenation overflow).
pub open spec fn good_line(l: Seq<u8>) -> bool {
    width_of(l, FONT_SIZE as int) <= USABLE_WIDTH as int || !has_space(l)
}

proof fn lemma_wrap_from_good(ws: Seq<Seq<u8>>, cur: Seq<u8>)
    requires
        good_line(cur),
        forall|k: int| 0 <= k < ws.len() ==> !has_space(#[trigger] ws[k]),
    ensures
        forall|j: int| 0 <= j < wrap_from(ws, cur).len() ==> good_line(#[trigger] wrap_from(ws, cur)[j]),
    decreases ws.len(),
{
    if ws.len() == 0 {
    } else {
        assert(!has_space(ws[0]));
        assert forall|k: int|
            0 <= k < ws.drop_first().len() implies !has_space(#[trigger] ws.drop_first()[k]) by {
            assert(ws.drop_first()[k] == ws[k + 1]);
        }
        if cur.len() > 0 && !line_fits(cur, ws[0]) {
            lemma_wrap_from_good(ws.drop_first(), ws[0]);
            assert forall|j: int|
                0 <= j < wrap_from(ws, cur).len() implies good_line(
                #[trigger] wrap_from(ws, cur)[j],
            ) by {
                if j > 0 {
                    assert(wrap_from(ws, cur)[j] == wrap_from(ws.drop_first(), ws[0])[j - 1]);
                }
            }
        } else if cur.len() == 0 {
            lemma_wrap_from_good(ws.drop_first(), ws[0]);
            assert(wrap_from(ws, cur) == wrap_from(ws.drop_first(), ws[0]));
        } else {
            let cur2 = cur + seq![32u8] + ws[0];
            assert(line_fits(cur, ws[0]));
            lemma_width_join_step(cur, ws[0], FONT_SIZE as int);
            assert(width_of(cur2, FONT_SIZE as int) <= USABLE_WIDTH as int);
            lemma_wrap_from_good(ws.drop_first(), cur2);
            assert(wrap_from(ws, cur) == wrap_from(ws.drop_first(), cur2));
        }
    }
}

/// Every rendered line either fits the usable width or holds no space, so it
/// is a single overlong word standing alone.
pub proof fn lemma_wrap_width_bound(t: Seq<u8>)
    ensures
        forall|j: int|
            0 <= j < wrapped_lines(t).len() ==> good_line(#[trigger] wrapped_lines(t)[j]),
{
    lemma_words_of_wf(t);
    lemma_wrap_from_good(words_of(t), Seq::<u8>::empty());
}

proof fn lemma_wrap_from_fits(ws: Seq<Seq<u8>>, cur: Seq<u8>)
    requires
        cur.len() > 0,
        width_of(join_words(seq![cur] + ws), FONT_SIZE as int) <= USABLE_WIDTH as int,
    ensures
        wrap_from(ws, cur) == seq![join_words(seq![cur] + ws)],
    decreases ws.len(),
{
    if ws.len() == 0 {
        assert(join_words(seq![cur] + ws) == cur) by {
            assert(seq![cur] + ws =~= seq![cur]);
        }
    } else {
        let full = join_words(seq![cur] + ws);
        assert((seq![cur] + ws).len() >= 2);
        assert((seq![cur] + ws)[0] == cur);
        assert((seq![cur] + ws).drop_first() =~= ws);
        assert(full == cur + seq![32u8] + join_words(ws));
        let cur2 = cur + seq![32u8] + ws[0];
        if ws.len() == 1 {
            assert(join_words(ws) == ws[0]);
            assert(full == cur2);
            lemma_width_join_step(cur, ws[0], FONT_SIZE as int);
            assert(line_fits(cur, ws[0]));
            assert(seq![cur2] + ws.drop_first() =~= seq![cur2]);
            lemma_wrap_from_fits(ws.drop_first(), cur2);
        } else {
            assert(join_words(ws) == ws[0] + seq![32u8] + join_words(ws.drop_first()));
            assert(full == cur2 + seq![32u8] + join_words(ws.drop_first())) by {
                assert(cur + seq![32u8] + (ws[0] + seq![32u8] + join_words(ws.drop_first())) =~= (
                cur + seq![32u8] + ws[0]) + seq![32u8] + join_words(ws.drop_first()));
            }
            assert(join_words(seq![cur2] + ws.drop_first()) == full) by {
                assert((seq![cur2] + ws.drop_first()).len() >= 2);
                assert((seq![cur2] + ws.drop_first())[0] == cur2);
                assert((seq![cur2] + ws.drop_first()).drop_first() =~= ws.drop_first());
            }
            lemma_width_join_step(cur2, join_words(ws.drop_first()), FONT_SIZE as int);
            lemma_width_join_step(cur, ws[0], FONT_SIZE as int);
            lemma_width_nonneg(join_words(ws.drop_first()), FONT_SIZE as int);
            assert(width_of(full, FONT_SIZE as int) >= width_of(cur, FONT_SIZE as int)
                + char_width(FONT_SIZE as int) + width_of(ws[0], FONT_SIZE as int));
            assert(line_fits(cur, ws[0]));
            lemma_wrap_from_fits(ws.drop_first(), cur2);
        }
    }
}

/// A physical line written with single spaces whose estimated width fits the
/// usable width wraps to exactly one rendered line: the line itself.
pub proof fn lemma_wrap_single_line(t: Seq<u8>)
    requires
        words_of(t).len() >= 1,
        join_words(words_of(t)) == t,
        width_of(t, FONT_SIZE as int) <= USABLE_WIDTH as int,
    ensures
        wrapped_lines(t) == seq![t],
{
    let ws = words_of(t);
    lemma_words_of_wf(t);
    assert(wrapped_lines(t) == wrap_from(ws.drop_first(), ws[0]));
    assert(seq![ws[0]] + ws.drop_first() =~= ws);
    lemma_wrap_from_fits(ws.drop_first(), ws[0]);
}

/// Greedily wrap one trimmed physical line into rendered lines.
pub fn wrap_line(t: &Vec<u8>) -> (r: Vec<Vec<u8>>)
    requires
        t@.len() <= 0x1_0000_0000,
    ensures
        vecs_view(r@) == wrapped_lines(t@),
{
    let words = split_words(t);
    proof {
        lemma_words_of_wf(t@);
        assert(char_width(FONT_SIZE as int) == 11);
    }
    let mut out: Vec<Vec<u8>> = Vec::new();
    let mut cur: Vec<u8> = Vec::new();
    let mut cur_w: i64 = 0;
    let n: usize = words.len();
    let mut i: usize = 0;
    proof {
        assert(words_of(t@).skip(0) =~= words_of(t@));
        assert(vecs_view(out@) + wrap_from(words_of(t@), cur@) =~= wrapped_lines(t@));
    }
    while i < n
        invariant
            i <= n,
            n == words@.len(),
            vecs_view(words@) == words_of(t@),
            t@.len() <= 0x1_0000_0000,
            forall|k: int|
                0 <= k < words_of(t@).len() ==> 1 <= #[trigger] words_of(t@)[k].len()
                    <= t@.len(),
            cur_w == width_of(cur@, FONT_SIZE as int),
            width_of(cur@, FONT_SIZE as int) <= USABLE_WIDTH as int || cur@.len() <= t@.len(),
            wrapped_lines(t@) == vecs_view(out@) + wrap_from(
                words_of(t@).skip(i as int),
                cur@,
            ),
        decreases n - i,
    {
        let word = &words[i];
        proof {
            assert(word@ == words_of(t@)[i as int]);
            assert(char_width(FONT_SIZE as int) == 11);
            lemma_width_is_len11(word@);
            assert(word@.len() * char_width(FONT_SIZE as int) <= 0x1_0000_0000 * 11);
            lemma_width_is_len11(cur@);
            assert(USABLE_WIDTH as int == 760);
            assert(width_of(cur@, FONT_SIZE as int) == cur@.len() * 11);
            if width_of(cur@, FONT_SIZE as int) <= USABLE_WIDTH as int {
                assert(cur@.len() * 11 <= 760);
                assert(cur@.len() <= 69);
            } else {
                assert(cur@.len() <= t@.len());
            }
            assert(cur@.len() <= 0x1_0000_0001);
            assert(cur_w <= 0x1_0000_0001 * 11);
            assert(words_of(t@).skip(i as int)[0] == words_of(t@)[i as int]);
            assert(words_of(t@).skip(i as int).drop_first() =~= words_of(t@).skip(i + 1));
        }
        let ww = estimate_text_width(word, FONT_SIZE);
        let sw: i64 = FONT_SIZE / 4;
        proof {
            assert(sw == char_width(FONT_SIZE as int));
        }
        if cur.len() > 0 && cur_w + ww + sw > USABLE_WIDTH {
            proof {
                assert(!line_fits(cur@, word@));
            }
            let ghost prev_out = out@;
            let ghost prev_cur = cur@;
            out.push(cur);
            cur = clone_bytes(word);
            cur_w = ww;
            proof {
                lemma_vecs_view_push(prev_out, out@[out@.len() - 1]);
                assert(wrap_from(words_of(t@).skip(i as int), prev_cur) == seq![prev_cur]
                    + wrap_from(words_of(t@).skip(i + 1), word@));
                assert(vecs_view(prev_out) + (seq![prev_cur] + wrap_from(
                    words_of(t@).skip(i + 1),
                    cur@,
                )) =~= vecs_view(out@) + wrap_from(words_of(t@).skip(i + 1), cur@));
            }
        } else {
            let ghost prev_cur = cur@;
            if cur.len() > 0 {
                proof {
                    assert(line_fits(cur@, word@));
                }
                cur.push(32);
                append_bytes(&mut cur, word);
                cur_w = cur_w + sw + ww;
                proof {
                    assert(cur@ =~= prev_cur + seq![32u8] + word@);
                    lemma_width_join_step(prev_cur, word@, FONT_SIZE as int);
                    assert(wrap_from(words_of(t@).skip(i as int), prev_cur) == wrap_from(
                        words_of(t@).skip(i + 1),
                        cur@,
                    ));
                }
            } else {
                append_bytes(&mut cur, word);
                cur_w = ww;
                proof {
                    assert(cur@ =~= word@);
                    assert(wrap_from(words_of(t@).skip(i as int), prev_cur) == wrap_from(
                        words_of(t@).skip(i + 1),
                        cur@,
                    ));
                }
            }
        }
        i = i + 1;
    }
    proof {
        assert(words_of(t@).skip(n as int) =~= Seq::<Seq<u8>>::empty());
    }
    if cur.len() > 0 {
        let ghost prev_out = out@;
        let ghost prev_cur = cur@;
        out.push(cur);
        proof {
            lemma_vecs_view_push(prev_out, out@[out@.len() - 1]);
            assert(wrap_from(Seq::<Seq<u8>>::empty(), prev_cur) == seq![prev_cur]);
            assert(vecs_view(prev_out) + seq![prev_cur] =~= vecs_view(out@));
        }
    } else {
        proof {
            assert(wrap_from(Seq::<Seq<u8>>::empty(), cur@) == Seq::<Seq<u8>>::empty());
            assert(vecs_view(out@) + Seq::<Seq<u8>>::empty() =~= vecs_view(out@));
        }
    }
    out
}

/// One text instruction of the flow engine.
pub open spec fn text_op(content: Seq<u8>, x: int, y: int, bold: bool) -> OpV {
    OpV::Text { content, font_size: FONT_SIZE as int, x, y, bold }
}

/// The instructions for the rendered lines of one physical line: one text
/// instruction per rendered line, each a line height below the previous.
pub open spec fn line_ops(lw: Seq<Seq<u8>>, x: int, bold: bool, y: int) -> Seq<OpV> {
    Seq::new(lw.len(), |k: int| text_op(lw[k], x, y - k * (LINE_HEIGHT as int), bold))
}

/// The instructions and final cursor of flowing the physical lines of a
/// paragraph, starting at line index `idx` with the cursor at `y`.  A line
/// that is blank after trimming only advances the cursor by the paragraph
/// spacing.  A bullet line (leading `-`) is indented and never bold; the
/// first physical line of a multi-line paragraph is bold.
pub open spec fn flow_ops(lines: Seq<Seq<u8>>, idx: int, multi: bool, y: int) -> (Seq<OpV>, int)
    decreases lines.len(),
{
    if lines.len() == 0 {
        (Seq::<OpV>::empty(), y)
    } else {
        let t = trim_of(lines[0]);
        if t.len() == 0 {
            flow_ops(lines.drop_first(), idx + 1, multi, y - PARAGRAPH_SPACING as int)
        } else {
            let bullet = t[0] == 45u8;
            let x = if bullet {
                MARGIN as int + BULLET_INDENT as int
            } else {
                MARGIN as int
            };
            let bold = !bullet && idx == 0 && multi;
            let lw = wrapped_lines(t);
            let rest = flow_ops(
                lines.drop_first(),
                idx + 1,
                multi,
                y - lw.len() * (LINE_HEIGHT as int),
            );
            (line_ops(lw, x, bold, y) + rest.0, rest.1)
        }
    }
}

/// All instructions of one paragraph: its physical lines flowed in order.
pub open spec fn paragraph_ops(text: Seq<u8>, y: int) -> Seq<OpV> {
    flow_ops(split_at(text, 10), 0, split_at(text, 10).len() > 1, y).0
}

/// The cursor after a paragraph: the flowed lines plus one trailing
/// paragraph spacing.
pub open spec fn paragraph_end_y(text: Seq<u8>, y: int) -> int {
    flow_ops(split_at(text, 10), 0, split_at(text, 10).len() > 1, y).1 - PARAGRAPH_SPACING as int
}

/// Flow one paragraph onto the current page: split at hard line breaks, trim
/// each physical line, wrap it greedily, emit one text instruction per
/// rendered line, and advance the cursor, ending with one paragraph spacing.
/// No page break happens inside a paragraph.
pub fn flow_paragraph(st: &mut LayoutState, text: &Vec<u8>)
    requires
        old(st).wf(),
        text@.len() <= 0x1_0000_0000,
        old(st).y >= -0x0800_0000_0000_0000,
    ensures
        final(st).wf(),
        pages_view(final(st).pages@) == with_appended(
            pages_view(old(st).pages@),
            paragraph_ops(text@, old(st).y as int),
        ),
        final(st).y as int == paragraph_end_y(text@, old(st).y as int),
        final(st).y as int >= old(st).y - 56 * (text@.len() as int) - 64,
{
    let ghost y0 = old(st).y as int;
    let ghost old_pv = pages_view(old(st).pages@);
    let lines = split_bytes(text, 10);
    let ghost lines_v = split_at(text@, 10);
    let multi = lines.len() > 1;
    let ghost flow_all = flow_ops(lines_v, 0, lines_v.len() > 1, y0);
    proof {
        lemma_split_at_total(text@, 10);
        lemma_total_len_nonneg(lines_v);
        lemma_with_appended_empty(old_pv);
        assert(lines_v.skip(0) =~= lines_v);
    }
    let n: usize = lines.len();
    let mut li: usize = 0;
    let ghost mut emitted: Seq<OpV> = Seq::<OpV>::empty();
    proof {
        assert(emitted + flow_ops(lines_v, 0, multi, y0).0 =~= flow_all.0);
    }
    while li < n
        invariant
            li <= n,
            n == lines@.len(),
            vecs_view(lines@) == lines_v,
            lines_v == split_at(text@, 10),
            text@.len() <= 0x1_0000_0000,
            st.wf(),
            multi == (lines_v.len() > 1),
            1 <= lines_v.len() <= text@.len() + 1,
            0 <= total_len(lines_v) <= text@.len(),
            0 <= total_len(lines_v.skip(li as int)) <= total_len(lines_v),
            -0x0800_0000_0000_0000 <= y0 <= PAGE_TOP,
            st.y as int >= y0 - 32 * (li as int) - 24 * (total_len(lines_v) - total_len(
                lines_v.skip(li as int),
            )),
            old_pv.len() >= 1,
            pages_view(st.pages@) == with_appended(old_pv, emitted),
            flow_all.0 == emitted + flow_ops(
                lines_v.skip(li as int),
                li as int,
                multi,
                st.y as int,
            ).0,
            flow_all.1 == flow_ops(lines_v.skip(li as int), li as int, multi, st.y as int).1,
        decreases n - li,
    {
        proof {
            assert(lines_v.skip(li as int)[0] == lines_v[li as int]);
            assert(lines_v.skip(li as int).drop_first() =~= lines_v.skip(li + 1));
            lemma_total_len_nonneg(lines_v.skip(li + 1));
            lemma_total_len_part(lines_v, li as int);
        }
        let line = &lines[li];
        proof {
            assert(line@ == lines_v[li as int]);
            lemma_trim_len(line@);
        }
        let trimmed = trim_bytes(line);
        if trimmed.len() == 0 {
            st.advance(PARAGRAPH_SPACING);
        } else {
            let bullet = trimmed[0] == 45;
            let x: i64 = if bullet {
                MARGIN + BULLET_INDENT
            } else {
                MARGIN
            };
            let bold = !bullet && li == 0 && multi;
            let ghost xg: int = if bullet {
                MARGIN as int + BULLET_INDENT as int
            } else {
                MARGIN as int
            };
            proof {
                assert(x as int == xg);
            }
            let wrapped = wrap_line(&trimmed);
            let ghost lw = wrapped_lines(trimmed@);
            proof {
                lemma_wrap_from_count(words_of(trimmed@), Seq::<u8>::empty());
                lemma_words_of_count(trimmed@);
                assert(lw.len() <= lines_v[li as int].len());
            }
            let m: usize = wrapped.len();
            let ghost line_y = st.y as int;
            let ghost emitted0 = emitted;
            proof {
                assert(line_ops(lw, xg, bold, line_y).take(0) =~= Seq::<OpV>::empty());
                assert(emitted == emitted0 + line_ops(lw, xg, bold, line_y).take(0));
            }
            let mut k: usize = 0;
            while k < m
                invariant
                    k <= m,
                    m == wrapped@.len(),
                    vecs_view(wrapped@) == lw,
                    m <= 0x1_0000_0001,
                    x as int == xg,
                    st.wf(),
                    st.y as int == line_y - k * (LINE_HEIGHT as int),
                    line_y - 24 * (m as int) >= -0x0810_0000_0000_0000,
                    line_y <= PAGE_TOP,
                    old_pv.len() >= 1,
                    pages_view(st.pages@) == with_appended(old_pv, emitted),
                    emitted == emitted0 + line_ops(lw, xg, bold, line_y).take(k as int),
                decreases m - k,
            {
                let content = clone_bytes(&wrapped[k]);
                let op = DrawOp::Text { content, font_size: FONT_SIZE, x, y: st.y, bold };
                proof {
                    assert(wrapped@[k as int]@ == lw[k as int]);
                    assert(x as int == xg);
                    assert(op@ == line_ops(lw, xg, bold, line_y)[k as int]);
                }
                st.emit(op);
                proof {
                    lemma_with_appended_compose(old_pv, emitted, seq![op@]);
                    assert(line_ops(lw, xg, bold, line_y).take(k + 1) =~= line_ops(
                        lw,
                        xg,
                        bold,
                        line_y,
                    ).take(k as int).push(op@));
                    emitted = emitted + seq![op@];
                    assert(emitted =~= emitted0 + line_ops(lw, xg, bold, line_y).take(k + 1));
                }
                st.advance(LINE_HEIGHT);
                k = k + 1;
            }
            proof {
                assert(line_ops(lw, xg, bold, line_y).take(m as int) =~= line_ops(
                    lw,
                    xg,
                    bold,
                    line_y,
                ));
                assert(trim_of(lines_v[li as int]) == trimmed@);
                let rest = flow_ops(
                    lines_v.skip(li + 1),
                    li + 1,
                    multi,
                    line_y - lw.len() * (LINE_HEIGHT as int),
                );
                assert(flow_ops(lines_v.skip(li as int), li as int, multi, line_y).0
                    == line_ops(lw, xg, bold, line_y) + rest.0);
                assert((emitted0 + line_ops(lw, xg, bold, line_y)) + rest.0 =~= emitted0 + (
                line_ops(lw, xg, bold, line_y) + rest.0));
            }
        }
        li = li + 1;
    }
    proof {
        assert(lines_v.skip(n as int) =~= Seq::<Seq<u8>>::empty());
        assert(total_len(Seq::<Seq<u8>>::empty()) == 0);
        assert(flow_all.0 =~= emitted + Seq::<OpV>::empty());
        assert(flow_all.0 =~= emitted);
    }
    st.advance(PARAGRAPH_SPACING);
}

} // verus!
