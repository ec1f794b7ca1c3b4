use vstd::prelude::*;

verus! {

// Text handled by the engine is a sequence of bytes.  The width model charges
// every byte the same amount, so byte positions are all the layout ever needs;
// splitting only ever happens at ASCII delimiters.

/// ASCII whitespace: space, tab, line feed, vertical tab, form feed, carriage return.
pub open spec fn is_space(b: u8) -> bool {
    b == 32 || (9 <= b && b <= 13)
}

/// Length of the prefix of `s` before the first occurrence of `sep`
/// (all of `s` if `sep` does not occur).
pub open spec fn seg_len(s: Seq<u8>, sep: u8) -> nat
    decreases s.len(),
{
    if s.len() == 0 {
        0
    } else if s[0] == sep {
        0
    } else {
        1 + seg_len(s.drop_first(), sep)
    }
}

/// `s` split at every occurrence of `sep`; separators are consumed, empty
/// segments are kept, and the result always has at least one element.
pub open spec fn split_at(s: Seq<u8>, sep: u8) -> Seq<Seq<u8>>
    decreases s.len(),
{
    let k = seg_len(s, sep) as int;
    if k >= s.len() {
        seq![s]
    } else {
        seq![s.take(k)] + split_at(s.skip(k + 1), sep)
    }
}

proof fn lemma_seg_len(s: Seq<u8>, sep: u8)
    ensures
        seg_len(s, sep) <= s.len(),
        forall|i: int| 0 <= i < seg_len(s, sep) ==> s[i] != sep,
        seg_len(s, sep) < s.len() ==> s[seg_len(s, sep) as int] == sep,
    decreases s.len(),
{
    if s.len() == 0 {
    } else if s[0] == sep {
    } else {
        lemma_seg_len(s.drop_first(), sep);
        assert forall|i: int| 0 <= i < seg_len(s, sep) implies s[i] != sep by {
            if i > 0 {
                assert(s.drop_first()[i - 1] != sep);
            }
        }
    }
}

proof fn lemma_split_at_len(s: Seq<u8>, sep: u8)
    ensures
        split_at(s, sep).len() >= 1,
    decreases s.len(),
{
    lemma_seg_len(s, sep);
    let k = seg_len(s, sep) as int;
    if k < s.len() {
        lemma_split_at_len(s.skip(k + 1), sep);
    }
}

proof fn lemma_seg_len_push(s: Seq<u8>, sep: u8, b: u8)
    ensures
        seg_len(s.push(b), sep) == if seg_len(s, sep) < s.len() {
            seg_len(s, sep) as int
        } else if b == sep {
            s.len() as int
        } else {
            s.len() + 1 as int
        },
    decreases s.len(),
{
    lemma_seg_len(s, sep);
    if s.len() == 0 {
        assert(s.push(b)[0] == b);
        if b == sep {
            assert(seg_len(s.push(b), sep) == 0);
        } else {
            assert(s.push(b).drop_first() =~= Seq::<u8>::empty());
            assert(seg_len(Seq::<u8>::empty(), sep) == 0);
            assert(seg_len(s.push(b), sep) == 1);
        }
    } else {
        assert(s.push(b)[0] == s[0]);
        assert(s.push(b).drop_first() =~= s.drop_first().push(b));
        lemma_seg_len(s.drop_first(), sep);
        lemma_seg_len_push(s.drop_first(), sep, b);
        if s[0] == sep {
            assert(seg_len(s.push(b), sep) == 0);
        } else {
            assert(seg_len(s.push(b), sep) == 1 + seg_len(s.drop_first().push(b), sep));
        }
    }
}

/// Appending one byte either extends the last segment or, for the separator,
/// opens a fresh empty segment.
proof fn lemma_split_at_push(s: Seq<u8>, sep: u8, b: u8)
    ensures
        b == sep ==> split_at(s.push(b), sep) == split_at(s, sep).push(Seq::<u8>::empty()),
        b != sep ==> split_at(s.push(b), sep) == split_at(s, sep).update(
            split_at(s, sep).len() - 1,
            split_at(s, sep).last().push(b),
        ),
    decreases s.len(),
{
    lemma_seg_len(s, sep);
    lemma_seg_len_push(s, sep, b);
    lemma_split_at_len(s, sep);
    let k = seg_len(s, sep) as int;
    let t = s.push(b);
    if k >= s.len() {
        // s holds no separator: split_at(s, sep) == seq![s].
        if b == sep {
            assert(t.take(s.len() as int) =~= s);
            assert(t.skip(s.len() + 1 as int) =~= Seq::<u8>::empty());
            assert(split_at(Seq::<u8>::empty(), sep) == seq![Seq::<u8>::empty()]);
            assert(split_at(t, sep) == seq![s] + seq![Seq::<u8>::empty()]);
            assert(split_at(t, sep) =~= split_at(s, sep).push(Seq::<u8>::empty()));
        } else {
            assert(seg_len(t, sep) == s.len() + 1);
            assert(split_at(t, sep) == seq![t]);
            assert(split_at(t, sep) =~= split_at(s, sep).update(0, s.push(b)));
        }
    } else {
        assert(seg_len(t, sep) == k);
        assert(t.take(k) =~= s.take(k));
        assert(t.skip(k + 1) =~= s.skip(k + 1).push(b));
        lemma_split_at_push(s.skip(k + 1), sep, b);
        lemma_split_at_len(s.skip(k + 1), sep);
        let rest = split_at(s.skip(k + 1), sep);
        if b == sep {
            assert(split_at(t, sep) =~= split_at(s, sep).push(Seq::<u8>::empty()));
        } else {
            assert(split_at(s, sep).last() == rest.last());
            assert(split_at(t, sep) =~= split_at(s, sep).update(
                split_at(s, sep).len() - 1,
                split_at(s, sep).last().push(b),
            ));
        }
    }
}

/// `s` with trailing ASCII whitespace removed.
pub open spec fn trim_end_of(s: Seq<u8>) -> Seq<u8>
    decreases s.len(),
{
    if s.len() == 0 {
        s
    } else if is_space(s.last()) {
        trim_end_of(s.drop_last())
    } else {
        s
    }
}

/// `s` with leading ASCII whitespace removed.
pub open spec fn trim_start_of(s: Seq<u8>) -> Seq<u8>
    decreases s.len(),
{
    if s.len() == 0 {
        s
    } else if is_space(s[0]) {
        trim_start_of(s.drop_first())
    } else {
        s
    }
}

/// `s` with whitespace removed from both ends.
pub open spec fn trim_of(s: Seq<u8>) -> Seq<u8> {
    trim_start_of(trim_end_of(s))
}

/// Length of the maximal non-whitespace prefix of `s`.
pub open spec fn word_len(s: Seq<u8>) -> nat
    decreases s.len(),
{
    if s.len() == 0 || is_space(s[0]) {
        0
    } else {
        1 + word_len(s.drop_first())
    }
}

/// The whitespace-delimited words of `s`, in order; never contains an empty word.
pub open spec fn words_of(s: Seq<u8>) -> Seq<Seq<u8>>
    decreases s.len(),
{
    if s.len() == 0 {
        Seq::<Seq<u8>>::empty()
    } else if is_space(s[0]) {
        words_of(s.drop_first())
    } else {
        let k = word_len(s) as int;
        if k >= s.len() {
            seq![s]
        } else {
            seq![s.take(k)] + words_of(s.skip(k))
        }
    }
}

proof fn lemma_word_len(s: Seq<u8>)
    ensures
        word_len(s) <= s.len(),
        forall|i: int| 0 <= i < word_len(s) ==> !is_space(s[i]),
        word_len(s) < s.len() ==> is_space(s[word_len(s) as int]),
    decreases s.len(),
{
    if s.len() == 0 || is_space(s[0]) {
    } else {
        lemma_word_len(s.drop_first());
        assert forall|i: int| 0 <= i < word_len(s) implies !is_space(s[i]) by {
            if i > 0 {
                assert(!is_space(s.drop_first()[i - 1]));
            }
        }
    }
}

/// `word_len` is pinned by any witness of a maximal non-space prefix.
proof fn lemma_word_len_eq(s: Seq<u8>, m: int)
    requires
        0 <= m <= s.len(),
        forall|i: int| 0 <= i < m ==> !is_space(s[i]),
        m == s.len() || is_space(s[m]),
    ensures
        word_len(s) == m,
    decreases m,
{
    if m == 0 {
    } else {
        assert(!is_space(s[0]));
        assert forall|i: int| 0 <= i < m - 1 implies !is_space(s.drop_first()[i]) by {
            assert(s.drop_first()[i] == s[i + 1]);
        }
        if m < s.len() {
            assert(is_space(s.drop_first()[m - 1]));
        }
        lemma_word_len_eq(s.drop_first(), m - 1);
    }
}

/// Whether `s` contains any ASCII whitespace byte.
pub open spec fn has_space(s: Seq<u8>) -> bool {
    exists|i: int| 0 <= i < s.len() && is_space(s[i])
}

/// Every word is non-empty, free of whitespace, and no longer than the text.
pub proof fn lemma_words_of_wf(s: Seq<u8>)
    ensures
        forall|k: int|
            0 <= k < words_of(s).len() ==> 1 <= words_of(s)[k].len() <= s.len() && !has_space(
                words_of(s)[k],
            ),
    decreases s.len(),
{
    lemma_word_len(s);
    if s.len() == 0 {
    } else if is_space(s[0]) {
        lemma_words_of_wf(s.drop_first());
        assert(words_of(s) == words_of(s.drop_first()));
        assert forall|kk: int|
            0 <= kk < words_of(s).len() implies 1 <= words_of(s)[kk].len() <= s.len()
            && !has_space(words_of(s)[kk]) by {
            assert(words_of(s)[kk] == words_of(s.drop_first())[kk]);
        }
    } else {
        let k = word_len(s) as int;
        if k >= s.len() {
            assert(words_of(s) == seq![s]);
            assert(!has_space(s));
        } else {
            lemma_words_of_wf(s.skip(k));
            let w = s.take(k);
            assert(!has_space(w)) by {
                assert(forall|i: int| 0 <= i < w.len() ==> w[i] == s[i]);
            }
            assert forall|kk: int|
                0 <= kk < words_of(s).len() implies 1 <= words_of(s)[kk].len() <= s.len()
                && !has_space(words_of(s)[kk]) by {
                if kk == 0 {
                    assert(words_of(s)[0] == w);
                } else {
                    assert(words_of(s)[kk] == words_of(s.skip(k))[kk - 1]);
                }
            }
        }
    }
}

/// There are never more words than bytes.
pub proof fn lemma_words_of_count(s: Seq<u8>)
    ensures
        words_of(s).len() <= s.len(),
    decreases s.len(),
{
    lemma_word_len(s);
    if s.len() == 0 {
    } else if is_space(s[0]) {
        lemma_words_of_count(s.drop_first());
    } else {
        let k = word_len(s) as int;
        if k < s.len() {
            lemma_words_of_count(s.skip(k));
        }
    }
}

/// Trimming never lengthens the text.
pub proof fn lemma_trim_len(s: Seq<u8>)
    ensures
        trim_of(s).len() <= s.len(),
{
    lemma_trim_end_len(s);
    lemma_trim_start_len(trim_end_of(s));
}

proof fn lemma_trim_end_len(s: Seq<u8>)
    ensures
        trim_end_of(s).len() <= s.len(),
    decreases s.len(),
{
    if s.len() > 0 && is_space(s.last()) {
        lemma_trim_end_len(s.drop_last());
    }
}

proof fn lemma_trim_start_len(s: Seq<u8>)
    ensures
        trim_start_of(s).len() <= s.len(),
    decreases s.len(),
{
    if s.len() > 0 && is_space(s[0]) {
        lemma_trim_start_len(s.drop_first());
    }
}

/// Total byte length of a sequence of segments.
pub open spec fn total_len(parts: Seq<Seq<u8>>) -> int
    decreases parts.len(),
{
    if parts.len() == 0 {
        0
    } else {
        parts[0].len() + total_len(parts.drop_first())
    }
}

pub proof fn lemma_total_len_nonneg(parts: Seq<Seq<u8>>)
    ensures
        0 <= total_len(parts),
    decreases parts.len(),
{
    if parts.len() > 0 {
        lemma_total_len_nonneg(parts.drop_first());
    }
}

/// No segment is longer than all segments together.
pub proof fn lemma_total_len_part(parts: Seq<Seq<u8>>, k: int)
    requires
        0 <= k < parts.len(),
    ensures
        parts[k].len() <= total_len(parts),
    decreases parts.len(),
{
    lemma_total_len_nonneg(parts.drop_first());
    if k > 0 {
        lemma_total_len_part(parts.drop_first(), k - 1);
        assert(parts.drop_first()[k - 1] == parts[k]);
    }
}

/// Splitting accounts for every byte: the segments hold all bytes except the
/// separators, and there is one more segment than separators.
pub proof fn lemma_split_at_total(s: Seq<u8>, sep: u8)
    ensures
        1 <= split_at(s, sep).len() <= s.len() + 1,
        total_len(split_at(s, sep)) == s.len() - (split_at(s, sep).len() - 1),
    decreases s.len(),
{
    lemma_seg_len(s, sep);
    let k = seg_len(s, sep) as int;
    if k >= s.len() {
        assert(split_at(s, sep) == seq![s]);
        assert(seq![s].drop_first() =~= Seq::<Seq<u8>>::empty());
        assert(total_len(split_at(s, sep)) == s.len() + total_len(Seq::<Seq<u8>>::empty()));
    } else {
        lemma_split_at_total(s.skip(k + 1), sep);
        let rest = split_at(s.skip(k + 1), sep);
        assert(split_at(s, sep).drop_first() =~= rest);
        assert(split_at(s, sep)[0] == s.take(k));
    }
}

/// Estimated width of one byte at the given font size: a quarter of the size.
pub open spec fn char_width(font_size: int) -> int {
    font_size / 4
}

/// Estimated rendered width of `s`: every byte contributes `char_width`.
pub open spec fn width_of(s: Seq<u8>, font_size: int) -> int {
    s.len() * char_width(font_size)
}

/// `p` is a prefix of `s`.
pub open spec fn has_prefix_of(s: Seq<u8>, p: Seq<u8>) -> bool {
    p.len() <= s.len() && s.take(p.len() as int) == p
}

/// The view of each vector in a sequence of byte vectors.
pub open spec fn vecs_view(s: Seq<Vec<u8>>) -> Seq<Seq<u8>> {
    s.map_values(|v: Vec<u8>| v@)
}

pub proof fn lemma_vecs_view_push(s: Seq<Vec<u8>>, v: Vec<u8>)
    ensures
        vecs_view(s.push(v)) == vecs_view(s).push(v@),
{
    assert(vecs_view(s.push(v)) =~= vecs_view(s).push(v@));
}

/// The byte content of the table start marker line.
pub open spec fn table_start_marker() -> Seq<u8> {
    seq![84u8, 65, 66, 76, 69, 95, 83, 84, 65, 82, 84]
}

/// The byte content of the table end marker line.
pub open spec fn table_end_marker() -> Seq<u8> {
    seq![84u8, 65, 66, 76, 69, 95, 69, 78, 68]
}

fn space_byte(b: u8) -> (r: bool)
    ensures
        r == is_space(b),
{
    b == 32 || (9 <= b && b <= 13)
}

/// Estimated rendered width of `text` at `font_size`, in layout units.
pub fn estimate_text_width(text: &Vec<u8>, font_size: i64) -> (r: i64)
    requires
        0 <= font_size,
        text@.len() * char_width(font_size as int) <= i64::MAX,
        text@.len() <= i64::MAX,
    ensures
        r == width_of(text@, font_size as int),
{
    let cw: i64 = font_size / 4;
    proof {
        if cw > 0 {
            assert((text@.len() as i64) * cw == text@.len() * char_width(font_size as int));
        }
    }
    (text.len() as i64) * cw
}

/// `s` split at every occurrence of `sep`.
pub fn split_bytes(s: &Vec<u8>, sep: u8) -> (r: Vec<Vec<u8>>)
    ensures
        vecs_view(r@) == split_at(s@, sep),
{
    let mut out: Vec<Vec<u8>> = Vec::new();
    let mut cur: Vec<u8> = Vec::new();
    let n: usize = s.len();
    let mut i: usize = 0;
    proof {
        assert(s@.take(0) =~= Seq::<u8>::empty());
        assert(vecs_view(out@).push(cur@) =~= split_at(s@.take(0), sep));
    }
    while i < n
        invariant
            i <= n,
            n == s@.len(),
            vecs_view(out@).push(cur@) == split_at(s@.take(i as int), sep),
        decreases n - i,
    {
        let b = s[i];
        proof {
            lemma_split_at_push(s@.take(i as int), sep, b);
            assert(s@.take(i + 1) =~= s@.take(i as int).push(s@[i as int]));
        }
        if b == sep {
            let ghost prev_out = out@;
            let ghost prev_cur = cur@;
            out.push(cur);
            cur = Vec::new();
            proof {
                lemma_vecs_view_push(prev_out, out@[out@.len() - 1]);
                assert(vecs_view(out@).push(cur@) =~= split_at(s@.take(i as int), sep).push(
                    Seq::<u8>::empty(),
                ));
            }
        } else {
            cur.push(b);
            proof {
                let prev = split_at(s@.take(i as int), sep);
                assert(vecs_view(out@).push(cur@) =~= prev.update(
                    prev.len() - 1,
                    prev.last().push(b),
                ));
            }
        }
        i = i + 1;
    }
    proof {
        assert(s@.take(n as int) =~= s@);
    }
    out.push(cur);
    proof {
        lemma_vecs_view_push(out@.drop_last(), out@[out@.len() - 1]);
        assert(out@.drop_last().push(out@[out@.len() - 1]) =~= out@);
        assert(vecs_view(out@) == split_at(s@, sep));
    }
    out
}

/// `s` with ASCII whitespace removed from both ends.
pub fn trim_bytes(s: &Vec<u8>) -> (r: Vec<u8>)
    ensures
        r@ == trim_of(s@),
{
    let n: usize = s.len();
    let mut hi: usize = n;
    proof {
        assert(s@.take(n as int) =~= s@);
    }
    while hi > 0 && space_byte(s[hi - 1])
        invariant
            hi <= n,
            n == s@.len(),
            trim_end_of(s@.take(hi as int)) == trim_end_of(s@),
        decreases hi,
    {
        proof {
            assert(s@.take(hi as int).last() == s@[hi - 1]);
            assert(s@.take(hi as int).drop_last() =~= s@.take(hi - 1));
        }
        hi = hi - 1;
    }
    proof {
        assert(trim_end_of(s@.take(hi as int)) == s@.take(hi as int));
    }
    let mut lo: usize = 0;
    proof {
        assert(s@.subrange(0, hi as int) =~= s@.take(hi as int));
    }
    while lo < hi && space_byte(s[lo])
        invariant
            lo <= hi <= n,
            n == s@.len(),
            trim_end_of(s@.take(hi as int)) == trim_end_of(s@),
            trim_start_of(s@.subrange(lo as int, hi as int)) == trim_start_of(s@.take(hi as int)),
        decreases hi - lo,
    {
        proof {
            assert(s@.subrange(lo as int, hi as int)[0] == s@[lo as int]);
            assert(s@.subrange(lo as int, hi as int).drop_first() =~= s@.subrange(
                lo + 1,
                hi as int,
            ));
        }
        lo = lo + 1;
    }
    proof {
        assert(trim_start_of(s@.subrange(lo as int, hi as int)) == s@.subrange(
            lo as int,
            hi as int,
        ));
    }
    let mut r: Vec<u8> = Vec::new();
    let mut i: usize = lo;
    while i < hi
        invariant
            lo <= i <= hi <= n,
            n == s@.len(),
            r@ == s@.subrange(lo as int, i as int),
        decreases hi - i,
    {
        r.push(s[i]);
        proof {
            assert(s@.subrange(lo as int, i + 1) =~= s@.subrange(lo as int, i as int).push(
                s@[i as int],
            ));
        }
        i = i + 1;
    }
    proof {
        assert(r@ == trim_of(s@));
    }
    r
}

/// The whitespace-delimited words of `s`, each copied out in order.
pub fn split_words(s: &Vec<u8>) -> (r: Vec<Vec<u8>>)
    ensures
        vecs_view(r@) == words_of(s@),
{
    let mut out: Vec<Vec<u8>> = Vec::new();
    let n: usize = s.len();
    let mut i: usize = 0;
    proof {
        assert(s@.skip(0) =~= s@);
        assert(vecs_view(out@) + words_of(s@) =~= words_of(s@));
    }
    while i < n
        invariant
            i <= n,
            n == s@.len(),
            words_of(s@) == vecs_view(out@) + words_of(s@.skip(i as int)),
        decreases n - i,
    {
        if space_byte(s[i]) {
            proof {
                assert(s@.skip(i as int)[0] == s@[i as int]);
                assert(s@.skip(i as int).drop_first() =~= s@.skip(i + 1));
            }
            i = i + 1;
        } else {
            let start: usize = i;
            let mut j: usize = i;
            while j < n && !space_byte(s[j])
                invariant
                    start <= j <= n,
                    n == s@.len(),
                    forall|t: int| start <= t < j ==> !is_space(s@[t]),
                decreases n - j,
            {
                j = j + 1;
            }
            let mut word: Vec<u8> = Vec::new();
            let mut t: usize = start;
            while t < j
                invariant
                    start <= t <= j <= n,
                    n == s@.len(),
                    word@ == s@.subrange(start as int, t as int),
                decreases j - t,
            {
                word.push(s[t]);
                proof {
                    assert(s@.subrange(start as int, t + 1) =~= s@.subrange(
                        start as int,
                        t as int,
                    ).push(s@[t as int]));
                }
                t = t + 1;
            }
            proof {
                let rest = s@.skip(start as int);
                assert forall|q: int| 0 <= q < j - start implies !is_space(rest[q]) by {
                    assert(rest[q] == s@[start + q]);
                }
                if j < n {
                    assert(is_space(rest[j - start]));
                }
                lemma_word_len_eq(rest, j - start);
                assert(rest.take(j - start) =~= s@.subrange(start as int, j as int));
                assert(rest.skip(j - start) =~= s@.skip(j as int));
                if j - start >= rest.len() {
                    assert(words_of(rest) == seq![rest]);
                    assert(rest =~= s@.subrange(start as int, j as int));
                } else {
                    assert(words_of(rest) == seq![rest.take(j - start)] + words_of(
                        rest.skip(j - start),
                    ));
                }
            }
            let ghost prev_out = out@;
            out.push(word);
            proof {
                lemma_vecs_view_push(prev_out, out@[out@.len() - 1]);
                assert(words_of(s@) =~= vecs_view(out@) + words_of(s@.skip(j as int)));
            }
            i = j;
        }
    }
    proof {
        assert(words_of(s@.skip(n as int)) =~= Seq::<Seq<u8>>::empty());
        assert(vecs_view(out@) =~= words_of(s@));
    }
    out
}

/// Whether `p` is a prefix of `s`.
pub fn starts_with_bytes(s: &Vec<u8>, p: &Vec<u8>) -> (r: bool)
    ensures
        r == has_prefix_of(s@, p@),
{
    if p.len() > s.len() {
        return false;
    }
    let m: usize = p.len();
    let mut i: usize = 0;
    while i < m
        invariant
            i <= m,
            m == p@.len() <= s@.len(),
            forall|t: int| 0 <= t < i ==> s@[t] == p@[t],
        decreases m - i,
    {
        if s[i] != p[i] {
            proof {
                assert(s@.take(m as int)[i as int] != p@[i as int]);
            }
            return false;
        }
        i = i + 1;
    }
    proof {
        assert(s@.take(m as int) =~= p@);
    }
    true
}

/// Whether two byte vectors hold the same bytes.
pub fn bytes_eq(a: &Vec<u8>, b: &Vec<u8>) -> (r: bool)
    ensures
        r == (a@ == b@),
{
    if a.len() != b.len() {
        return false;
    }
    let m: usize = a.len();
    let mut i: usize = 0;
    while i < m
        invariant
            i <= m,
            m == a@.len() == b@.len(),
            forall|t: int| 0 <= t < i ==> a@[t] == b@[t],
        decreases m - i,
    {
        if a[i] != b[i] {
            return false;
        }
        i = i + 1;
    }
    proof {
        assert(a@ =~= b@);
    }
    true
}

/// Append all of `src` to `dst`.
pub fn append_bytes(dst: &mut Vec<u8>, src: &Vec<u8>)
    ensures
        final(dst)@ == old(dst)@ + src@,
{
    let m: usize = src.len();
    let mut k: usize = 0;
    proof {
        assert(dst@ + src@.take(0) =~= dst@);
    }
    while k < m
        invariant
            k <= m,
            m == src@.len(),
            dst@ == old(dst)@ + src@.take(k as int),
        decreases m - k,
    {
        dst.push(src[k]);
        proof {
            assert(old(dst)@ + src@.take(k + 1) =~= (old(dst)@ + src@.take(k as int)).push(
                src@[k as int],
            ));
        }
        k = k + 1;
    }
    proof {
        assert(src@.take(m as int) =~= src@);
    }
}

/// A fresh copy of the given bytes.
pub fn clone_bytes(s: &Vec<u8>) -> (r: Vec<u8>)
    ensures
        r@ == s@,
{
    let n: usize = s.len();
    let mut r: Vec<u8> = Vec::new();
    let mut i: usize = 0;
    while i < n
        invariant
            i <= n,
            n == s@.len(),
            r@ == s@.take(i as int),
        decreases n - i,
    {
        r.push(s[i]);
        proof {
            assert(s@.take(i + 1) =~= s@.take(i as int).push(s@[i as int]));
        }
        i = i + 1;
    }
    proof {
        assert(s@.take(n as int) =~= s@);
    }
    r
}

/// The table start marker bytes.
pub fn table_start_bytes() -> (r: Vec<u8>)
    ensures
        r@ == table_start_marker(),
{
    let mut v: Vec<u8> = Vec::new();
    v.push(84);
    v.push(65);
    v.push(66);
    v.push(76);
    v.push(69);
    v.push(95);
    v.push(83);
    v.push(84);
    v.push(65);
    v.push(82);
    v.push(84);
    proof {
        assert(v@ =~= table_start_marker());
    }
    v
}

/// The table end marker bytes.
pub fn table_end_bytes() -> (r: Vec<u8>)
    ensures
        r@ == table_end_marker(),
{
    let mut v: Vec<u8> = Vec::new();
    v.push(84);
    v.push(65);
    v.push(66);
    v.push(76);
    v.push(69);
    v.push(95);
    v.push(69);
    v.push(78);
    v.push(68);
    proof {
        assert(v@ =~= table_end_marker());
    }
    v
}

} // verus!
