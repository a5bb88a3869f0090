//! Splitting a text into bounded chunks for embedding: fixed grapheme
//! windows, separator-aware recursive packing, and sentence packing.
use crate::graphemes::{grapheme_clusters, graphemes};
use crate::text::{chars_of, trim, trimmed, joined, lemma_split_rejoins, split_on, split_on_spec, str_views, utf8_byte_len, utf8_len};
use vstd::multiset::Multiset;
use vstd::prelude::*;

verus! {

broadcast use {vstd::seq_lib::group_seq_properties, vstd::seq_lib::group_seq_lib_default};

/// The views of a sequence of strings.
pub open spec fn string_views(v: Seq<String>) -> Seq<Seq<char>> {
    v.map_values(|x: String| x@)
}

/// The smaller of `a` and `b`.
pub open spec fn min_nat(a: nat, b: nat) -> nat {
    if a < b {
        a
    } else {
        b
    }
}

/// Windows of at most `size` graphemes of `gs`, the first starting at
/// `start` and each next one `step` graphemes after the previous; the last
/// window is the first one that reaches the end of `gs`.
pub open spec fn windows_from(gs: Seq<Seq<char>>, size: nat, step: nat, start: nat) -> Seq<Seq<char>>
    decreases gs.len() - start,
{
    if start >= gs.len() || step == 0 || step > size {
        seq![]
    } else {
        let end = min_nat(start + size, gs.len());
        let w = gs.subrange(start as int, end as int).flatten();
        if end >= gs.len() {
            seq![w]
        } else {
            seq![w] + windows_from(gs, size, step, start + step)
        }
    }
}

/// The fixed windows over the graphemes `gs`: `size` graphemes each, each
/// sharing its first `overlap` graphemes with the end of the previous one.
pub open spec fn window_chunks(gs: Seq<Seq<char>>, size: nat, overlap: nat) -> Seq<Seq<char>> {
    windows_from(gs, size, (size - overlap) as nat, 0)
}

/// What each window from `start` on adds to the text: the graphemes from
/// `from` (where the previous window ended) to the window's own end.
pub open spec fn spans_from(gs: Seq<Seq<char>>, size: nat, step: nat, start: nat, from: nat) -> Seq<
    Seq<char>,
>
    decreases gs.len() - start,
{
    if start >= gs.len() || step == 0 || step > size {
        seq![]
    } else {
        let end = min_nat(start + size, gs.len());
        let w = gs.subrange(from as int, end as int).flatten();
        if end >= gs.len() {
            seq![w]
        } else {
            seq![w] + spans_from(gs, size, step, start + step, end)
        }
    }
}

/// The unique span of each fixed window: the first window whole, each later
/// one without the `overlap` graphemes it repeats from its predecessor.
pub open spec fn unique_spans(gs: Seq<Seq<char>>, size: nat, overlap: nat) -> Seq<Seq<char>> {
    spans_from(gs, size, (size - overlap) as nat, 0, 0)
}

/// Whether `u` is a suffix of `w`.
pub open spec fn is_suffix(u: Seq<char>, w: Seq<char>) -> bool {
    u.len() <= w.len() && w.subrange(w.len() - u.len(), w.len() as int) == u
}

proof fn lemma_flatten_split(gs: Seq<Seq<char>>, a: int, b: int, c: int)
    requires
        0 <= a <= b <= c <= gs.len(),
    ensures
        gs.subrange(a, c).flatten() == gs.subrange(a, b).flatten() + gs.subrange(b, c).flatten(),
{
    vstd::seq_lib::lemma_flatten_concat(gs.subrange(a, b), gs.subrange(b, c));
    assert(gs.subrange(a, b) + gs.subrange(b, c) =~= gs.subrange(a, c));
}

proof fn lemma_spans_from(gs: Seq<Seq<char>>, size: nat, overlap: nat, start: nat, from: nat)
    requires
        overlap < size,
        start <= from <= gs.len(),
        from <= start + overlap,
        start >= gs.len() ==> from == gs.len(),
    ensures
        spans_from(gs, size, (size - overlap) as nat, start, from).flatten() == gs.subrange(
            from as int,
            gs.len() as int,
        ).flatten(),
        spans_from(gs, size, (size - overlap) as nat, start, from).len() == windows_from(
            gs,
            size,
            (size - overlap) as nat,
            start,
        ).len(),
        forall|k: int|
            0 <= k < windows_from(gs, size, (size - overlap) as nat, start).len() ==> is_suffix(
                #[trigger] spans_from(gs, size, (size - overlap) as nat, start, from)[k],
                windows_from(gs, size, (size - overlap) as nat, start)[k],
            ),
    decreases gs.len() - start,
{
    let step = (size - overlap) as nat;
    if start >= gs.len() {
        assert(gs.subrange(from as int, gs.len() as int) =~= Seq::<Seq<char>>::empty());
    } else {
        let end = min_nat(start + size, gs.len());
        let w = gs.subrange(start as int, end as int).flatten();
        let u = gs.subrange(from as int, end as int).flatten();
        lemma_flatten_split(gs, start as int, from as int, end as int);
        assert(is_suffix(u, w)) by {
            let p = gs.subrange(start as int, from as int).flatten();
            assert(w == p + u);
            assert(w.subrange(w.len() - u.len(), w.len() as int) =~= u);
        }
        if end >= gs.len() {
            let sp = spans_from(gs, size, step, start, from);
            assert(sp == seq![u]);
            assert(sp.flatten() == u + sp.drop_first().flatten());
            assert(sp.drop_first() =~= Seq::<Seq<char>>::empty());
            assert(u + Seq::<char>::empty() =~= u);
        } else {
            lemma_spans_from(gs, size, overlap, start + step, end);
            lemma_flatten_split(gs, from as int, end as int, gs.len() as int);
            let rest = spans_from(gs, size, step, start + step, end);
            let sp = spans_from(gs, size, step, start, from);
            let ws = windows_from(gs, size, step, start);
            assert(sp == seq![u] + rest);
            assert(sp.drop_first() =~= rest);
            assert(ws.drop_first() =~= windows_from(gs, size, step, start + step));
            assert forall|k: int| 0 <= k < ws.len() implies is_suffix(#[trigger] sp[k], ws[k]) by {
                if k > 0 {
                    assert(sp[k] == rest[k - 1]);
                    assert(ws[k] == windows_from(gs, size, step, start + step)[k - 1]);
                }
            }
        }
    }
}

/// Concatenating the unique spans of the fixed windows over `gs` gives the
/// graphemes of `gs` back, in order; there is one span per window, and each
/// span is the part of its window that the previous window did not hold.
pub proof fn lemma_unique_spans_rebuild(gs: Seq<Seq<char>>, size: nat, overlap: nat)
    requires
        overlap < size,
    ensures
        unique_spans(gs, size, overlap).flatten() == gs.flatten(),
        unique_spans(gs, size, overlap).len() == window_chunks(gs, size, overlap).len(),
        forall|k: int|
            0 <= k < window_chunks(gs, size, overlap).len() ==> is_suffix(
                #[trigger] unique_spans(gs, size, overlap)[k],
                window_chunks(gs, size, overlap)[k],
            ),
{
    lemma_spans_from(gs, size, overlap, 0, 0);
    assert(gs.subrange(0, gs.len() as int) =~= gs);
}

/// The greedy packing of the first `n` of `parts`, the pieces of a text cut
/// at `seps[0]`: the chunks emitted so far and the chunk still being filled.
/// A piece joins the current chunk (after a separator, unless the chunk is
/// empty) while the chunk's graphemes, the piece's graphemes and the
/// separator's UTF-8 bytes fit in `size`; otherwise the current chunk is
/// emitted, and a piece longer than `size` is split with the finer
/// separators `seps[1..]`, the other pieces start a new chunk.
pub open spec fn packed(
    parts: Seq<Seq<char>>,
    n: nat,
    seps: Seq<Seq<char>>,
    size: nat,
    overlap: nat,
) -> (Seq<Seq<char>>, Seq<char>)
    decreases seps.len(), 0nat, n,
{
    if seps.len() == 0 || n == 0 || n > parts.len() {
        (seq![], seq![])
    } else {
        let prev = packed(parts, (n - 1) as nat, seps, size, overlap);
        let chunks = prev.0;
        let cur = prev.1;
        let part = parts[n - 1];
        let sep = seps[0];
        let part_len = grapheme_clusters(part).len();
        if grapheme_clusters(cur).len() + part_len + utf8_len(sep) <= size {
            (
                chunks,
                if cur.len() > 0 {
                    cur + sep + part
                } else {
                    part
                },
            )
        } else {
            let flushed = if cur.len() > 0 {
                chunks.push(cur)
            } else {
                chunks
            };
            if part_len > size {
                (flushed + recursive_chunks(part, seps.drop_first(), size, overlap), seq![])
            } else {
                (flushed, part)
            }
        }
    }
}

/// The chunks of `text` under the separators `seps`, coarsest first: the
/// fixed windows when no separator is left, else the greedy packing of the
/// pieces between the occurrences of `seps[0]`, with its last chunk emitted
/// unless it is empty.
pub open spec fn recursive_chunks(text: Seq<char>, seps: Seq<Seq<char>>, size: nat, overlap: nat) -> Seq<
    Seq<char>,
>
    decreases seps.len(), 1nat, 0nat,
{
    if seps.len() == 0 {
        window_chunks(grapheme_clusters(text), size, overlap)
    } else {
        let parts = split_on_spec(text, seps[0]);
        let st = packed(parts, parts.len(), seps, size, overlap);
        if st.1.len() > 0 {
            st.0.push(st.1)
        } else {
            st.0
        }
    }
}

/// Whether some piece of `text` reaches the fixed-window fallback of the
/// recursive split with a length over `size`, so that it yields more than one
/// window.
pub open spec fn needs_windows(text: Seq<char>, seps: Seq<Seq<char>>, size: nat) -> bool
    decreases seps.len(), 1nat, 0nat,
{
    if seps.len() == 0 {
        grapheme_clusters(text).len() > size
    } else {
        let parts = split_on_spec(text, seps[0]);
        some_piece_needs_windows(parts, parts.len(), seps, size)
    }
}

/// Whether one of the first `n` pieces, longer than `size`, needs windows
/// under the finer separators `seps[1..]`.
pub open spec fn some_piece_needs_windows(
    parts: Seq<Seq<char>>,
    n: nat,
    seps: Seq<Seq<char>>,
    size: nat,
) -> bool
    decreases seps.len(), 0nat, n,
{
    if seps.len() == 0 || n == 0 || n > parts.len() {
        false
    } else {
        some_piece_needs_windows(parts, (n - 1) as nat, seps, size) || (grapheme_clusters(
            parts[n - 1],
        ).len() > size && needs_windows(parts[n - 1], seps.drop_first(), size))
    }
}

/// Whether `c` occurs in one of `seps`.
pub open spec fn separator_char(seps: Seq<Seq<char>>, c: char) -> bool {
    exists|i: int, j: int| 0 <= i < seps.len() && 0 <= j < seps[i].len() && #[trigger] seps[i][j] == c
}

/// Keeps the characters that occur in none of `seps`.
pub open spec fn outside_separators(seps: Seq<Seq<char>>) -> spec_fn(char) -> bool {
    |c: char| !separator_char(seps, c)
}

proof fn lemma_filter_none(s: Seq<char>, keep: spec_fn(char) -> bool)
    requires
        forall|j: int| 0 <= j < s.len() ==> !keep(#[trigger] s[j]),
    ensures
        s.filter(keep) == Seq::<char>::empty(),
    decreases s.len(),
{
    reveal(Seq::filter);
    if s.len() > 0 {
        lemma_filter_none(s.drop_last(), keep);
    }
}

proof fn lemma_joined_filter(parts: Seq<Seq<char>>, sep: Seq<char>, keep: spec_fn(char) -> bool)
    requires
        sep.filter(keep) == Seq::<char>::empty(),
    ensures
        joined(parts, sep).filter(keep) == parts.flatten().filter(keep),
    decreases parts.len(),
{
    if parts.len() == 1 {
        assert(parts.flatten() == parts[0] + parts.drop_first().flatten());
        assert(parts[0] + Seq::<char>::empty() =~= parts[0]);
    } else if parts.len() > 1 {
        lemma_joined_filter(parts.drop_first(), sep, keep);
        assert(joined(parts, sep) == parts[0] + sep + joined(parts.drop_first(), sep));
        assert(parts.flatten() == parts[0] + parts.drop_first().flatten());
        assert(parts[0].filter(keep) + Seq::<char>::empty() =~= parts[0].filter(keep));
    }
}

proof fn lemma_windows_no_overlap(gs: Seq<Seq<char>>, size: nat, start: nat)
    requires
        0 < size,
    ensures
        spans_from(gs, size, size, start, start) == windows_from(gs, size, size, start),
    decreases gs.len() - start,
{
    if start + size < gs.len() {
        lemma_windows_no_overlap(gs, size, start + size);
    }
}

/// The fixed windows over `gs` hold all of `gs` once when they do not
/// overlap, or when there is a single window.
proof fn lemma_windows_whole(gs: Seq<Seq<char>>, size: nat, overlap: nat)
    requires
        overlap < size,
        overlap == 0 || gs.len() <= size,
    ensures
        window_chunks(gs, size, overlap).flatten() == gs.flatten(),
{
    if overlap == 0 {
        lemma_windows_no_overlap(gs, size, 0);
        lemma_unique_spans_rebuild(gs, size, overlap);
    } else if gs.len() > 0 {
        let w = window_chunks(gs, size, overlap);
        assert(gs.subrange(0, gs.len() as int) =~= gs);
        assert(w == seq![gs.flatten()]);
        assert(w.flatten() == gs.flatten() + w.drop_first().flatten());
        assert(w.drop_first() =~= Seq::<Seq<char>>::empty());
    }
}

/// Every character of `text` from position `a` up to `b` occurs in one of
/// `seps`.
pub open spec fn gap_ok(text: Seq<char>, a: int, b: int, seps: Seq<Seq<char>>) -> bool {
    forall|p: int| a <= p < b ==> separator_char(seps, #[trigger] text[p])
}

/// Chunk `k` starts and ends no earlier than chunk `k - 1`, and what lies
/// between the end of chunk `k - 1` and the start of chunk `k` is made of
/// separator characters.
pub open spec fn follows(
    text: Seq<char>,
    starts: Seq<int>,
    ends: Seq<int>,
    seps: Seq<Seq<char>>,
    k: int,
) -> bool {
    starts[k - 1] <= starts[k] && ends[k - 1] <= ends[k] && gap_ok(text, ends[k - 1], starts[k], seps)
}

/// Chunk `k` is the piece of `text` from `starts[k]` to `ends[k]`.
pub open spec fn lies_at(text: Seq<char>, chunks: Seq<Seq<char>>, starts: Seq<int>, ends: Seq<int>, k: int) -> bool {
    0 <= starts[k] <= ends[k] <= text.len() && chunks[k] == text.subrange(starts[k], ends[k])
}

/// Where the last chunk ends, or 0 when there is none.
pub open spec fn last_end(ends: Seq<int>) -> int {
    if ends.len() == 0 {
        0
    } else {
        ends.last()
    }
}

/// The chunks lie in `text` at `starts`/`ends`, in order, with nothing but
/// separator characters before the first one and between two neighbours.
pub open spec fn placed_prefix(
    text: Seq<char>,
    chunks: Seq<Seq<char>>,
    starts: Seq<int>,
    ends: Seq<int>,
    seps: Seq<Seq<char>>,
) -> bool {
    &&& starts.len() == chunks.len()
    &&& ends.len() == chunks.len()
    &&& forall|k: int| 0 <= k < chunks.len() ==> #[trigger] lies_at(text, chunks, starts, ends, k)
    &&& forall|k: int| 0 < k < chunks.len() ==> #[trigger] follows(text, starts, ends, seps, k)
    &&& chunks.len() > 0 ==> gap_ok(text, 0, starts[0], seps)
}

/// The chunks lie in `text` at `starts`/`ends`, in order, and every
/// character of `text` outside all of them is a separator character.
pub open spec fn placed(
    text: Seq<char>,
    chunks: Seq<Seq<char>>,
    starts: Seq<int>,
    ends: Seq<int>,
    seps: Seq<Seq<char>>,
) -> bool {
    &&& placed_prefix(text, chunks, starts, ends, seps)
    &&& last_end(ends) <= text.len()
    &&& gap_ok(text, last_end(ends), text.len() as int, seps)
}

/// No two neighbouring chunks overlap.
pub open spec fn apart(starts: Seq<int>, ends: Seq<int>) -> bool {
    forall|k: int| 0 < k < starts.len() ==> ends[k - 1] <= #[trigger] starts[k]
}

/// `chunks` can be placed in `text` as `placed` says, and, when `disjoint`
/// holds, without overlaps.
pub open spec fn laid_out(text: Seq<char>, chunks: Seq<Seq<char>>, seps: Seq<Seq<char>>, disjoint: bool) -> bool {
    exists|starts: Seq<int>, ends: Seq<int>|
        #[trigger] placed(text, chunks, starts, ends, seps) && (disjoint ==> apart(starts, ends))
}

/// The characters of `text` outside the chunks at `starts`/`ends`, in order.
pub open spec fn consumed(text: Seq<char>, starts: Seq<int>, ends: Seq<int>) -> Seq<char>
    decreases starts.len(),
{
    if starts.len() == 0 || ends.len() != starts.len() {
        text
    } else {
        let k = starts.len() - 1;
        consumed(text.subrange(0, starts[k]), starts.drop_last(), ends.drop_last()) + text.subrange(
            ends[k],
            text.len() as int,
        )
    }
}

proof fn lemma_ends_before(text: Seq<char>, chunks: Seq<Seq<char>>, starts: Seq<int>, ends: Seq<int>, seps: Seq<Seq<char>>, j: int, k: int)
    requires
        placed_prefix(text, chunks, starts, ends, seps),
        apart(starts, ends),
        0 <= j < k < chunks.len(),
    ensures
        ends[j] <= starts[k],
    decreases k - j,
{
    if j + 1 < k {
        lemma_ends_before(text, chunks, starts, ends, seps, j + 1, k);
        assert(lies_at(text, chunks, starts, ends, j + 1));
    }
}

/// Chunks placed in `text` without overlaps hold, together with the
/// characters outside them, exactly the characters of `text`, and those
/// outside characters are all separator characters.
pub proof fn lemma_apart_chunks_partition(
    text: Seq<char>,
    chunks: Seq<Seq<char>>,
    starts: Seq<int>,
    ends: Seq<int>,
    seps: Seq<Seq<char>>,
)
    requires
        placed(text, chunks, starts, ends, seps),
        apart(starts, ends),
    ensures
        text.to_multiset() == chunks.flatten().to_multiset().add(consumed(text, starts, ends).to_multiset()),
        forall|p: int| 0 <= p < consumed(text, starts, ends).len() ==> separator_char(seps, #[trigger] consumed(text, starts, ends)[p]),
    decreases chunks.len(),
{
    let c = consumed(text, starts, ends);
    if chunks.len() == 0 {
        assert(chunks.flatten() =~= Seq::<char>::empty());
        assert(chunks.flatten().to_multiset() =~= Multiset::<char>::empty());
        assert(Multiset::<char>::empty().add(text.to_multiset()) =~= text.to_multiset());
    } else {
        let k = chunks.len() - 1;
        let t0 = text.subrange(0, starts[k]);
        let c0 = chunks.drop_last();
        let s0 = starts.drop_last();
        let e0 = ends.drop_last();
        assert(lies_at(text, chunks, starts, ends, k));
        assert forall|j: int| 0 <= j < c0.len() implies #[trigger] lies_at(t0, c0, s0, e0, j) by {
            assert(lies_at(text, chunks, starts, ends, j));
            lemma_ends_before(text, chunks, starts, ends, seps, j, k);
            assert(t0.subrange(s0[j], e0[j]) =~= text.subrange(starts[j], ends[j]));
        }
        assert forall|j: int| 0 < j < c0.len() implies #[trigger] follows(t0, s0, e0, seps, j) by {
            assert(follows(text, starts, ends, seps, j));
            lemma_ends_before(text, chunks, starts, ends, seps, j, k);
            assert(lies_at(text, chunks, starts, ends, j - 1));
            assert(lies_at(text, chunks, starts, ends, j));
            assert forall|p: int| e0[j - 1] <= p < s0[j] implies separator_char(seps, #[trigger] t0[p]) by {
                assert(t0[p] == text[p]);
            }
        }
        if c0.len() > 0 {
            lemma_ends_before(text, chunks, starts, ends, seps, 0, k);
            assert(lies_at(text, chunks, starts, ends, 0));
            assert forall|p: int| 0 <= p < s0[0] implies separator_char(seps, #[trigger] t0[p]) by {
                assert(t0[p] == text[p]);
            }
            assert(follows(text, starts, ends, seps, k));
            assert(lies_at(text, chunks, starts, ends, k - 1));
            assert forall|p: int| last_end(e0) <= p < t0.len() implies separator_char(seps, #[trigger] t0[p]) by {
                assert(t0[p] == text[p]);
            }
        } else {
            assert forall|p: int| 0 <= p < t0.len() implies separator_char(seps, #[trigger] t0[p]) by {
                assert(t0[p] == text[p]);
            }
        }
        assert forall|j: int| 0 < j < s0.len() implies e0[j - 1] <= #[trigger] s0[j] by {
            assert(ends[j - 1] <= starts[j]);
        }
        lemma_apart_chunks_partition(t0, c0, s0, e0, seps);
        let tail = text.subrange(ends[k], text.len() as int);
        let c0c = consumed(t0, s0, e0);
        assert(c == c0c + tail);
        assert(text =~= t0 + chunks[k] + tail);
        assert(chunks =~= c0.push(chunks[k]));
        c0.lemma_flatten_push(chunks[k]);
        vstd::seq_lib::lemma_multiset_commutative(t0 + chunks[k], tail);
        vstd::seq_lib::lemma_multiset_commutative(t0, chunks[k]);
        vstd::seq_lib::lemma_multiset_commutative(c0.flatten(), chunks[k]);
        vstd::seq_lib::lemma_multiset_commutative(c0c, tail);
        assert(text.to_multiset() =~= chunks.flatten().to_multiset().add(c.to_multiset()));
        assert forall|p: int| 0 <= p < c.len() implies separator_char(seps, #[trigger] c[p]) by {
            if p >= c0c.len() {
                assert(c[p] == text[ends[k] + p - c0c.len()]);
            }
        }
    }
}

/// `chunks` lie in `text` in order and without overlaps, and the characters
/// of `text` are those of the chunks plus characters outside them, all of
/// which are separator characters.
pub open spec fn partitions(text: Seq<char>, chunks: Seq<Seq<char>>, seps: Seq<Seq<char>>) -> bool {
    exists|starts: Seq<int>, ends: Seq<int>|
        #[trigger] placed(text, chunks, starts, ends, seps) && apart(starts, ends) && text.to_multiset()
            == chunks.flatten().to_multiset().add(consumed(text, starts, ends).to_multiset())
}

/// Appending chunks placed in a piece of `text` that starts at `pos`, with
/// only separator characters between the last chunk so far and `pos`.
proof fn lemma_append_placed(
    text: Seq<char>,
    chunks: Seq<Seq<char>>,
    starts: Seq<int>,
    ends: Seq<int>,
    piece: Seq<char>,
    sub: Seq<Seq<char>>,
    ss: Seq<int>,
    se: Seq<int>,
    pos: int,
    seps: Seq<Seq<char>>,
)
    requires
        placed_prefix(text, chunks, starts, ends, seps),
        last_end(ends) <= pos,
        gap_ok(text, last_end(ends), pos, seps),
        0 <= pos,
        pos + piece.len() <= text.len(),
        text.subrange(pos, pos + piece.len()) == piece,
        placed(piece, sub, ss, se, seps),
    ensures
        placed_prefix(
            text,
            chunks + sub,
            starts + ss.map_values(|x: int| x + pos),
            ends + se.map_values(|x: int| x + pos),
            seps,
        ),
        last_end(ends + se.map_values(|x: int| x + pos)) <= pos + piece.len(),
        gap_ok(text, last_end(ends + se.map_values(|x: int| x + pos)), pos + piece.len(), seps),
        apart(starts, ends) && apart(ss, se) && (chunks.len() > 0 && sub.len() > 0 ==> ends.last() <= ss[0] + pos)
            ==> apart(starts + ss.map_values(|x: int| x + pos), ends + se.map_values(|x: int| x + pos)),
{
    let n = chunks.len() as int;
    let st2 = starts + ss.map_values(|x: int| x + pos);
    let en2 = ends + se.map_values(|x: int| x + pos);
    let c2 = chunks + sub;
    assert forall|q: int| 0 <= q < piece.len() implies text[pos + q] == piece[q] by {
        assert(text.subrange(pos, pos + piece.len())[q] == text[pos + q]);
    }
    assert forall|k: int| 0 <= k < c2.len() implies #[trigger] lies_at(text, c2, st2, en2, k) by {
        if k < n {
            assert(lies_at(text, chunks, starts, ends, k));
        } else {
            let j = k - n;
            assert(lies_at(piece, sub, ss, se, j));
            assert(c2[k] == sub[j]);
            assert(text.subrange(ss[j] + pos, se[j] + pos) =~= piece.subrange(ss[j], se[j]));
        }
    }
    assert forall|k: int| 0 < k < c2.len() implies #[trigger] follows(text, st2, en2, seps, k) by {
        if k < n {
            assert(follows(text, starts, ends, seps, k));
        } else if k == n {
            assert(lies_at(piece, sub, ss, se, 0));
            assert(lies_at(text, chunks, starts, ends, n - 1));
            assert forall|p: int| en2[k - 1] <= p < st2[k] implies separator_char(seps, #[trigger] text[p]) by {
                if p >= pos {
                    assert(text[p] == piece[p - pos]);
                }
            }
        } else {
            let j = k - n;
            assert(follows(piece, ss, se, seps, j));
            assert(lies_at(piece, sub, ss, se, j - 1));
            assert(lies_at(piece, sub, ss, se, j));
            assert forall|p: int| en2[k - 1] <= p < st2[k] implies separator_char(seps, #[trigger] text[p]) by {
                assert(text[p] == piece[p - pos]);
            }
        }
    }
    if c2.len() > 0 {
        if n == 0 {
            assert(lies_at(piece, sub, ss, se, 0));
            assert forall|p: int| 0 <= p < st2[0] implies separator_char(seps, #[trigger] text[p]) by {
                if p >= pos {
                    assert(text[p] == piece[p - pos]);
                }
            }
        }
    }
    if sub.len() > 0 {
        assert(lies_at(piece, sub, ss, se, sub.len() - 1));
        assert(last_end(en2) == se.last() + pos);
        assert forall|p: int| last_end(en2) <= p < pos + piece.len() implies separator_char(seps, #[trigger] text[p]) by {
            assert(text[p] == piece[p - pos]);
        }
    } else {
        assert(en2 =~= ends);
        assert forall|p: int| last_end(en2) <= p < pos + piece.len() implies separator_char(seps, #[trigger] text[p]) by {
            if p >= pos {
                assert(text[p] == piece[p - pos]);
            }
        }
    }
    if apart(starts, ends) && apart(ss, se) && (n > 0 && sub.len() > 0 ==> ends.last() <= ss[0] + pos) {
        assert forall|k: int| 0 < k < st2.len() implies en2[k - 1] <= #[trigger] st2[k] by {
            if k > n {
                assert(se[k - n - 1] <= ss[k - n]);
            }
        }
    }
}

/// Where the first `a` clusters of `gs` end, in characters.
pub open spec fn cluster_offset(gs: Seq<Seq<char>>, a: int) -> int {
    gs.subrange(0, a).flatten().len() as int
}

proof fn lemma_cluster_offsets(gs: Seq<Seq<char>>, a: int, b: int)
    requires
        0 <= a <= b <= gs.len(),
    ensures
        cluster_offset(gs, a) <= cluster_offset(gs, b) <= gs.flatten().len(),
        gs.subrange(a, b).flatten() == gs.flatten().subrange(cluster_offset(gs, a), cluster_offset(gs, b)),
{
    lemma_flatten_split(gs, 0, a, b);
    lemma_flatten_split(gs, 0, b, gs.len() as int);
    assert(gs.subrange(0, gs.len() as int) =~= gs);
    let f = gs.flatten();
    assert(f.subrange(cluster_offset(gs, a), cluster_offset(gs, b)) =~= gs.subrange(a, b).flatten());
}

/// Where the fixed windows from `start` on begin, in characters.
pub open spec fn window_starts(gs: Seq<Seq<char>>, size: nat, step: nat, start: nat) -> Seq<int>
    decreases gs.len() - start,
{
    if start >= gs.len() || step == 0 || step > size {
        seq![]
    } else {
        let end = min_nat(start + size, gs.len());
        if end >= gs.len() {
            seq![cluster_offset(gs, start as int)]
        } else {
            seq![cluster_offset(gs, start as int)] + window_starts(gs, size, step, start + step)
        }
    }
}

/// Where the fixed windows from `start` on end, in characters.
pub open spec fn window_ends(gs: Seq<Seq<char>>, size: nat, step: nat, start: nat) -> Seq<int>
    decreases gs.len() - start,
{
    if start >= gs.len() || step == 0 || step > size {
        seq![]
    } else {
        let end = min_nat(start + size, gs.len());
        if end >= gs.len() {
            seq![cluster_offset(gs, end as int)]
        } else {
            seq![cluster_offset(gs, end as int)] + window_ends(gs, size, step, start + step)
        }
    }
}

proof fn lemma_windows_placed(gs: Seq<Seq<char>>, size: nat, step: nat, start: nat, seps: Seq<Seq<char>>)
    requires
        0 < step <= size,
        start <= gs.len(),
    ensures
        ({
            let w = windows_from(gs, size, step, start);
            let st = window_starts(gs, size, step, start);
            let en = window_ends(gs, size, step, start);
            &&& st.len() == w.len()
            &&& en.len() == w.len()
            &&& forall|k: int| 0 <= k < w.len() ==> #[trigger] lies_at(gs.flatten(), w, st, en, k)
            &&& forall|k: int| 0 < k < w.len() ==> #[trigger] follows(gs.flatten(), st, en, seps, k)
            &&& w.len() > 0 ==> st[0] == cluster_offset(gs, start as int) && en.last() == gs.flatten().len()
            &&& w.len() == 0 ==> start == gs.len()
            &&& step == size ==> apart(st, en)
            &&& gs.len() - start <= size ==> w.len() <= 1
        }),
    decreases gs.len() - start,
{
    let w = windows_from(gs, size, step, start);
    let st = window_starts(gs, size, step, start);
    let en = window_ends(gs, size, step, start);
    let f = gs.flatten();
    if start < gs.len() {
        let end = min_nat(start + size, gs.len());
        lemma_cluster_offsets(gs, start as int, end as int);
        lemma_cluster_offsets(gs, end as int, gs.len() as int);
        assert(gs.subrange(0, gs.len() as int) =~= gs);
        assert(lies_at(f, w, st, en, 0));
        if end < gs.len() {
            let nxt = start + step;
            lemma_windows_placed(gs, size, step, nxt, seps);
            let w1 = windows_from(gs, size, step, nxt);
            let st1 = window_starts(gs, size, step, nxt);
            let en1 = window_ends(gs, size, step, nxt);
            assert(w == seq![w[0]] + w1);
            assert forall|k: int| 0 <= k < w.len() implies #[trigger] lies_at(f, w, st, en, k) by {
                if k > 0 {
                    assert(lies_at(f, w1, st1, en1, k - 1));
                }
            }
            lemma_cluster_offsets(gs, start as int, nxt as int);
            lemma_cluster_offsets(gs, nxt as int, end as int);
            lemma_cluster_offsets(gs, end as int, min_nat(nxt + size, gs.len()) as int);
            assert forall|k: int| 0 < k < w.len() implies #[trigger] follows(f, st, en, seps, k) by {
                if k > 1 {
                    assert(follows(f, st1, en1, seps, k - 1));
                } else {
                    assert(st[1] == cluster_offset(gs, nxt as int));
                    assert(en[1] == en1[0]);
                    if w1.len() > 1 {
                        lemma_cluster_offsets(gs, min_nat(nxt + size, gs.len()) as int, gs.len() as int);
                    }
                }
            }
            if step == size {
                assert forall|k: int| 0 < k < st.len() implies en[k - 1] <= #[trigger] st[k] by {
                    if k > 1 {
                        assert(en1[k - 2] <= st1[k - 1]);
                    }
                }
            }
        }
    }
}

/// The separators of `TextSplitter::recursive_split`: paragraph break, line
/// break, ideographic full stop, full stop, space.
pub open spec fn default_separators() -> Seq<Seq<char>> {
    seq!["\n\n"@, "\n"@, "。"@, "."@, " "@]
}

/// Separators that the recursive split accepts: non-empty, and short enough
/// that their UTF-8 length is a `usize`.
pub open spec fn usable_separators(seps: Seq<Seq<char>>) -> bool {
    forall|i: int| 0 <= i < seps.len() ==> 0 < (#[trigger] seps[i]).len() && 4 * seps[i].len() <= usize::MAX
}

proof fn lemma_flatten_empty(gs: Seq<Seq<char>>)
    requires
        forall|i: int| 0 <= i < gs.len() ==> (#[trigger] gs[i]).len() > 0,
    ensures
        gs.flatten().len() == 0 <==> gs.len() == 0,
{
    if gs.len() > 0 {
        assert(gs.flatten() == gs[0] + gs.drop_first().flatten());
    }
}

/// The number of grapheme clusters of `s`.
fn grapheme_count(s: &str) -> (r: usize)
    ensures
        r == grapheme_clusters(s@).len(),
        r == 0 <==> s@.len() == 0,
{
    let gs = graphemes(s);
    proof {
        lemma_flatten_empty(str_views(gs@));
    }
    gs.len()
}


/// The characters that end a sentence: ideographic full stop, full stop,
/// exclamation mark, question mark.
pub open spec fn is_terminator(c: char) -> bool {
    c == '。' || c == '.' || c == '!' || c == '?'
}

/// The pieces of `s` from `start` on, cut at each terminator met scanning
/// from position `i`.
pub open spec fn terminator_scan(s: Seq<char>, start: int, i: int) -> Seq<Seq<char>>
    decreases s.len() - i,
{
    if i >= s.len() {
        seq![s.subrange(start, s.len() as int)]
    } else if is_terminator(s[i]) {
        seq![s.subrange(start, i)] + terminator_scan(s, i + 1, i + 1)
    } else {
        terminator_scan(s, start, i + 1)
    }
}

/// The pieces of `s` between its terminators.
pub open spec fn sentence_pieces(s: Seq<char>) -> Seq<Seq<char>> {
    terminator_scan(s, 0, 0)
}

/// The sentences of the first `n` pieces: each piece trimmed of white space,
/// those left empty dropped, each other ended with an ideographic full stop.
pub open spec fn sentences(pieces: Seq<Seq<char>>, n: nat) -> Seq<Seq<char>>
    decreases n,
{
    if n == 0 || n > pieces.len() {
        seq![]
    } else {
        let prev = sentences(pieces, (n - 1) as nat);
        let t = trimmed(pieces[n - 1]);
        if t.len() > 0 {
            prev.push(t + seq!['。'])
        } else {
            prev
        }
    }
}

/// The greedy packing of the first `n` sentences: a sentence joins the
/// current chunk while both fit in `size` graphemes together; otherwise the
/// current chunk, if not empty, is emitted and the sentence starts the next
/// one, however long it is.
pub open spec fn packed_sentences(sents: Seq<Seq<char>>, n: nat, size: nat) -> (Seq<Seq<char>>, Seq<char>)
    decreases n,
{
    if n == 0 || n > sents.len() {
        (seq![], seq![])
    } else {
        let prev = packed_sentences(sents, (n - 1) as nat, size);
        let s = sents[n - 1];
        if grapheme_clusters(prev.1).len() + grapheme_clusters(s).len() <= size {
            (prev.0, prev.1 + s)
        } else {
            (
                if prev.1.len() > 0 {
                    prev.0.push(prev.1)
                } else {
                    prev.0
                },
                s,
            )
        }
    }
}

/// The sentence chunks of `text` with at most `size` graphemes each, but
/// for chunks that hold a single longer sentence.
pub open spec fn sentence_chunks(text: Seq<char>, size: nat) -> Seq<Seq<char>> {
    let pieces = sentence_pieces(text);
    let sents = sentences(pieces, pieces.len());
    let st = packed_sentences(sents, sents.len(), size);
    if st.1.len() > 0 {
        st.0.push(st.1)
    } else {
        st.0
    }
}

/// The pieces of `s` between its terminators.
fn split_at_terminators<'a>(s: &'a str) -> (parts: Vec<&'a str>)
    ensures
        str_views(parts@) == sentence_pieces(s@),
{
    let cs = chars_of(s);
    let n = cs.len();
    let mut parts: Vec<&'a str> = Vec::new();
    let mut start: usize = 0;
    let mut i: usize = 0;
    while i < n
        invariant
            cs@ == s@,
            n == s@.len(),
            start <= i <= n,
            str_views(parts@) + terminator_scan(s@, start as int, i as int) == sentence_pieces(s@),
        decreases n - i,
    {
        let c = cs[i];
        if c == '。' || c == '.' || c == '!' || c == '?' {
            let piece = s.substring_char(start, i);
            proof {
                assert(str_views(parts@.push(piece)) =~= str_views(parts@).push(piece@));
                assert(str_views(parts@).push(piece@) + terminator_scan(s@, i + 1, i + 1)
                    =~= str_views(parts@) + terminator_scan(s@, start as int, i as int));
            }
            parts.push(piece);
            start = i + 1;
        }
        i = i + 1;
    }
    let last = s.substring_char(start, n);
    proof {
        assert(str_views(parts@.push(last)) =~= str_views(parts@).push(last@));
        assert(str_views(parts@).push(last@) =~= str_views(parts@) + terminator_scan(s@, start as int, i as int));
    }
    parts.push(last);
    parts
}

/// The fixed windows over the grapheme clusters `gs`: `size` clusters each,
/// each next one starting `size - overlap` clusters after the previous one,
/// the last one possibly shorter. Concatenating their unique spans gives the
/// concatenation of `gs` back.
pub fn windows_of(gs: &Vec<&str>, size: usize, overlap: usize) -> (r: Vec<String>)
    requires
        overlap < size,
    ensures
        string_views(r@) == window_chunks(str_views(gs@), size as nat, overlap as nat),
        unique_spans(str_views(gs@), size as nat, overlap as nat).flatten() == str_views(gs@).flatten(),
{
    let ghost g = str_views(gs@);
    let n = gs.len();
    let step = size - overlap;
    let ghost all = windows_from(g, size as nat, step as nat, 0);
    let mut chunks: Vec<String> = Vec::new();
    let mut start: usize = 0;
    while start < n
        invariant
            g == str_views(gs@),
            n == g.len(),
            step == size - overlap,
            0 < step <= size,
            start <= n,
            all == windows_from(g, size as nat, step as nat, 0),
            string_views(chunks@) + windows_from(g, size as nat, step as nat, start as nat)
                == all,
        decreases n - start,
    {
        let end: usize = if size < n - start {
            start + size
        } else {
            n
        };
        let mut chunk = String::new();
        let mut j: usize = start;
        while j < end
            invariant
                g == str_views(gs@),
                n == g.len(),
                start <= j <= end <= n,
                chunk@ == g.subrange(start as int, j as int).flatten(),
            decreases end - j,
        {
            proof {
                assert(g.subrange(start as int, j + 1) =~= g.subrange(start as int, j as int).push(
                    g[j as int],
                ));
                g.subrange(start as int, j as int).lemma_flatten_push(g[j as int]);
            }
            chunk.append(gs[j]);
            j = j + 1;
        }
        let ghost rest = windows_from(g, size as nat, step as nat, start as nat);
        proof {
            assert(string_views(chunks@.push(chunk)) =~= string_views(chunks@).push(chunk@));
        }
        chunks.push(chunk);
        if end >= n {
            proof {
                assert(rest == seq![chunk@]);
                assert(windows_from(g, size as nat, step as nat, n as nat) == Seq::<
                    Seq<char>,
                >::empty());
                assert(string_views(chunks@) + windows_from(g, size as nat, step as nat, n as nat)
                    =~= all);
            }
            start = n;
        } else {
            proof {
                assert(rest == seq![chunk@] + windows_from(
                    g,
                    size as nat,
                    step as nat,
                    (start + step) as nat,
                ));
                assert(string_views(chunks@) + windows_from(
                    g,
                    size as nat,
                    step as nat,
                    (start + step) as nat,
                ) =~= all);
            }
            start = start + step;
        }
    }
    proof {
        lemma_unique_spans_rebuild(g, size as nat, overlap as nat);
        assert(string_views(chunks@) =~= string_views(chunks@) + windows_from(
            g,
            size as nat,
            step as nat,
            start as nat,
        ));
    }
    chunks
}

/// The sentences of `text`: the pieces between `。`, `.`, `!` and `?`, each
/// trimmed of white space, the empty ones dropped, the others ended with `。`.
pub fn sentences_of(text: &str) -> (r: Vec<String>)
    ensures
        string_views(r@) == sentences(sentence_pieces(text@), sentence_pieces(text@).len()),
{
    let pieces = split_at_terminators(text);
    let ghost pv = str_views(pieces@);
    let mut sents: Vec<String> = Vec::new();
    let mut i: usize = 0;
    while i < pieces.len()
        invariant
            pv == str_views(pieces@),
            pv == sentence_pieces(text@),
            i <= pieces@.len(),
            string_views(sents@) == sentences(pv, i as nat),
        decreases pieces@.len() - i,
    {
        let t = trim(pieces[i]);
        assert(pv[i as int] == pieces@[i as int]@);
        if t.unicode_len() > 0 {
            let mut sentence = String::from_str(t);
            let stop = "。";
            proof {
                reveal_strlit("。");
            }
            sentence.append(stop);
            proof {
                assert(sentence@ =~= trimmed(pv[i as int]) + seq!['。']);
                assert(string_views(sents@.push(sentence)) =~= string_views(sents@).push(sentence@));
            }
            sents.push(sentence);
        }
        i = i + 1;
    }
    assert(pv.len() == pieces@.len());
    sents
}

/// A configuration error: the overlap is not smaller than the chunk size.
#[derive(Debug, Clone, Copy, PartialEq, Eq)]
pub struct OverlapTooLarge {
    pub chunk_size: usize,
    pub chunk_overlap: usize,
}

/// Splits texts into chunks of a bounded number of graphemes.
pub struct TextSplitter {
    chunk_size: usize,
    chunk_overlap: usize,
}

impl TextSplitter {
    /// The largest number of graphemes in a chunk.
    pub closed spec fn size(&self) -> nat {
        self.chunk_size as nat
    }

    /// How many graphemes a fixed window repeats from the previous one.
    pub closed spec fn overlap(&self) -> nat {
        self.chunk_overlap as nat
    }

    /// The overlap is smaller than the chunk size.
    pub open spec fn wf(&self) -> bool {
        self.overlap() < self.size()
    }

    /// A splitter with the given chunk size and overlap; the overlap must be
    /// smaller than the chunk size.
    pub fn new(chunk_size: usize, chunk_overlap: usize) -> (r: Self)
        requires
            chunk_overlap < chunk_size,
        ensures
            r.wf(),
            r.size() == chunk_size,
            r.overlap() == chunk_overlap,
    {
        TextSplitter { chunk_size, chunk_overlap }
    }

    /// A splitter with the given chunk size and overlap, or the configuration
    /// error when the overlap is not smaller than the chunk size: a
    /// configuration with `chunk_overlap >= chunk_size` never yields a
    /// splitter, every other one does.
    pub fn try_new(chunk_size: usize, chunk_overlap: usize) -> (r: Result<Self, OverlapTooLarge>)
        ensures
            chunk_overlap < chunk_size <==> r is Ok,
            r matches Ok(s) ==> s.wf() && s.size() == chunk_size && s.overlap() == chunk_overlap,
            r matches Err(e) ==> e.chunk_size == chunk_size && e.chunk_overlap == chunk_overlap,
    {
        if chunk_overlap < chunk_size {
            Ok(TextSplitter::new(chunk_size, chunk_overlap))
        } else {
            Err(OverlapTooLarge { chunk_size, chunk_overlap })
        }
    }

    /// Fixed windows of `size()` graphemes over `text`, each starting
    /// `size() - overlap()` graphemes after the previous one; the last window
    /// may be shorter. Concatenating their unique spans gives `text` back.
    pub fn split_text(&self, text: &str) -> (r: Vec<String>)
        requires
            self.wf(),
        ensures
            string_views(r@) == window_chunks(grapheme_clusters(text@), self.size(), self.overlap()),
            grapheme_clusters(text@).flatten() == text@,
            unique_spans(grapheme_clusters(text@), self.size(), self.overlap()).flatten() == text@,
    {
        let gs = graphemes(text);
        windows_of(&gs, self.chunk_size, self.chunk_overlap)
    }

    /// The chunks of `text` under the separators from `level` on.
    #[verifier::rlimit(100)]
    #[verifier::spinoff_prover]
    fn split_level(&self, text: &str, separators: &[&str], level: usize) -> (r: Vec<String>)
        requires
            self.wf(),
            level <= separators@.len(),
            usable_separators(str_views(separators@)),
        ensures
            string_views(r@) == recursive_chunks(
                text@,
                str_views(separators@).subrange(level as int, separators@.len() as int),
                self.size(),
                self.overlap(),
            ),
            !(self.overlap() > 0 && needs_windows(
                text@,
                str_views(separators@).subrange(level as int, separators@.len() as int),
                self.size(),
            )) ==> string_views(r@).flatten().filter(outside_separators(str_views(separators@)))
                == text@.filter(outside_separators(str_views(separators@))),
            laid_out(
                text@,
                string_views(r@),
                str_views(separators@),
                !(self.overlap() > 0 && needs_windows(
                    text@,
                    str_views(separators@).subrange(level as int, separators@.len() as int),
                    self.size(),
                )),
            ),
        decreases separators@.len() - level,
    {
        let ghost seps = str_views(separators@).subrange(level as int, separators@.len() as int);
        let ghost all = str_views(separators@);
        let ghost keep = outside_separators(all);
        if level >= separators.len() {
            let r = self.split_text(text);
            proof {
                let gs = grapheme_clusters(text@);
                let disjoint = !(self.overlap() > 0 && needs_windows(text@, seps, self.size()));
                if disjoint {
                    lemma_windows_whole(gs, self.size(), self.overlap());
                }
                let step = (self.size() - self.overlap()) as nat;
                lemma_windows_placed(gs, self.size(), step, 0, all);
                let st = window_starts(gs, self.size(), step, 0);
                let en = window_ends(gs, self.size(), step, 0);
                assert(gs.subrange(0, 0) =~= Seq::<Seq<char>>::empty());
                if string_views(r@).len() == 0 {
                    assert(gs =~= Seq::<Seq<char>>::empty());
                    assert(text@.len() == 0);
                }
                assert(placed(text@, string_views(r@), st, en, all));
                assert(disjoint ==> apart(st, en));
            }
            return r;
        }
        let nseps = separators.len();
        let sep = separators[level];
        assert(str_views(separators@)[level as int] == sep@);
        let sep_len = utf8_byte_len(sep);
        let parts = split_on(text, sep);
        let ghost pv = str_views(parts@);
        let ghost n = pv.len() as int;
        let size = self.chunk_size;
        let mut chunks: Vec<String> = Vec::new();
        let mut current = String::new();
        let mut i: usize = 0;
        let ghost mut ok = true;
        let ghost mut starts: Seq<int> = Seq::empty();
        let ghost mut ends: Seq<int> = Seq::empty();
        let ghost mut pos: int = 0;
        let ghost mut prev_end: int = 0;
        let ghost mut cur_start: int = 0;
        assert(seps[0] == sep@);
        proof {
            assert forall|j: int| 0 <= j < sep@.len() implies separator_char(all, #[trigger] sep@[j]) by {
                assert(all[level as int][j] == sep@[j]);
            }
            lemma_filter_none(sep@, keep);
            assert(pv.subrange(0, 0) =~= Seq::<Seq<char>>::empty());
            lemma_split_rejoins(text@, sep@);
            crate::text::lemma_split_nonempty(text@, sep@);
            assert(pv.subrange(0, n) =~= pv);
            assert(text@.subrange(0, text@.len() as int) =~= text@);
        }
        while i < parts.len()
            invariant
                self.wf(),
                size == self.size(),
                level < separators@.len(),
                nseps == separators@.len(),
                usable_separators(str_views(separators@)),
                seps == str_views(separators@).subrange(level as int, separators@.len() as int),
                all == str_views(separators@),
                keep == outside_separators(all),
                seps.len() > 0,
                seps[0] == sep@,
                sep@.filter(keep) == Seq::<char>::empty(),
                forall|j: int| 0 <= j < sep@.len() ==> separator_char(all, #[trigger] sep@[j]),
                sep_len == utf8_len(sep@),
                pv == str_views(parts@),
                pv == split_on_spec(text@, sep@),
                n == pv.len(),
                n >= 1,
                i <= parts@.len(),
                (string_views(chunks@), current@) == packed(pv, i as nat, seps, size as nat, self.overlap()),
                ok == !(self.overlap() > 0 && some_piece_needs_windows(pv, i as nat, seps, size as nat)),
                ok ==> (string_views(chunks@).flatten() + current@).filter(keep) == pv.subrange(
                    0,
                    i as int,
                ).flatten().filter(keep),
                placed_prefix(text@, string_views(chunks@), starts, ends, all),
                ok ==> apart(starts, ends),
                i == 0 ==> pos == 0 && prev_end == 0,
                i < n ==> 0 <= pos <= text@.len() && text@.subrange(pos, text@.len() as int) == joined(
                    pv.subrange(i as int, n),
                    sep@,
                ),
                0 < i < n ==> pos == prev_end + sep@.len() && text@.subrange(prev_end, pos) == sep@,
                i == n ==> prev_end == text@.len(),
                0 <= prev_end <= text@.len(),
                current@.len() > 0 ==> i > 0 && last_end(ends) <= cur_start && gap_ok(
                    text@,
                    last_end(ends),
                    cur_start,
                    all,
                ) && 0 <= cur_start <= prev_end && current@ == text@.subrange(cur_start, prev_end),
                current@.len() == 0 ==> last_end(ends) <= prev_end && gap_ok(text@, last_end(ends), prev_end, all),
            decreases parts@.len() - i,
        {
            let part = parts[i];
            let part_len = grapheme_count(part);
            let current_len = grapheme_count(current.as_str());
            let ghost prev_chunks = string_views(chunks@);
            let ghost prev_cur = current@;
            let ghost prev_ok = ok;
            assert(pv[i as int] == part@);
            proof {
                assert(pv.subrange(0, i + 1) =~= pv.subrange(0, i as int).push(part@));
                pv.subrange(0, i as int).lemma_flatten_push(part@);
                // where the part lies, and what follows it
                let rest = pv.subrange(i as int, n);
                let tail = text@.subrange(pos, text@.len() as int);
                if i + 1 < n {
                    assert(rest.drop_first() =~= pv.subrange(i + 1, n));
                    assert(joined(rest, sep@) == part@ + sep@ + joined(pv.subrange(i + 1, n), sep@));
                    assert(text@.subrange(pos, pos + part@.len()) =~= tail.subrange(0, part@.len() as int));
                    assert(text@.subrange(pos + part@.len(), pos + part@.len() + sep@.len())
                        =~= tail.subrange(part@.len() as int, (part@.len() + sep@.len()) as int));
                    assert(text@.subrange(pos + part@.len() + sep@.len(), text@.len() as int)
                        =~= tail.subrange((part@.len() + sep@.len()) as int, tail.len() as int));
                } else {
                    assert(joined(rest, sep@) == part@);
                    assert(text@.subrange(pos, pos + part@.len()) =~= tail);
                }
                // the separator before the part
                if i > 0 {
                    assert forall|q: int| prev_end <= q < pos implies separator_char(all, #[trigger] text@[q]) by {
                        assert(text@.subrange(prev_end, pos)[q - prev_end] == text@[q]);
                    }
                }
            }
            let ghost part_end = pos + part@.len();
            assert(text@.subrange(pos, part_end) == part@);
            if part_len <= size && current_len <= size - part_len && sep_len <= size - part_len
                - current_len {
                if current_len > 0 {
                    current.append(sep);
                }
                current.append(part);
                proof {
                    if prev_cur.len() > 0 {
                        assert(current@ == prev_cur + sep@ + part@);
                        assert(current@ =~= text@.subrange(cur_start, part_end));
                    } else {
                        assert(current@ =~= part@);
                        cur_start = pos;
                    }
                    assert(prev_chunks.flatten() + current@ =~= prev_chunks.flatten() + prev_cur
                        + (current@.subrange(prev_cur.len() as int, current@.len() as int)));
                    if prev_cur.len() > 0 {
                        assert(current@.subrange(prev_cur.len() as int, current@.len() as int) =~= sep@
                            + part@);
                    } else {
                        assert(current@.subrange(prev_cur.len() as int, current@.len() as int) =~= part@);
                    }
                }
            } else {
                if current_len > 0 {
                    proof {
                        assert(string_views(chunks@.push(current)) =~= prev_chunks.push(prev_cur));
                        prev_chunks.lemma_flatten_push(prev_cur);
                        let one = seq![prev_cur];
                        let s1: Seq<int> = seq![0];
                        let e1: Seq<int> = seq![prev_cur.len() as int];
                        assert(lies_at(prev_cur, one, s1, e1, 0)) by {
                            assert(prev_cur.subrange(0, prev_cur.len() as int) =~= prev_cur);
                        }
                        assert(placed(prev_cur, one, s1, e1, all));
                        lemma_append_placed(text@, prev_chunks, starts, ends, prev_cur, one, s1, e1, cur_start, all);
                        assert(prev_chunks + one =~= prev_chunks.push(prev_cur));
                        starts = starts + s1.map_values(|x: int| x + cur_start);
                        ends = ends + e1.map_values(|x: int| x + cur_start);
                    }
                    chunks.push(current);
                    current = String::new();
                }
                let ghost mid_chunks = string_views(chunks@);
                assert(mid_chunks.flatten() =~= prev_chunks.flatten() + prev_cur);
                if part_len > size {
                    let mut sub = self.split_level(part, separators, level + 1);
                    let ghost subv = string_views(sub@);
                    proof {
                        assert(seps.drop_first() =~= str_views(separators@).subrange(
                            level + 1,
                            separators@.len() as int,
                        ));
                        assert(string_views(chunks@ + sub@) =~= string_views(chunks@) + string_views(sub@));
                        vstd::seq_lib::lemma_flatten_concat(mid_chunks, string_views(sub@));
                        let sub_ok = !(self.overlap() > 0 && needs_windows(part@, seps.drop_first(), size as nat));
                        ok = prev_ok && sub_ok;
                        let (ss, se) = choose|ss: Seq<int>, se: Seq<int>|
                            #[trigger] placed(part@, subv, ss, se, all) && (sub_ok ==> apart(ss, se));
                        assert forall|q: int| last_end(ends) <= q < pos implies separator_char(all, #[trigger] text@[q]) by {
                            if q >= prev_end {
                                assert(i > 0);
                            }
                        }
                        lemma_append_placed(text@, mid_chunks, starts, ends, part@, subv, ss, se, pos, all);
                        if mid_chunks.len() > 0 && subv.len() > 0 {
                            assert(lies_at(part@, subv, ss, se, 0));
                        }
                        starts = starts + ss.map_values(|x: int| x + pos);
                        ends = ends + se.map_values(|x: int| x + pos);
                    }
                    chunks.append(&mut sub);
                    current = String::new();
                    proof {
                        assert(string_views(chunks@) =~= mid_chunks + subv);
                        assert(string_views(chunks@).flatten() + current@ =~= mid_chunks.flatten()
                            + subv.flatten());
                    }
                } else {
                    current = String::from_str(part);
                    proof {
                        assert forall|q: int| last_end(ends) <= q < pos implies separator_char(all, #[trigger] text@[q]) by {
                            if q >= prev_end {
                                assert(i > 0);
                            }
                        }
                        cur_start = pos;
                        if part@.len() == 0 {
                            assert forall|q: int| last_end(ends) <= q < part_end implies separator_char(all, #[trigger] text@[q]) by {
                            }
                        }
                    }
                }
            }
            proof {
                prev_end = part_end;
                if i + 1 < n {
                    pos = part_end + sep@.len();
                }
            }
            i = i + 1;
        }
        assert(pv.len() == parts@.len());
        assert(pv.subrange(0, pv.len() as int) =~= pv);
        proof {
            lemma_joined_filter(pv, sep@, keep);
        }
        if grapheme_count(current.as_str()) > 0 {
            proof {
                assert(string_views(chunks@.push(current)) =~= string_views(chunks@).push(current@));
                string_views(chunks@).lemma_flatten_push(current@);
                let cv = string_views(chunks@);
                let one = seq![current@];
                let s1: Seq<int> = seq![0];
                let e1: Seq<int> = seq![current@.len() as int];
                assert(lies_at(current@, one, s1, e1, 0)) by {
                    assert(current@.subrange(0, current@.len() as int) =~= current@);
                }
                assert(placed(current@, one, s1, e1, all));
                lemma_append_placed(text@, cv, starts, ends, current@, one, s1, e1, cur_start, all);
                assert(cv + one =~= cv.push(current@));
                starts = starts + s1.map_values(|x: int| x + cur_start);
                ends = ends + e1.map_values(|x: int| x + cur_start);
            }
            chunks.push(current);
        } else {
            assert(string_views(chunks@).flatten() + current@ =~= string_views(chunks@).flatten());
        }
        proof {
            assert(placed(text@, string_views(chunks@), starts, ends, all));
        }
        chunks
    }

    /// The chunks of `text` under `separators`, coarsest first: pieces between
    /// separators are packed greedily into chunks that fit the chunk size,
    /// pieces that do not fit alone are split with the finer separators, and
    /// fixed windows are the last resort.
    fn recursive_split_with_separators(&self, text: &str, separators: &[&str]) -> (r: Vec<String>)
        requires
            self.wf(),
            usable_separators(str_views(separators@)),
        ensures
            string_views(r@) == recursive_chunks(text@, str_views(separators@), self.size(), self.overlap()),
            !(self.overlap() > 0 && needs_windows(text@, str_views(separators@), self.size()))
                ==> string_views(r@).flatten().filter(outside_separators(str_views(separators@)))
                == text@.filter(outside_separators(str_views(separators@))),
            laid_out(
                text@,
                string_views(r@),
                str_views(separators@),
                !(self.overlap() > 0 && needs_windows(text@, str_views(separators@), self.size())),
            ),
    {
        assert(str_views(separators@).subrange(0, separators@.len() as int) =~= str_views(separators@));
        self.split_level(text, separators, 0)
    }

    /// The chunks of `text` under paragraph breaks, line breaks, ideographic
    /// full stops, full stops and spaces, in that order.
    ///
    /// No character is lost. Each chunk is a contiguous piece of `text`, the
    /// chunks come in the order of the text, and every character of `text`
    /// outside all chunks is a separator character that served as a cut
    /// point; this holds also where overlapping windows were cut. Where none
    /// were, the chunks do not overlap either, so each character of `text` is
    /// in exactly one chunk or is such a separator; in particular, leaving
    /// out the separator characters, the chunks hold the characters of `text`
    /// in order, each once (so the same multiset).
    pub fn recursive_split(&self, text: &str) -> (r: Vec<String>)
        requires
            self.wf(),
        ensures
            string_views(r@) == recursive_chunks(text@, default_separators(), self.size(), self.overlap()),
            !(self.overlap() > 0 && needs_windows(text@, default_separators(), self.size()))
                ==> string_views(r@).flatten().filter(outside_separators(default_separators()))
                == text@.filter(outside_separators(default_separators())),
            !(self.overlap() > 0 && needs_windows(text@, default_separators(), self.size()))
                ==> string_views(r@).flatten().filter(outside_separators(default_separators())).to_multiset()
                == text@.filter(outside_separators(default_separators())).to_multiset(),
            laid_out(
                text@,
                string_views(r@),
                default_separators(),
                !(self.overlap() > 0 && needs_windows(text@, default_separators(), self.size())),
            ),
            !(self.overlap() > 0 && needs_windows(text@, default_separators(), self.size()))
                ==> partitions(text@, string_views(r@), default_separators()),
    {
        let separators: Vec<&str> = vec!["\n\n", "\n", "。", ".", " "];
        proof {
            reveal_strlit("\n\n");
            reveal_strlit("\n");
            reveal_strlit("。");
            reveal_strlit(".");
            reveal_strlit(" ");
            assert(str_views(separators@) =~= default_separators());
        }
        let r = self.recursive_split_with_separators(text, separators.as_slice());
        proof {
            let disjoint = !(self.overlap() > 0 && needs_windows(text@, default_separators(), self.size()));
            if disjoint {
                let (st, en) = choose|st: Seq<int>, en: Seq<int>|
                    #[trigger] placed(text@, string_views(r@), st, en, default_separators()) && (disjoint
                        ==> apart(st, en));
                lemma_apart_chunks_partition(text@, string_views(r@), st, en, default_separators());
                assert(placed(text@, string_views(r@), st, en, default_separators()));
            }
        }
        r
    }
    /// Sentence chunks of `text`: the text is cut at `。`, `.`, `!` and `?`,
    /// each piece trimmed, empty ones dropped, the others ended with `。` and
    /// packed greedily into chunks of at most `size()` graphemes; a sentence
    /// longer than that forms a chunk of its own.
    pub fn split_by_sentences(&self, text: &str) -> (r: Vec<String>)
        ensures
            string_views(r@) == sentence_chunks(text@, self.size()),
    {
        let sents = sentences_of(text);
        let ghost pv = sentence_pieces(text@);
        let ghost sv = string_views(sents@);
        assert(sv == sentences(pv, pv.len()));
        let size = self.chunk_size;
        let mut chunks: Vec<String> = Vec::new();
        let mut current = String::new();
        let mut k: usize = 0;
        while k < sents.len()
            invariant
                sv == string_views(sents@),
                size == self.size(),
                k <= sents@.len(),
                (string_views(chunks@), current@) == packed_sentences(sv, k as nat, size as nat),
            decreases sents@.len() - k,
        {
            let sentence_len = grapheme_count(sents[k].as_str());
            let current_len = grapheme_count(current.as_str());
            assert(sv[k as int] == sents@[k as int]@);
            if sentence_len <= size && current_len <= size - sentence_len {
                current.append(sents[k].as_str());
            } else {
                if current_len > 0 {
                    proof {
                        assert(string_views(chunks@.push(current)) =~= string_views(chunks@).push(current@));
                    }
                    chunks.push(current);
                }
                current = sents[k].clone();
            }
            k = k + 1;
        }
        if grapheme_count(current.as_str()) > 0 {
            proof {
                assert(string_views(chunks@.push(current)) =~= string_views(chunks@).push(current@));
            }
            chunks.push(current);
        }
        chunks
    }
}

} // verus!
