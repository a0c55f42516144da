//! A piece-table text buffer.
//!
//! The document is the concatenation of *pieces*, each of which points into
//! one of two character buffers: the immutable `original` buffer set at
//! construction, and the append-only `add` buffer that collects every
//! inserted character.  A sorted `line_starts` index records where each line
//! begins and is maintained incrementally by `insert` and `delete`.
//!
//! The mathematical model of a buffer is a `Seq<char>` (its `content`); the
//! model of the line index is characterised by [`line_starts_wf`]: the index
//! holds exactly `0` and every position one past a `'\n'`, in strictly
//! increasing order.

use vstd::prelude::*;
use vstd::string::StrSliceExecFns;

verus! {

/// Which of the two character buffers a piece points into.
#[derive(Debug, Clone, Copy, PartialEq, Eq, Structural)]
pub enum PieceTableBuffers {
    Original,
    Add,
}

/// One piece: `length` characters starting at `start_index` of the named
/// buffer.
#[derive(Debug, Clone, Copy, PartialEq, Eq, Structural)]
pub struct PieceTableEntry {
    pub buffer: PieceTableBuffers,
    pub start_index: usize,
    pub length: usize,
}

/// The characters a piece stands for, given the two buffers.
pub open spec fn entry_seq(og: Seq<char>, ad: Seq<char>, e: PieceTableEntry) -> Seq<char> {
    match e.buffer {
        PieceTableBuffers::Original => og.subrange(e.start_index as int, e.start_index + e.length),
        PieceTableBuffers::Add => ad.subrange(e.start_index as int, e.start_index + e.length),
    }
}

/// A piece is well formed when it is non-empty and lies inside its buffer.
pub open spec fn entry_wf(og: Seq<char>, ad: Seq<char>, e: PieceTableEntry) -> bool {
    &&& e.length > 0
    &&& match e.buffer {
        PieceTableBuffers::Original => e.start_index + e.length <= og.len(),
        PieceTableBuffers::Add => e.start_index + e.length <= ad.len(),
    }
}

/// The concatenation of the characters of a sequence of pieces.
pub open spec fn cat(og: Seq<char>, ad: Seq<char>, ps: Seq<PieceTableEntry>) -> Seq<char>
    decreases ps.len(),
{
    if ps.len() == 0 {
        Seq::empty()
    } else {
        entry_seq(og, ad, ps[0]) + cat(og, ad, ps.drop_first())
    }
}

/// The sum of the lengths of a sequence of pieces.
pub open spec fn pieces_len(ps: Seq<PieceTableEntry>) -> int
    decreases ps.len(),
{
    if ps.len() == 0 {
        0
    } else {
        ps[0].length + pieces_len(ps.drop_first())
    }
}

/// `st` is a correct line-start index for the text `s`: it begins with 0,
/// is strictly increasing, every later entry sits one past a `'\n'`, and
/// every `'\n'` of `s` contributes its successor position.
pub open spec fn line_starts_wf(s: Seq<char>, st: Seq<usize>) -> bool {
    &&& st.len() >= 1
    &&& st[0] == 0
    &&& (forall|i: int, j: int|
        #![trigger st[i], st[j]]
        0 <= i < j < st.len() ==> st[i] < st[j])
    &&& (forall|i: int|
        0 < i < st.len() ==> 0 < #[trigger] st[i] <= s.len() && s[st[i] - 1] == '\n')
    &&& (forall|p: int| 0 <= p < s.len() && #[trigger] s[p] == '\n' ==> st.contains((p + 1) as usize))
}

proof fn lemma_cat_app(og: Seq<char>, ad: Seq<char>, a: Seq<PieceTableEntry>, b: Seq<
    PieceTableEntry,
>)
    ensures
        cat(og, ad, a + b) == cat(og, ad, a) + cat(og, ad, b),
    decreases a.len(),
{
    if a.len() == 0 {
        assert(a + b =~= b);
        assert(cat(og, ad, a) =~= Seq::<char>::empty());
        assert(cat(og, ad, a) + cat(og, ad, b) =~= cat(og, ad, b));
    } else {
        lemma_cat_app(og, ad, a.drop_first(), b);
        assert((a + b).drop_first() =~= a.drop_first() + b);
        assert((a + b)[0] == a[0]);
        assert(entry_seq(og, ad, a[0]) + (cat(og, ad, a.drop_first()) + cat(og, ad, b)) =~= (
        entry_seq(og, ad, a[0]) + cat(og, ad, a.drop_first())) + cat(og, ad, b));
    }
}

proof fn lemma_pieces_len_app(a: Seq<PieceTableEntry>, b: Seq<PieceTableEntry>)
    ensures
        pieces_len(a + b) == pieces_len(a) + pieces_len(b),
    decreases a.len(),
{
    if a.len() == 0 {
        assert(a + b =~= b);
    } else {
        lemma_pieces_len_app(a.drop_first(), b);
        assert((a + b).drop_first() =~= a.drop_first() + b);
        assert((a + b)[0] == a[0]);
    }
}

proof fn lemma_pieces_len_nonneg(ps: Seq<PieceTableEntry>)
    ensures
        pieces_len(ps) >= 0,
    decreases ps.len(),
{
    if ps.len() > 0 {
        lemma_pieces_len_nonneg(ps.drop_first());
    }
}

proof fn lemma_pieces_len_singleton(e: PieceTableEntry)
    ensures
        pieces_len(seq![e]) == e.length,
{
    assert(seq![e].drop_first() =~= Seq::<PieceTableEntry>::empty());
    assert(pieces_len(seq![e].drop_first()) == 0);
}

proof fn lemma_cat_singleton(og: Seq<char>, ad: Seq<char>, e: PieceTableEntry)
    ensures
        cat(og, ad, seq![e]) == entry_seq(og, ad, e),
{
    assert(seq![e].drop_first() =~= Seq::<PieceTableEntry>::empty());
    assert(cat(og, ad, seq![e].drop_first()) =~= Seq::<char>::empty());
    assert(cat(og, ad, seq![e]) =~= entry_seq(og, ad, e));
}

proof fn lemma_cat_len(og: Seq<char>, ad: Seq<char>, ps: Seq<PieceTableEntry>)
    requires
        forall|j: int| 0 <= j < ps.len() ==> entry_wf(og, ad, #[trigger] ps[j]),
    ensures
        cat(og, ad, ps).len() == pieces_len(ps),
    decreases ps.len(),
{
    if ps.len() > 0 {
        assert forall|j: int| 0 <= j < ps.drop_first().len() implies entry_wf(
            og,
            ad,
            #[trigger] ps.drop_first()[j],
        ) by {
            assert(ps.drop_first()[j] == ps[j + 1]);
        }
        lemma_cat_len(og, ad, ps.drop_first());
        assert(entry_wf(og, ad, ps[0]));
    }
}

proof fn lemma_cat_split(og: Seq<char>, ad: Seq<char>, ps: Seq<PieceTableEntry>, n: int)
    requires
        0 <= n <= ps.len(),
    ensures
        cat(og, ad, ps) == cat(og, ad, ps.take(n)) + cat(og, ad, ps.skip(n)),
{
    assert(ps.take(n) + ps.skip(n) =~= ps);
    lemma_cat_app(og, ad, ps.take(n), ps.skip(n));
}

proof fn lemma_pieces_len_split(ps: Seq<PieceTableEntry>, n: int)
    requires
        0 <= n <= ps.len(),
    ensures
        pieces_len(ps) == pieces_len(ps.take(n)) + pieces_len(ps.skip(n)),
{
    assert(ps.take(n) + ps.skip(n) =~= ps);
    lemma_pieces_len_app(ps.take(n), ps.skip(n));
}

proof fn lemma_pieces_len_take_succ(ps: Seq<PieceTableEntry>, k: int)
    requires
        0 <= k < ps.len(),
    ensures
        pieces_len(ps.take(k + 1)) == pieces_len(ps.take(k)) + ps[k].length,
{
    assert(ps.take(k + 1) =~= ps.take(k) + seq![ps[k]]);
    lemma_pieces_len_app(ps.take(k), seq![ps[k]]);
    lemma_pieces_len_singleton(ps[k]);
}

proof fn lemma_pieces_len_take_le(ps: Seq<PieceTableEntry>, n: int)
    requires
        0 <= n <= ps.len(),
    ensures
        pieces_len(ps.take(n)) <= pieces_len(ps),
{
    lemma_pieces_len_split(ps, n);
    lemma_pieces_len_nonneg(ps.skip(n));
}

/// Growing the add buffer does not change what existing pieces stand for.
proof fn lemma_cat_stable(og: Seq<char>, ad: Seq<char>, ad2: Seq<char>, ps: Seq<PieceTableEntry>)
    requires
        forall|j: int| 0 <= j < ps.len() ==> entry_wf(og, ad, #[trigger] ps[j]),
        ad.is_prefix_of(ad2),
    ensures
        cat(og, ad2, ps) == cat(og, ad, ps),
    decreases ps.len(),
{
    if ps.len() > 0 {
        assert forall|j: int| 0 <= j < ps.drop_first().len() implies entry_wf(
            og,
            ad,
            #[trigger] ps.drop_first()[j],
        ) by {
            assert(ps.drop_first()[j] == ps[j + 1]);
        }
        lemma_cat_stable(og, ad, ad2, ps.drop_first());
        assert(entry_wf(og, ad, ps[0]));
        assert(entry_seq(og, ad2, ps[0]) =~= entry_seq(og, ad, ps[0]));
        assert(cat(og, ad2, ps) =~= cat(og, ad, ps));
    }
}

/// The shape of each line-start entry after a character entered at `idx`:
/// entries beyond `idx` move up by one.
pub open spec fn bumped(v: usize, idx: int) -> int {
    if v > idx {
        v + 1
    } else {
        v as int
    }
}

/// The shape of each line-start entry after the character at `idx` left:
/// entries beyond `idx` move down by one.
pub open spec fn dropped(v: usize, idx: int) -> int {
    if v > idx {
        v - 1
    } else {
        v as int
    }
}

/// After inserting a character other than `'\n'` at `idx`, the bumped
/// index is a correct line-start index for the new text.
proof fn lemma_line_starts_insert(s: Seq<char>, st: Seq<usize>, st2: Seq<usize>, idx: int, c: char)
    requires
        line_starts_wf(s, st),
        s.len() < usize::MAX,
        0 <= idx <= s.len(),
        c != '\n',
        st2.len() == st.len(),
        forall|k: int| 0 <= k < st.len() ==> #[trigger] st2[k] == bumped(st[k], idx),
    ensures
        line_starts_wf(s.insert(idx, c), st2),
{
    let t = s.insert(idx, c);
    s.insert_ensures(idx, c);
    assert(st2[0] == 0);
    assert forall|i: int, j: int|
        #![trigger st2[i], st2[j]]
        0 <= i < j < st2.len() implies st2[i] < st2[j] by {
        assert(st[i] < st[j]);
    }
    assert forall|i: int| 0 < i < st2.len() implies 0 < #[trigger] st2[i] <= t.len() && t[st2[i]
        - 1] == '\n' by {
        assert(st2[i] == bumped(st[i], idx));
        if st[i] > idx {
            assert(t[st[i] as int] == s[st[i] - 1]);
        } else {
            assert(t[st[i] - 1] == s[st[i] - 1]);
        }
    }
    assert forall|p: int| 0 <= p < t.len() && #[trigger] t[p] == '\n' implies st2.contains(
        (p + 1) as usize,
    ) by {
        if p < idx {
            assert(t[p] == s[p]);
            let k = choose|k: int| 0 <= k < st.len() && st[k] == (p + 1) as usize;
            assert(st2[k] == (p + 1) as usize);
        } else if p == idx {
            assert(t[p] == c);
        } else {
            assert(t[p] == s[p - 1]);
            let k = choose|k: int| 0 <= k < st.len() && st[k] == p as usize;
            assert(st2[k] == (p + 1) as usize);
        }
    }
}

/// After inserting `'\n'` at `idx`, the bumped index with `idx + 1` added
/// in sorted position is a correct line-start index for the new text.
#[verifier::rlimit(50)]
proof fn lemma_line_starts_insert_nl(
    s: Seq<char>,
    st: Seq<usize>,
    st2: Seq<usize>,
    st3: Seq<usize>,
    idx: int,
    p: int,
)
    requires
        line_starts_wf(s, st),
        s.len() < usize::MAX,
        0 <= idx <= s.len(),
        st2.len() == st.len(),
        forall|k: int| 0 <= k < st.len() ==> #[trigger] st2[k] == bumped(st[k], idx),
        0 <= p <= st2.len(),
        st3 == st2.insert(p, (idx + 1) as usize),
        forall|k: int| 0 <= k < p ==> #[trigger] st2[k] < idx + 1,
        forall|k: int| p <= k < st2.len() ==> #[trigger] st2[k] > idx + 1,
    ensures
        line_starts_wf(s.insert(idx, '\n'), st3),
{
    let t = s.insert(idx, '\n');
    s.insert_ensures(idx, '\n');
    st2.insert_ensures(p, (idx + 1) as usize);
    assert(st2[0] == 0);
    assert(p != 0) by {
        if p == 0 {
            assert(st2[0] > idx + 1);
        }
    }
    assert(st3[0] == 0);
    assert(forall|i: int, j: int|
        #![trigger st2[i], st2[j]]
        0 <= i < j < st2.len() ==> st2[i] < st2[j]) by {
        assert forall|i: int, j: int|
            #![trigger st2[i], st2[j]]
            0 <= i < j < st2.len() implies st2[i] < st2[j] by {
            assert(st[i] < st[j]);
        }
    }
    assert forall|i: int, j: int|
        #![trigger st3[i], st3[j]]
        0 <= i < j < st3.len() implies st3[i] < st3[j] by {
        if i < p {
            assert(st3[i] == st2[i]);
        } else if i == p {
            assert(st3[i] == (idx + 1) as usize);
        } else {
            assert(st3[i] == st2[i - 1]);
            assert(st2[i - 1] > idx + 1);
        }
        if j < p {
            assert(st3[j] == st2[j]);
            assert(st2[j] < idx + 1);
        } else if j == p {
            assert(st3[j] == (idx + 1) as usize);
        } else {
            assert(st3[j] == st2[j - 1]);
            assert(st2[j - 1] > idx + 1);
        }
        if j < p {
            assert(st2[i] < st2[j]);
        }
        if i > p {
            assert(st2[i - 1] < st2[j - 1]);
        }
    }
    assert forall|i: int| 0 < i < st3.len() implies 0 < #[trigger] st3[i] <= t.len() && t[st3[i]
        - 1] == '\n' by {
        if i < p {
            assert(st3[i] == st2[i]);
            assert(st2[i] == bumped(st[i], idx));
            if st[i] > idx {
                assert(t[st[i] as int] == s[st[i] - 1]);
            } else {
                assert(t[st[i] - 1] == s[st[i] - 1]);
            }
        } else if i == p {
            assert(st3[i] == (idx + 1) as usize);
            assert(t[idx] == '\n');
        } else {
            assert(st3[i] == st2[i - 1]);
            assert(st2[i - 1] == bumped(st[i - 1], idx));
            assert(st2[i - 1] > idx + 1);
            assert(st[i - 1] > idx) by {
                if st[i - 1] <= idx {
                    assert(st2[i - 1] == st[i - 1]);
                }
            }
            assert(i - 1 > 0) by {
                if i - 1 == 0 {
                    assert(st2[0] == 0);
                }
            }
            assert(t[st[i - 1] as int] == s[st[i - 1] - 1]);
        }
    }
    assert forall|q: int| 0 <= q < t.len() && #[trigger] t[q] == '\n' implies st3.contains(
        (q + 1) as usize,
    ) by {
        if q < idx {
            assert(t[q] == s[q]);
            let k = choose|k: int| 0 <= k < st.len() && st[k] == (q + 1) as usize;
            assert(st2[k] == (q + 1) as usize);
            assert(st2[k] < idx + 1);
            assert(st3[k] == (q + 1) as usize);
        } else if q == idx {
            assert(st3[p] == (q + 1) as usize);
        } else {
            assert(t[q] == s[q - 1]);
            let k = choose|k: int| 0 <= k < st.len() && st[k] == q as usize;
            assert(st2[k] == (q + 1) as usize);
            assert(st2[k] > idx + 1) by {
                assert(st2[k] == q + 1);
            }
            assert(st3[k + 1] == (q + 1) as usize);
        }
    }
}

/// After deleting a character other than `'\n'` at `idx`, the dropped
/// index is a correct line-start index for the new text.
proof fn lemma_line_starts_delete(s: Seq<char>, st: Seq<usize>, st2: Seq<usize>, idx: int)
    requires
        line_starts_wf(s, st),
        s.len() <= usize::MAX,
        0 <= idx < s.len(),
        s[idx] != '\n',
        st2.len() == st.len(),
        forall|k: int| 0 <= k < st.len() ==> #[trigger] st2[k] == dropped(st[k], idx),
    ensures
        line_starts_wf(s.remove(idx), st2),
{
    let t = s.remove(idx);
    s.remove_ensures(idx);
    assert(forall|k: int|
        0 < k < st.len() && #[trigger] st[k] > idx ==> st[k] != idx + 1 && st[k] >= idx + 2) by {
        assert forall|k: int| 0 < k < st.len() && #[trigger] st[k] > idx implies st[k] != idx + 1
            && st[k] >= idx + 2 by {
            assert(s[st[k] - 1] == '\n');
        }
    }
    assert(st2[0] == 0);
    assert forall|i: int, j: int|
        #![trigger st2[i], st2[j]]
        0 <= i < j < st2.len() implies st2[i] < st2[j] by {
        assert(st[i] < st[j]);
        if st[j] > idx && i > 0 {
            assert(st[j] >= idx + 2);
        }
        if st[j] > idx && i == 0 {
            assert(st[j] >= idx + 2) by {
                if j > 0 {
                    assert(s[st[j] - 1] == '\n');
                }
            }
        }
    }
    assert forall|i: int| 0 < i < st2.len() implies 0 < #[trigger] st2[i] <= t.len() && t[st2[i]
        - 1] == '\n' by {
        assert(st2[i] == dropped(st[i], idx));
        assert(s[st[i] - 1] == '\n');
        if st[i] > idx {
            assert(st[i] >= idx + 2);
            assert(t[st[i] - 2] == s[st[i] - 1]);
        } else {
            assert(t[st[i] - 1] == s[st[i] - 1]);
        }
    }
    assert forall|q: int| 0 <= q < t.len() && #[trigger] t[q] == '\n' implies st2.contains(
        (q + 1) as usize,
    ) by {
        if q < idx {
            assert(t[q] == s[q]);
            let k = choose|k: int| 0 <= k < st.len() && st[k] == (q + 1) as usize;
            assert(st2[k] == (q + 1) as usize);
        } else {
            assert(t[q] == s[q + 1]);
            let k = choose|k: int| 0 <= k < st.len() && st[k] == (q + 2) as usize;
            assert(st2[k] == (q + 1) as usize);
        }
    }
}

/// After deleting a `'\n'` at `idx`, removing the entry `idx + 1` and then
/// dropping the rest gives a correct line-start index for the new text.
proof fn lemma_line_starts_delete_nl(
    s: Seq<char>,
    st: Seq<usize>,
    str0: Seq<usize>,
    st2: Seq<usize>,
    idx: int,
    p: int,
)
    requires
        line_starts_wf(s, st),
        s.len() <= usize::MAX,
        0 <= idx < s.len(),
        s[idx] == '\n',
        0 <= p < st.len(),
        st[p] == (idx + 1) as usize,
        str0 == st.remove(p),
        st2.len() == str0.len(),
        forall|k: int| 0 <= k < str0.len() ==> #[trigger] st2[k] == dropped(str0[k], idx),
    ensures
        line_starts_wf(s.remove(idx), st2),
{
    let t = s.remove(idx);
    s.remove_ensures(idx);
    st.remove_ensures(p);
    assert(p != 0) by {
        if p == 0 {
            assert(st[0] == 0);
        }
    }
    assert(forall|k: int| 0 <= k < str0.len() ==> #[trigger] str0[k] == if k < p {
        st[k]
    } else {
        st[k + 1]
    });
    assert(str0.len() >= 1);
    assert(str0[0] == st[0]);
    assert(st2[0] == 0);
    assert(forall|k: int| 0 <= k < str0.len() && #[trigger] str0[k] > idx ==> str0[k] >= idx + 2)
        by {
        assert forall|k: int|
            0 <= k < str0.len() && #[trigger] str0[k] > idx implies str0[k] >= idx + 2 by {
            if k < p {
                assert(st[k] < st[p]);
            } else {
                assert(st[k + 1] > st[p]);
            }
        }
    }
    assert forall|i: int, j: int|
        #![trigger st2[i], st2[j]]
        0 <= i < j < st2.len() implies st2[i] < st2[j] by {
        assert(str0[i] < str0[j]) by {
            if j < p {
                assert(st[i] < st[j]);
            } else if i < p {
                assert(st[i] < st[j + 1]);
            } else {
                assert(st[i + 1] < st[j + 1]);
            }
        }
        if str0[j] > idx {
            assert(str0[j] >= idx + 2);
        }
    }
    assert forall|i: int| 0 < i < st2.len() implies 0 < #[trigger] st2[i] <= t.len() && t[st2[i]
        - 1] == '\n' by {
        assert(st2[i] == dropped(str0[i], idx));
        let v = str0[i];
        assert(v == if i < p {
            st[i]
        } else {
            st[i + 1]
        });
        assert(0 < v <= s.len() && s[v - 1] == '\n');
        if v > idx {
            assert(v >= idx + 2);
            assert(t[v - 2] == s[v - 1]);
        } else {
            assert(t[v - 1] == s[v - 1]);
        }
    }
    assert forall|q: int| 0 <= q < t.len() && #[trigger] t[q] == '\n' implies st2.contains(
        (q + 1) as usize,
    ) by {
        if q < idx {
            assert(t[q] == s[q]);
            let k = choose|k: int| 0 <= k < st.len() && st[k] == (q + 1) as usize;
            assert(st[k] < st[p]) by {
                assert(st[k] == q + 1);
                assert(st[p] == idx + 1);
            }
            assert(k < p);
            assert(str0[k] == (q + 1) as usize);
            assert(st2[k] == (q + 1) as usize);
        } else {
            assert(t[q] == s[q + 1]);
            let k = choose|k: int| 0 <= k < st.len() && st[k] == (q + 2) as usize;
            assert(st[k] > st[p]) by {
                assert(st[k] == q + 2);
                assert(st[p] == idx + 1);
            }
            assert(k > p);
            assert(str0[k - 1] == (q + 2) as usize);
            assert(st2[k - 1] == (q + 1) as usize);
        }
    }
}

/// Where a logical index falls inside the piece that covers it: position
/// `i` of the concatenation reads the piece's characters at `i` less the
/// length of everything before the piece.
proof fn lemma_cat_index(og: Seq<char>, ad: Seq<char>, ps: Seq<PieceTableEntry>, j: int, i: int)
    requires
        forall|k: int| 0 <= k < ps.len() ==> entry_wf(og, ad, #[trigger] ps[k]),
        0 <= j < ps.len(),
        pieces_len(ps.take(j)) <= i < pieces_len(ps.take(j)) + ps[j].length,
    ensures
        0 <= i < cat(og, ad, ps).len(),
        cat(og, ad, ps)[i] == entry_seq(og, ad, ps[j])[i - pieces_len(ps.take(j))],
{
    lemma_cat_split(og, ad, ps, j);
    assert forall|k: int| 0 <= k < ps.take(j).len() implies entry_wf(
        og,
        ad,
        #[trigger] ps.take(j)[k],
    ) by {
        assert(ps.take(j)[k] == ps[k]);
    }
    lemma_cat_len(og, ad, ps.take(j));
    lemma_cat_len(og, ad, ps);
    lemma_pieces_len_take_succ(ps, j);
    lemma_pieces_len_take_le(ps, j + 1);
    assert(ps.skip(j)[0] == ps[j]);
    assert(cat(og, ad, ps.skip(j)) == entry_seq(og, ad, ps[j]) + cat(og, ad, ps.skip(j).drop_first()));
    assert(entry_wf(og, ad, ps[j]));
    assert(entry_seq(og, ad, ps[j]).len() == ps[j].length);
    let off = pieces_len(ps.take(j));
    assert(cat(og, ad, ps)[i] == cat(og, ad, ps.skip(j))[i - off]);
    assert(cat(og, ad, ps.skip(j))[i - off] == entry_seq(og, ad, ps[j])[i - off]);
}

proof fn lemma_entry_wf_grow(og: Seq<char>, ad: Seq<char>, ad2: Seq<char>, e: PieceTableEntry)
    requires
        entry_wf(og, ad, e),
        ad.len() <= ad2.len(),
    ensures
        entry_wf(og, ad2, e),
{
}

proof fn lemma_entry_seq_stable(og: Seq<char>, ad: Seq<char>, ad2: Seq<char>, e: PieceTableEntry)
    requires
        entry_wf(og, ad, e),
        ad.is_prefix_of(ad2),
    ensures
        entry_seq(og, ad2, e) == entry_seq(og, ad, e),
{
    assert(entry_seq(og, ad2, e) =~= entry_seq(og, ad, e));
}

/// Shift every line start strictly beyond `idx` up by one, after a
/// character entered at `idx`.
fn bump_starts_after(starts: &mut Vec<usize>, idx: usize)
    requires
        forall|k: int| 0 <= k < old(starts)@.len() ==> #[trigger] old(starts)@[k] < usize::MAX,
    ensures
        final(starts)@.len() == old(starts)@.len(),
        forall|k: int|
            0 <= k < old(starts)@.len() ==> #[trigger] final(starts)@[k] == bumped(
                old(starts)@[k],
                idx as int,
            ),
{
    let n = starts.len();
    let mut k: usize = 0;
    while k < n
        invariant
            n == starts@.len(),
            n == old(starts)@.len(),
            k <= n,
            forall|t: int| 0 <= t < old(starts)@.len() ==> #[trigger] old(starts)@[t] < usize::MAX,
            forall|t: int|
                0 <= t < k ==> #[trigger] starts@[t] == bumped(old(starts)@[t], idx as int),
            forall|t: int| k <= t < n ==> #[trigger] starts@[t] == old(starts)@[t],
        decreases n - k,
    {
        let v = starts[k];
        proof {
            assert(old(starts)@[k as int] < usize::MAX);
        }
        if v > idx {
            starts[k] = v + 1;
        }
        k = k + 1;
    }
}

/// Shift every line start strictly beyond `idx` down by one, after the
/// character at `idx` left.
fn drop_starts_after(starts: &mut Vec<usize>, idx: usize)
    ensures
        final(starts)@.len() == old(starts)@.len(),
        forall|k: int|
            0 <= k < old(starts)@.len() ==> #[trigger] final(starts)@[k] == dropped(
                old(starts)@[k],
                idx as int,
            ),
{
    let n = starts.len();
    let mut k: usize = 0;
    while k < n
        invariant
            n == starts@.len(),
            k <= n,
            forall|t: int|
                0 <= t < k ==> #[trigger] starts@[t] == dropped(old(starts)@[t], idx as int),
            forall|t: int| k <= t < n ==> #[trigger] starts@[t] == old(starts)@[t],
        decreases n - k,
    {
        let v = starts[k];
        if v > idx {
            starts[k] = v - 1;
        }
        k = k + 1;
    }
}

/// Put `v` at its place in the strictly sorted start list, returning that
/// place.
fn insert_start_sorted(starts: &mut Vec<usize>, v: usize) -> (p: usize)
    requires
        forall|i: int, j: int|
            #![trigger old(starts)@[i], old(starts)@[j]]
            0 <= i < j < old(starts)@.len() ==> old(starts)@[i] < old(starts)@[j],
        forall|k: int| 0 <= k < old(starts)@.len() ==> #[trigger] old(starts)@[k] != v,
    ensures
        p <= old(starts)@.len(),
        final(starts)@ == old(starts)@.insert(p as int, v),
        forall|k: int| 0 <= k < p ==> #[trigger] old(starts)@[k] < v,
        forall|k: int| p <= k < old(starts)@.len() ==> #[trigger] old(starts)@[k] > v,
{
    let n = starts.len();
    let mut p: usize = 0;
    while p < n && starts[p] < v
        invariant
            n == starts@.len(),
            starts@ == old(starts)@,
            p <= n,
            forall|k: int| 0 <= k < p ==> #[trigger] starts@[k] < v,
        decreases n - p,
    {
        p = p + 1;
    }
    proof {
        assert forall|k: int| p <= k < starts@.len() implies #[trigger] starts@[k] > v by {
            assert(starts@[p as int] <= starts@[k]);
        }
    }
    starts.insert(p, v);
    p
}

/// Remove the entry equal to `v`, which must be present, returning where
/// it stood.
fn remove_start(starts: &mut Vec<usize>, v: usize) -> (p: usize)
    requires
        old(starts)@.contains(v),
    ensures
        p < old(starts)@.len(),
        old(starts)@[p as int] == v,
        final(starts)@ == old(starts)@.remove(p as int),
{
    let n = starts.len();
    let mut p: usize = 0;
    while p < n && starts[p] != v
        invariant
            n == starts@.len(),
            starts@ == old(starts)@,
            p <= n,
            forall|k: int| 0 <= k < p ==> #[trigger] starts@[k] != v,
        decreases n - p,
    {
        p = p + 1;
    }
    proof {
        if p == n {
            let k = choose|k: int| 0 <= k < starts@.len() && starts@[k] == v;
            assert(false);
        }
    }
    starts.remove(p);
    p
}

/// `v` begins a line of `s`: it is 0, or sits one past a `'\n'`.
pub open spec fn is_line_begin(s: Seq<char>, v: int) -> bool {
    v == 0 || (0 < v <= s.len() && s[v - 1] == '\n')
}

/// The piece-table buffer.
pub struct PieceTable {
    pub original_buffer: Vec<char>,
    pub add_buffer: Vec<char>,
    pub piece_table: Vec<PieceTableEntry>,
    pub length: usize,
    pub line_starts: Vec<usize>,
}

impl PieceTable {
    /// The document: the concatenation of the pieces' characters.
    pub open spec fn content(self) -> Seq<char> {
        cat(self.original_buffer@, self.add_buffer@, self.piece_table@)
    }

    /// Every piece lies in its buffer and has positive length.
    pub open spec fn pieces_wf(self) -> bool {
        forall|j: int|
            0 <= j < self.piece_table@.len() ==> entry_wf(
                self.original_buffer@,
                self.add_buffer@,
                #[trigger] self.piece_table@[j],
            )
    }

    /// The buffer invariant: well-formed pieces, a length that equals the
    /// content's length, and a correct line-start index.
    pub open spec fn wf(self) -> bool {
        &&& self.pieces_wf()
        &&& self.length == self.content().len()
        &&& line_starts_wf(self.content(), self.line_starts@)
    }

    /// Build a table over `original_buffer`: a single piece spanning it when
    /// it is non-empty, no pieces otherwise, and a line index computed by
    /// scanning it.
    pub fn new(original_buffer: &str) -> (r: PieceTable)
        ensures
            r.wf(),
            r.content() == original_buffer@,
            r.length == original_buffer@.len(),
            r.add_buffer@ == Seq::<char>::empty(),
    {
        let n = original_buffer.unicode_len();
        let mut chars: Vec<char> = Vec::new();
        let mut i: usize = 0;
        while i < n
            invariant
                n == original_buffer@.len(),
                i <= n,
                chars@ == original_buffer@.take(i as int),
            decreases n - i,
        {
            chars.push(original_buffer.get_char(i));
            proof {
                assert(original_buffer@.take(i + 1 as int) =~= original_buffer@.take(i as int).push(
                    original_buffer@[i as int],
                ));
            }
            i = i + 1;
        }
        proof {
            assert(chars@ =~= original_buffer@);
        }

        let mut line_starts: Vec<usize> = Vec::new();
        line_starts.push(0);
        let mut i: usize = 0;
        while i < n
            invariant
                n == chars@.len(),
                i <= n,
                line_starts@.len() >= 1,
                line_starts@[0] == 0,
                forall|a: int, b: int|
                    #![trigger line_starts@[a], line_starts@[b]]
                    0 <= a < b < line_starts@.len() ==> line_starts@[a] < line_starts@[b],
                forall|a: int|
                    0 < a < line_starts@.len() ==> 0 < #[trigger] line_starts@[a] <= i
                        && chars@[line_starts@[a] - 1] == '\n',
                forall|p: int|
                    0 <= p < i && #[trigger] chars@[p] == '\n' ==> line_starts@.contains(
                        (p + 1) as usize,
                    ),
            decreases n - i,
        {
            if chars[i] == '\n' {
                let ghost pre = line_starts@;
                line_starts.push(i + 1);
                proof {
                    assert forall|p: int|
                        0 <= p < i + 1 && #[trigger] chars@[p] == '\n' implies line_starts@.contains(
                        (p + 1) as usize,
                    ) by {
                        if p == i {
                            assert(line_starts@[pre.len() as int] == (i + 1) as usize);
                        } else {
                            let k = choose|k: int| 0 <= k < pre.len() && pre[k] == (p + 1) as usize;
                            assert(line_starts@[k] == (p + 1) as usize);
                        }
                    }
                }
            }
            i = i + 1;
        }

        let buffer_length = chars.len();
        let mut piece_table: Vec<PieceTableEntry> = Vec::new();
        if buffer_length > 0 {
            piece_table.push(
                PieceTableEntry {
                    buffer: PieceTableBuffers::Original,
                    start_index: 0,
                    length: buffer_length,
                },
            );
        }
        let r = PieceTable {
            original_buffer: chars,
            add_buffer: Vec::<char>::new(),
            piece_table,
            length: buffer_length,
            line_starts,
        };
        proof {
            let og = r.original_buffer@;
            let ad = r.add_buffer@;
            let ps = r.piece_table@;
            if ps.len() == 0 {
                assert(r.content() =~= original_buffer@);
            } else {
                assert(ps.drop_first().len() == 0);
                assert(cat(og, ad, ps.drop_first()) =~= Seq::<char>::empty());
                assert(entry_seq(og, ad, ps[0]) =~= original_buffer@);
                assert(r.content() =~= original_buffer@);
            }
        }
        r
    }

    /// Find the piece that covers logical index `idx` by walking the piece
    /// list and accumulating lengths; `None` exactly when `idx` is the
    /// one-past-the-end position.
    fn find_entry(&self, idx: usize) -> (r: Option<usize>)
        requires
            self.pieces_wf(),
            self.length == self.content().len(),
            idx <= self.length,
        ensures
            match r {
                Some(j) => {
                    &&& idx < self.length
                    &&& j < self.piece_table@.len()
                    &&& pieces_len(self.piece_table@.take(j as int)) <= idx
                    &&& idx < pieces_len(self.piece_table@.take(j as int))
                        + self.piece_table@[j as int].length
                },
                None => idx == self.length,
            },
    {
        if idx == self.length {
            None
        } else {
            let ghost ps = self.piece_table@;
            proof {
                lemma_cat_len(self.original_buffer@, self.add_buffer@, ps);
                assert(ps.take(0) =~= Seq::<PieceTableEntry>::empty());
            }
            let mut entry_idx: usize = 0;
            let mut total: usize = 0;
            while entry_idx < self.piece_table.len()
                invariant
                    self.pieces_wf(),
                    self.length == self.content().len(),
                    idx < self.length,
                    ps == self.piece_table@,
                    pieces_len(ps) == self.length,
                    entry_idx <= ps.len(),
                    total == pieces_len(ps.take(entry_idx as int)),
                    total <= idx,
                decreases ps.len() - entry_idx,
            {
                let piece_len = self.piece_table[entry_idx].length;
                proof {
                    lemma_pieces_len_take_succ(ps, entry_idx as int);
                    lemma_pieces_len_take_le(ps, entry_idx + 1 as int);
                }
                if piece_len > idx - total {
                    return Some(entry_idx);
                }
                total = total + piece_len;
                entry_idx = entry_idx + 1;
            }
            proof {
                assert(ps.take(entry_idx as int) =~= ps);
                assert(false);
            }
            None
        }
    }

    /// Sum of the lengths of the pieces before `entry_idx`: the logical
    /// index at which that piece's characters begin.
    fn offset_of_entry(&self, entry_idx: usize) -> (offset: usize)
        requires
            self.pieces_wf(),
            self.length == self.content().len(),
            entry_idx <= self.piece_table@.len(),
        ensures
            offset == pieces_len(self.piece_table@.take(entry_idx as int)),
    {
        let ghost ps = self.piece_table@;
        proof {
            lemma_cat_len(self.original_buffer@, self.add_buffer@, ps);
            assert(ps.take(0) =~= Seq::<PieceTableEntry>::empty());
        }
        let mut offset: usize = 0;
        let mut i: usize = 0;
        while i < entry_idx
            invariant
                self.pieces_wf(),
                self.length == self.content().len(),
                ps == self.piece_table@,
                pieces_len(ps) == self.length,
                entry_idx <= ps.len(),
                i <= entry_idx,
                offset == pieces_len(ps.take(i as int)),
            decreases entry_idx - i,
        {
            proof {
                lemma_pieces_len_take_succ(ps, i as int);
                lemma_pieces_len_take_le(ps, i + 1 as int);
            }
            offset = offset + self.piece_table[i].length;
            i = i + 1;
        }
        offset
    }

    /// The character at logical index `idx`.
    pub fn index(&self, idx: usize) -> (c: char)
        requires
            self.wf(),
            idx < self.length,
        ensures
            c == self.content()[idx as int],
    {
        if let Some(entry_idx) = self.find_entry(idx) {
            let offset = self.offset_of_entry(entry_idx);
            let n = idx - offset;
            let entry = self.piece_table[entry_idx];
            proof {
                lemma_cat_index(
                    self.original_buffer@,
                    self.add_buffer@,
                    self.piece_table@,
                    entry_idx as int,
                    idx as int,
                );
                assert(entry_wf(self.original_buffer@, self.add_buffer@, self.piece_table@[
                entry_idx as int]));
                assert(n < entry.length);
            }
            match entry.buffer {
                PieceTableBuffers::Original => {
                    let b_len = self.original_buffer.len();
                    assert(entry.start_index + entry.length <= b_len);
                    self.original_buffer[entry.start_index + n]
                },
                PieceTableBuffers::Add => {
                    let b_len = self.add_buffer.len();
                    assert(entry.start_index + entry.length <= b_len);
                    self.add_buffer[entry.start_index + n]
                },
            }
        } else {
            proof {
                assert(false);
            }
            unreached()
        }
    }

    /// The piece-list step of an append: extend an abutting final add
    /// piece, or push a new one-character add piece.  The character itself
    /// is recorded by the caller.
    fn insert_piece_end(&mut self, c: char)
        requires
            old(self).pieces_wf(),
            old(self).length == old(self).content().len(),
            old(self).add_buffer@.len() < usize::MAX,
        ensures
            final(self).original_buffer@ == old(self).original_buffer@,
            final(self).add_buffer@ == old(self).add_buffer@,
            final(self).length == old(self).length,
            final(self).line_starts@ == old(self).line_starts@,
            forall|m: int|
                0 <= m < final(self).piece_table@.len() ==> entry_wf(
                    old(self).original_buffer@,
                    old(self).add_buffer@.push(c),
                    #[trigger] final(self).piece_table@[m],
                ),
            cat(
                old(self).original_buffer@,
                old(self).add_buffer@.push(c),
                final(self).piece_table@,
            ) == old(self).content().push(c),
    {
        let ghost og = self.original_buffer@;
        let ghost ad = self.add_buffer@;
        let ghost ad2 = self.add_buffer@.push(c);
        let ghost ps0 = self.piece_table@;
        let ghost s = self.content();
        proof {
            assert(ad.is_prefix_of(ad2)) by {
                assert(ad =~= ad2.subrange(0, ad.len() as int));
            }
        }
        let ad_len = self.add_buffer.len();
        let pt_len = self.piece_table.len();
        let extend = if pt_len > 0 {
            let e = self.piece_table[pt_len - 1];
            proof {
                assert(entry_wf(og, ad, ps0[pt_len - 1]));
            }
            e.buffer == PieceTableBuffers::Add && e.start_index + e.length == ad_len
        } else {
            false
        };
        if extend {
            let e = self.piece_table[pt_len - 1];
            let e2 = PieceTableEntry {
                buffer: e.buffer,
                start_index: e.start_index,
                length: e.length + 1,
            };
            self.piece_table[pt_len - 1] = e2;
            proof {
                let j = pt_len - 1;
                let ps1 = self.piece_table@;
                assert forall|m: int| 0 <= m < ps1.len() implies entry_wf(
                    og,
                    ad2,
                    #[trigger] ps1[m],
                ) by {
                    assert(entry_wf(og, ad, ps0[m]));
                    if m != j {
                        assert(ps1[m] == ps0[m]);
                        lemma_entry_wf_grow(og, ad, ad2, ps0[m]);
                    }
                }
                assert(ps0.take(j as int) + seq![e] =~= ps0);
                assert(ps1 =~= ps0.take(j as int) + seq![e2]);
                assert forall|m: int| 0 <= m < ps0.take(j as int).len() implies entry_wf(
                    og,
                    ad,
                    #[trigger] ps0.take(j as int)[m],
                ) by {
                    assert(ps0.take(j as int)[m] == ps0[m]);
                }
                lemma_cat_app(og, ad2, ps0.take(j as int), seq![e2]);
                lemma_cat_app(og, ad, ps0.take(j as int), seq![e]);
                lemma_cat_stable(og, ad, ad2, ps0.take(j as int));
                lemma_cat_singleton(og, ad2, e2);
                lemma_cat_singleton(og, ad, e);
                assert(entry_seq(og, ad2, e2) =~= entry_seq(og, ad, e).push(c));
                assert(cat(og, ad2, ps1) =~= s.push(c));
            }
        } else {
            let new_entry = PieceTableEntry {
                buffer: PieceTableBuffers::Add,
                start_index: ad_len,
                length: 1,
            };
            self.piece_table.push(new_entry);
            proof {
                let ps1 = self.piece_table@;
                assert(ps1 =~= ps0 + seq![new_entry]);
                assert forall|m: int| 0 <= m < ps1.len() implies entry_wf(
                    og,
                    ad2,
                    #[trigger] ps1[m],
                ) by {
                    if m < ps0.len() {
                        assert(ps1[m] == ps0[m]);
                        assert(entry_wf(og, ad, ps0[m]));
                        lemma_entry_wf_grow(og, ad, ad2, ps0[m]);
                    }
                }
                lemma_cat_app(og, ad2, ps0, seq![new_entry]);
                lemma_cat_stable(og, ad, ad2, ps0);
                lemma_cat_singleton(og, ad2, new_entry);
                assert(entry_seq(og, ad2, new_entry) =~= seq![c]);
                assert(cat(og, ad2, ps1) =~= s.push(c));
            }
        }
    }

    /// The piece-list step of an insertion that lands exactly where piece
    /// `entry_idx` begins: extend an abutting add piece just before it, or
    /// put a new one-character add piece in front of it.
    fn insert_piece_at_start(&mut self, entry_idx: usize, c: char)
        requires
            old(self).pieces_wf(),
            old(self).length == old(self).content().len(),
            entry_idx < old(self).piece_table@.len(),
            old(self).add_buffer@.len() < usize::MAX,
        ensures
            final(self).original_buffer@ == old(self).original_buffer@,
            final(self).add_buffer@ == old(self).add_buffer@,
            final(self).length == old(self).length,
            final(self).line_starts@ == old(self).line_starts@,
            forall|m: int|
                0 <= m < final(self).piece_table@.len() ==> entry_wf(
                    old(self).original_buffer@,
                    old(self).add_buffer@.push(c),
                    #[trigger] final(self).piece_table@[m],
                ),
            cat(
                old(self).original_buffer@,
                old(self).add_buffer@.push(c),
                final(self).piece_table@,
            ) == old(self).content().insert(
                pieces_len(old(self).piece_table@.take(entry_idx as int)),
                c,
            ),
    {
        let ghost og = self.original_buffer@;
        let ghost ad = self.add_buffer@;
        let ghost ad2 = self.add_buffer@.push(c);
        let ghost ps0 = self.piece_table@;
        let ghost s = self.content();
        let ghost j = entry_idx as int;
        let ghost idxg = pieces_len(ps0.take(j));
        let ghost t = s.insert(idxg, c);
        proof {
            assert(ad.is_prefix_of(ad2)) by {
                assert(ad =~= ad2.subrange(0, ad.len() as int));
            }
            lemma_cat_len(og, ad, ps0);
            lemma_pieces_len_nonneg(ps0.take(j));
            lemma_pieces_len_take_le(ps0, j);
            s.insert_ensures(idxg, c);
            lemma_cat_split(og, ad, ps0, j);
            assert forall|m: int| 0 <= m < ps0.take(j).len() implies entry_wf(
                og,
                ad,
                #[trigger] ps0.take(j)[m],
            ) by {
                assert(ps0.take(j)[m] == ps0[m]);
            }
            assert forall|m: int| 0 <= m < ps0.skip(j).len() implies entry_wf(
                og,
                ad,
                #[trigger] ps0.skip(j)[m],
            ) by {
                assert(ps0.skip(j)[m] == ps0[m + j]);
            }
            lemma_cat_len(og, ad, ps0.take(j));
            // The document splits at idxg, the border before piece j.
            assert(s.subrange(0, idxg) =~= cat(og, ad, ps0.take(j)));
            assert(s.subrange(idxg, s.len() as int) =~= cat(og, ad, ps0.skip(j)));
        }
        let ad_len = self.add_buffer.len();
        let prev_extend = if entry_idx > 0 {
            let pe = self.piece_table[entry_idx - 1];
            proof {
                assert(entry_wf(og, ad, ps0[j - 1]));
            }
            pe.buffer == PieceTableBuffers::Add && pe.start_index + pe.length == ad_len
        } else {
            false
        };
        if prev_extend {
            let pe = self.piece_table[entry_idx - 1];
            let pe2 = PieceTableEntry {
                buffer: pe.buffer,
                start_index: pe.start_index,
                length: pe.length + 1,
            };
            self.piece_table[entry_idx - 1] = pe2;
            proof {
                let ps1 = self.piece_table@;
                assert forall|m: int| 0 <= m < ps1.len() implies entry_wf(
                    og,
                    ad2,
                    #[trigger] ps1[m],
                ) by {
                    assert(entry_wf(og, ad, ps0[m]));
                    if m != j - 1 {
                        assert(ps1[m] == ps0[m]);
                        lemma_entry_wf_grow(og, ad, ad2, ps0[m]);
                    }
                }
                assert(ps0.take(j - 1) + seq![pe] =~= ps0.take(j));
                assert forall|m: int| 0 <= m < ps0.take(j - 1).len() implies entry_wf(
                    og,
                    ad,
                    #[trigger] ps0.take(j - 1)[m],
                ) by {
                    assert(ps0.take(j - 1)[m] == ps0[m]);
                }
                lemma_cat_app(og, ad, ps0.take(j - 1), seq![pe]);
                lemma_cat_singleton(og, ad, pe);
                // The new piece list splits the same way.
                assert(ps1.take(j) =~= ps0.take(j - 1) + seq![pe2]);
                assert(ps1.skip(j) =~= ps0.skip(j));
                lemma_cat_split(og, ad2, ps1, j);
                lemma_cat_app(og, ad2, ps0.take(j - 1), seq![pe2]);
                lemma_cat_stable(og, ad, ad2, ps0.take(j - 1));
                lemma_cat_stable(og, ad, ad2, ps0.skip(j));
                lemma_cat_singleton(og, ad2, pe2);
                assert(entry_seq(og, ad2, pe2) =~= entry_seq(og, ad, pe).push(c));
                assert(cat(og, ad2, ps1.take(j)) =~= s.subrange(0, idxg).push(c));
                assert(cat(og, ad2, ps1) =~= t);
            }
        } else {
            let new_entry = PieceTableEntry {
                buffer: PieceTableBuffers::Add,
                start_index: ad_len,
                length: 1,
            };
            self.piece_table.insert(entry_idx, new_entry);
            proof {
                let ps1 = self.piece_table@;
                assert(ps1 =~= ps0.take(j) + seq![new_entry] + ps0.skip(j));
                assert forall|m: int| 0 <= m < ps1.len() implies entry_wf(
                    og,
                    ad2,
                    #[trigger] ps1[m],
                ) by {
                    if m < j {
                        assert(ps1[m] == ps0[m]);
                        assert(entry_wf(og, ad, ps0[m]));
                        lemma_entry_wf_grow(og, ad, ad2, ps0[m]);
                    } else if m > j {
                        assert(ps1[m] == ps0[m - 1]);
                        assert(entry_wf(og, ad, ps0[m - 1]));
                        lemma_entry_wf_grow(og, ad, ad2, ps0[m - 1]);
                    }
                }
                lemma_cat_app(og, ad2, ps0.take(j) + seq![new_entry], ps0.skip(j));
                lemma_cat_app(og, ad2, ps0.take(j), seq![new_entry]);
                lemma_cat_stable(og, ad, ad2, ps0.take(j));
                lemma_cat_stable(og, ad, ad2, ps0.skip(j));
                lemma_cat_singleton(og, ad2, new_entry);
                assert(entry_seq(og, ad2, new_entry) =~= seq![c]);
                assert(cat(og, ad2, ps1) =~= t);
            }
        }
    }

    /// The piece-list step of an insertion strictly inside piece
    /// `entry_idx`, `k` characters in: split the piece and put a new
    /// one-character add piece between the halves.
    #[verifier::rlimit(50)]
    fn insert_piece_split(&mut self, entry_idx: usize, k: usize, c: char)
        requires
            old(self).pieces_wf(),
            old(self).length == old(self).content().len(),
            entry_idx < old(self).piece_table@.len(),
            0 < k < old(self).piece_table@[entry_idx as int].length,
            old(self).add_buffer@.len() < usize::MAX,
        ensures
            final(self).original_buffer@ == old(self).original_buffer@,
            final(self).add_buffer@ == old(self).add_buffer@,
            final(self).length == old(self).length,
            final(self).line_starts@ == old(self).line_starts@,
            forall|m: int|
                0 <= m < final(self).piece_table@.len() ==> entry_wf(
                    old(self).original_buffer@,
                    old(self).add_buffer@.push(c),
                    #[trigger] final(self).piece_table@[m],
                ),
            cat(
                old(self).original_buffer@,
                old(self).add_buffer@.push(c),
                final(self).piece_table@,
            ) == old(self).content().insert(
                pieces_len(old(self).piece_table@.take(entry_idx as int)) + k,
                c,
            ),
    {
        let ghost og = self.original_buffer@;
        let ghost ad = self.add_buffer@;
        let ghost ad2 = self.add_buffer@.push(c);
        let ghost ps0 = self.piece_table@;
        let ghost s = self.content();
        let ghost j = entry_idx as int;
        let ghost idxg = pieces_len(ps0.take(j)) + k;
        let ghost t = s.insert(idxg, c);
        let ad_len = self.add_buffer.len();
        let og_len = self.original_buffer.len();
        let pt_len0 = self.piece_table.len();
        let e = self.piece_table[entry_idx];
        proof {
            assert(ad.is_prefix_of(ad2)) by {
                assert(ad =~= ad2.subrange(0, ad.len() as int));
            }
            assert(entry_wf(og, ad, ps0[j]));
            if e.buffer == PieceTableBuffers::Original {
                assert(e.start_index + e.length <= og_len);
            } else {
                assert(e.start_index + e.length <= ad_len);
            }
            lemma_cat_len(og, ad, ps0);
            lemma_pieces_len_nonneg(ps0.take(j));
            lemma_pieces_len_take_succ(ps0, j);
            lemma_pieces_len_take_le(ps0, j + 1);
            s.insert_ensures(idxg, c);
            lemma_cat_split(og, ad, ps0, j);
            assert forall|m: int| 0 <= m < ps0.take(j).len() implies entry_wf(
                og,
                ad,
                #[trigger] ps0.take(j)[m],
            ) by {
                assert(ps0.take(j)[m] == ps0[m]);
            }
            assert forall|m: int| 0 <= m < ps0.skip(j + 1).len() implies entry_wf(
                og,
                ad,
                #[trigger] ps0.skip(j + 1)[m],
            ) by {
                assert(ps0.skip(j + 1)[m] == ps0[m + j + 1]);
            }
            lemma_cat_len(og, ad, ps0.take(j));
            assert(ps0.skip(j) =~= seq![e] + ps0.skip(j + 1));
            lemma_cat_app(og, ad, seq![e], ps0.skip(j + 1));
            lemma_cat_singleton(og, ad, e);
        }
        let split_entry = PieceTableEntry {
            buffer: e.buffer,
            start_index: e.start_index,
            length: k,
        };
        let right_entry = PieceTableEntry {
            buffer: e.buffer,
            start_index: e.start_index + k,
            length: e.length - k,
        };
        let new_entry = PieceTableEntry {
            buffer: PieceTableBuffers::Add,
            start_index: ad_len,
            length: 1,
        };
        self.piece_table[entry_idx] = right_entry;
        self.piece_table.insert(entry_idx, split_entry);
        self.piece_table.insert(entry_idx + 1, new_entry);
        proof {
            let ps1 = self.piece_table@;
            let mid = seq![split_entry, new_entry, right_entry];
            assert(ps1 =~= ps0.take(j) + mid + ps0.skip(j + 1));
            assert forall|m: int| 0 <= m < ps1.len() implies entry_wf(
                og,
                ad2,
                #[trigger] ps1[m],
            ) by {
                if m < j {
                    assert(ps1[m] == ps0[m]);
                    assert(entry_wf(og, ad, ps0[m]));
                    lemma_entry_wf_grow(og, ad, ad2, ps0[m]);
                } else if m == j {
                    assert(ps1[m] == split_entry);
                    assert(entry_wf(og, ad, ps0[j]));
                    lemma_entry_wf_grow(og, ad, ad2, split_entry);
                } else if m == j + 1 {
                    assert(ps1[m] == new_entry);
                } else if m == j + 2 {
                    assert(ps1[m] == right_entry);
                    assert(entry_wf(og, ad, ps0[j]));
                    lemma_entry_wf_grow(og, ad, ad2, right_entry);
                } else {
                    assert(ps1[m] == ps0[m - 2]);
                    assert(entry_wf(og, ad, ps0[m - 2]));
                    lemma_entry_wf_grow(og, ad, ad2, ps0[m - 2]);
                }
            }
            // The document splits at piece j and inside it at k.
            assert(s.subrange(0, idxg) =~= cat(og, ad, ps0.take(j)) + entry_seq(
                og,
                ad,
                split_entry,
            ));
            assert(s.subrange(idxg, s.len() as int) =~= entry_seq(og, ad, right_entry) + cat(
                og,
                ad,
                ps0.skip(j + 1),
            ));
            // The new piece list concatenates the same segments with c between.
            assert(mid =~= seq![split_entry] + seq![new_entry] + seq![right_entry]);
            lemma_cat_app(og, ad2, ps0.take(j) + mid, ps0.skip(j + 1));
            lemma_cat_app(og, ad2, ps0.take(j), mid);
            lemma_cat_app(og, ad2, seq![split_entry] + seq![new_entry], seq![right_entry]);
            lemma_cat_app(og, ad2, seq![split_entry], seq![new_entry]);
            lemma_cat_singleton(og, ad2, split_entry);
            lemma_cat_singleton(og, ad2, new_entry);
            lemma_cat_singleton(og, ad2, right_entry);
            lemma_cat_stable(og, ad, ad2, ps0.take(j));
            lemma_cat_stable(og, ad, ad2, ps0.skip(j + 1));
            lemma_entry_seq_stable(og, ad, ad2, split_entry);
            lemma_entry_seq_stable(og, ad, ad2, right_entry);
            assert(entry_seq(og, ad2, new_entry) =~= seq![c]);
            assert(cat(og, ad2, ps1) =~= t);
        }
    }

    /// The piece-list step of an insertion inside the document: find the
    /// piece covering `idx` and grow, front-extend or split around it.
    fn insert_piece_mid(&mut self, idx: usize, c: char)
        requires
            old(self).pieces_wf(),
            old(self).length == old(self).content().len(),
            idx < old(self).length,
            old(self).add_buffer@.len() < usize::MAX,
        ensures
            final(self).original_buffer@ == old(self).original_buffer@,
            final(self).add_buffer@ == old(self).add_buffer@,
            final(self).length == old(self).length,
            final(self).line_starts@ == old(self).line_starts@,
            forall|m: int|
                0 <= m < final(self).piece_table@.len() ==> entry_wf(
                    old(self).original_buffer@,
                    old(self).add_buffer@.push(c),
                    #[trigger] final(self).piece_table@[m],
                ),
            cat(
                old(self).original_buffer@,
                old(self).add_buffer@.push(c),
                final(self).piece_table@,
            ) == old(self).content().insert(idx as int, c),
    {
        let entry_idx = if let Some(j) = self.find_entry(idx) {
            j
        } else {
            proof {
                assert(false);
            }
            unreached()
        };
        let offset = self.offset_of_entry(entry_idx);
        let k = idx - offset;
        if k == 0 {
            self.insert_piece_at_start(entry_idx, c);
        } else {
            self.insert_piece_split(entry_idx, k, c);
        }
    }

    /// Insert `c` at logical index `idx`.  The character goes at the end of
    /// the add buffer; the piece list is extended, split or grown around
    /// it; the line-start index is shifted, and gains `idx + 1` when `c`
    /// is a newline.
    pub fn insert(&mut self, idx: usize, c: char)
        requires
            old(self).wf(),
            idx <= old(self).length,
            old(self).length < usize::MAX,
            old(self).add_buffer@.len() < usize::MAX,
        ensures
            final(self).wf(),
            final(self).content() == old(self).content().insert(idx as int, c),
            final(self).length == old(self).length + 1,
            final(self).original_buffer@ == old(self).original_buffer@,
            final(self).add_buffer@ == old(self).add_buffer@.push(c),
            final(self).line_starts@.len() == old(self).line_starts@.len() + if c == '\n' {
                1int
            } else {
                0int
            },
    {
        let ghost og = self.original_buffer@;
        let ghost ad2 = self.add_buffer@.push(c);
        let ghost s = self.content();
        let ghost t = s.insert(idx as int, c);
        proof {
            s.insert_ensures(idx as int, c);
        }
        if idx == self.length {
            proof {
                assert(s.subrange(0, idx as int) =~= s);
                assert(s.subrange(idx as int, s.len() as int) =~= Seq::<char>::empty());
                assert(t =~= s.push(c));
            }
            self.insert_piece_end(c);
        } else {
            self.insert_piece_mid(idx, c);
        }
        // Record the character and the new length.
        self.add_buffer.push(c);
        self.length = self.length + 1;
        proof {
            assert(self.content() == t);
            assert(self.pieces_wf());
            assert(self.length == t.len());
        }
        // Maintain the line-start index.
        let ghost st0 = self.line_starts@;
        proof {
            assert forall|m: int| 0 <= m < st0.len() implies #[trigger] st0[m] < usize::MAX by {
                if m > 0 {
                    assert(st0[m] <= s.len());
                }
            }
        }
        bump_starts_after(&mut self.line_starts, idx);
        let ghost st1 = self.line_starts@;
        if c == '\n' {
            proof {
                assert forall|a: int, b: int|
                    #![trigger st1[a], st1[b]]
                    0 <= a < b < st1.len() implies st1[a] < st1[b] by {
                    assert(st0[a] < st0[b]);
                }
                assert forall|m: int| 0 <= m < st1.len() implies #[trigger] st1[m] != (idx
                    + 1) as usize by {
                    assert(st1[m] == bumped(st0[m], idx as int));
                }
            }
            let p = insert_start_sorted(&mut self.line_starts, idx + 1);
            proof {
                lemma_line_starts_insert_nl(s, st0, st1, self.line_starts@, idx as int, p as int);
            }
        } else {
            proof {
                lemma_line_starts_insert(s, st0, self.line_starts@, idx as int, c);
            }
        }
    }

    /// The piece-list step of a deletion: drop character `k` of piece
    /// `entry_idx` by trimming the piece at either end or splitting it in
    /// two around the character.
    #[verifier::rlimit(50)]
    fn delete_piece(&mut self, entry_idx: usize, k: usize)
        requires
            old(self).pieces_wf(),
            old(self).length == old(self).content().len(),
            entry_idx < old(self).piece_table@.len(),
            k < old(self).piece_table@[entry_idx as int].length,
        ensures
            final(self).original_buffer@ == old(self).original_buffer@,
            final(self).add_buffer@ == old(self).add_buffer@,
            final(self).length == old(self).length,
            final(self).line_starts@ == old(self).line_starts@,
            forall|m: int|
                0 <= m < final(self).piece_table@.len() ==> entry_wf(
                    old(self).original_buffer@,
                    old(self).add_buffer@,
                    #[trigger] final(self).piece_table@[m],
                ),
            cat(old(self).original_buffer@, old(self).add_buffer@, final(self).piece_table@)
                == old(self).content().remove(
                pieces_len(old(self).piece_table@.take(entry_idx as int)) + k,
            ),
    {
        let ghost og = self.original_buffer@;
        let ghost ad = self.add_buffer@;
        let ghost ps0 = self.piece_table@;
        let ghost s = self.content();
        let ghost j = entry_idx as int;
        let ghost idxg = pieces_len(ps0.take(j)) + k;
        let ghost t = s.remove(idxg);
        let ad_len = self.add_buffer.len();
        let og_len = self.original_buffer.len();
        let e = self.piece_table[entry_idx];
        proof {
            assert(entry_wf(og, ad, ps0[j]));
            if e.buffer == PieceTableBuffers::Original {
                assert(e.start_index + e.length <= og_len);
            } else {
                assert(e.start_index + e.length <= ad_len);
            }
            lemma_cat_len(og, ad, ps0);
            lemma_pieces_len_nonneg(ps0.take(j));
            lemma_pieces_len_take_succ(ps0, j);
            lemma_pieces_len_take_le(ps0, j + 1);
            s.remove_ensures(idxg);
            lemma_cat_split(og, ad, ps0, j);
            assert forall|m: int| 0 <= m < ps0.take(j).len() implies entry_wf(
                og,
                ad,
                #[trigger] ps0.take(j)[m],
            ) by {
                assert(ps0.take(j)[m] == ps0[m]);
            }
            assert forall|m: int| 0 <= m < ps0.skip(j + 1).len() implies entry_wf(
                og,
                ad,
                #[trigger] ps0.skip(j + 1)[m],
            ) by {
                assert(ps0.skip(j + 1)[m] == ps0[m + j + 1]);
            }
            lemma_cat_len(og, ad, ps0.take(j));
            assert(ps0.skip(j) =~= seq![e] + ps0.skip(j + 1));
            lemma_cat_app(og, ad, seq![e], ps0.skip(j + 1));
            lemma_cat_singleton(og, ad, e);
            // The document around the deleted character.
            assert(s.subrange(0, idxg) =~= cat(og, ad, ps0.take(j)) + entry_seq(
                og,
                ad,
                e,
            ).subrange(0, k as int));
            assert(s.subrange(idxg + 1, s.len() as int) =~= entry_seq(og, ad, e).subrange(
                k + 1,
                e.length as int,
            ) + cat(og, ad, ps0.skip(j + 1)));
        }
        if k == 0 {
            if e.length == 1 {
                self.piece_table.remove(entry_idx);
                proof {
                    let ps1 = self.piece_table@;
                    assert(ps1 =~= ps0.take(j) + ps0.skip(j + 1));
                    assert forall|m: int| 0 <= m < ps1.len() implies entry_wf(
                        og,
                        ad,
                        #[trigger] ps1[m],
                    ) by {
                        if m < j {
                            assert(ps1[m] == ps0[m]);
                        } else {
                            assert(ps1[m] == ps0[m + 1]);
                        }
                    }
                    lemma_cat_app(og, ad, ps0.take(j), ps0.skip(j + 1));
                    assert(entry_seq(og, ad, e).subrange(0, 0) =~= Seq::<char>::empty());
                    assert(entry_seq(og, ad, e).subrange(1, e.length as int) =~= Seq::<
                        char,
                    >::empty());
                    assert(cat(og, ad, ps1) =~= t);
                }
            } else {
                let e2 = PieceTableEntry {
                    buffer: e.buffer,
                    start_index: e.start_index + 1,
                    length: e.length - 1,
                };
                self.piece_table[entry_idx] = e2;
                proof {
                    let ps1 = self.piece_table@;
                    assert(ps1 =~= ps0.take(j) + seq![e2] + ps0.skip(j + 1));
                    assert forall|m: int| 0 <= m < ps1.len() implies entry_wf(
                        og,
                        ad,
                        #[trigger] ps1[m],
                    ) by {
                        if m != j {
                            assert(ps1[m] == ps0[m]);
                            assert(entry_wf(og, ad, ps0[m]));
                        }
                    }
                    lemma_cat_app(og, ad, ps0.take(j) + seq![e2], ps0.skip(j + 1));
                    lemma_cat_app(og, ad, ps0.take(j), seq![e2]);
                    lemma_cat_singleton(og, ad, e2);
                    assert(entry_seq(og, ad, e2) =~= entry_seq(og, ad, e).subrange(
                        1,
                        e.length as int,
                    ));
                    assert(entry_seq(og, ad, e).subrange(0, 0) =~= Seq::<char>::empty());
                    assert(cat(og, ad, ps1) =~= t);
                }
            }
        } else if k + 1 == e.length {
            let e2 = PieceTableEntry {
                buffer: e.buffer,
                start_index: e.start_index,
                length: e.length - 1,
            };
            self.piece_table[entry_idx] = e2;
            proof {
                let ps1 = self.piece_table@;
                assert(ps1 =~= ps0.take(j) + seq![e2] + ps0.skip(j + 1));
                assert forall|m: int| 0 <= m < ps1.len() implies entry_wf(
                    og,
                    ad,
                    #[trigger] ps1[m],
                ) by {
                    if m != j {
                        assert(ps1[m] == ps0[m]);
                        assert(entry_wf(og, ad, ps0[m]));
                    }
                }
                lemma_cat_app(og, ad, ps0.take(j) + seq![e2], ps0.skip(j + 1));
                lemma_cat_app(og, ad, ps0.take(j), seq![e2]);
                lemma_cat_singleton(og, ad, e2);
                assert(entry_seq(og, ad, e2) =~= entry_seq(og, ad, e).subrange(0, k as int));
                assert(entry_seq(og, ad, e).subrange(k + 1, e.length as int) =~= Seq::<
                    char,
                >::empty());
                assert(cat(og, ad, ps1) =~= t);
            }
        } else {
            let left_entry = PieceTableEntry {
                buffer: e.buffer,
                start_index: e.start_index,
                length: k,
            };
            let right_entry = PieceTableEntry {
                buffer: e.buffer,
                start_index: e.start_index + k + 1,
                length: e.length - k - 1,
            };
            self.piece_table[entry_idx] = right_entry;
            self.piece_table.insert(entry_idx, left_entry);
            proof {
                let ps1 = self.piece_table@;
                let mid = seq![left_entry, right_entry];
                assert(ps1 =~= ps0.take(j) + mid + ps0.skip(j + 1));
                assert forall|m: int| 0 <= m < ps1.len() implies entry_wf(
                    og,
                    ad,
                    #[trigger] ps1[m],
                ) by {
                    if m < j {
                        assert(ps1[m] == ps0[m]);
                        assert(entry_wf(og, ad, ps0[m]));
                    } else if m == j || m == j + 1 {
                        assert(entry_wf(og, ad, ps0[j]));
                    } else {
                        assert(ps1[m] == ps0[m - 1]);
                        assert(entry_wf(og, ad, ps0[m - 1]));
                    }
                }
                assert(mid =~= seq![left_entry] + seq![right_entry]);
                lemma_cat_app(og, ad, ps0.take(j) + mid, ps0.skip(j + 1));
                lemma_cat_app(og, ad, ps0.take(j), mid);
                lemma_cat_app(og, ad, seq![left_entry], seq![right_entry]);
                lemma_cat_singleton(og, ad, left_entry);
                lemma_cat_singleton(og, ad, right_entry);
                assert(entry_seq(og, ad, left_entry) =~= entry_seq(og, ad, e).subrange(
                    0,
                    k as int,
                ));
                assert(entry_seq(og, ad, right_entry) =~= entry_seq(og, ad, e).subrange(
                    k + 1,
                    e.length as int,
                ));
                assert(cat(og, ad, ps1) =~= t);
            }
        }
    }

    /// Delete the character at logical index `idx`.  The piece list is
    /// trimmed or split around it; the line-start index is shifted, and
    /// loses the entry `idx + 1` when the character was a newline.
    pub fn delete(&mut self, idx: usize)
        requires
            old(self).wf(),
            idx < old(self).length,
        ensures
            final(self).wf(),
            final(self).content() == old(self).content().remove(idx as int),
            final(self).length == old(self).length - 1,
            final(self).original_buffer@ == old(self).original_buffer@,
            final(self).add_buffer@ == old(self).add_buffer@,
            final(self).line_starts@.len() == old(self).line_starts@.len() - if old(
                self,
            ).content()[idx as int] == '\n' {
                1int
            } else {
                0int
            },
    {
        let ghost s = self.content();
        let ghost t = s.remove(idx as int);
        let entry_idx = if let Some(j) = self.find_entry(idx) {
            j
        } else {
            proof {
                assert(false);
            }
            unreached()
        };
        let ch = self.index(idx);
        let offset = self.offset_of_entry(entry_idx);
        let k = idx - offset;
        self.delete_piece(entry_idx, k);
        self.length = self.length - 1;
        proof {
            s.remove_ensures(idx as int);
            assert(self.content() == t);
            assert(self.pieces_wf());
            assert(self.length == t.len());
        }
        let ghost st0 = self.line_starts@;
        if ch == '\n' {
            proof {
                assert(st0.contains((idx + 1) as usize));
            }
            let p = remove_start(&mut self.line_starts, idx + 1);
            let ghost str0 = self.line_starts@;
            drop_starts_after(&mut self.line_starts, idx);
            proof {
                lemma_line_starts_delete_nl(s, st0, str0, self.line_starts@, idx as int, p as int);
            }
        } else {
            drop_starts_after(&mut self.line_starts, idx);
            proof {
                lemma_line_starts_delete(s, st0, self.line_starts@, idx as int);
            }
        }
    }

    /// The logical character count.
    pub fn len(&self) -> (r: usize)
        ensures
            r == self.length,
    {
        self.length
    }

    /// Whether the buffer holds no characters.
    pub fn is_empty(&self) -> (r: bool)
        ensures
            r == (self.length == 0),
    {
        self.length == 0
    }

    /// The number of lines, i.e. the number of line-start entries.
    pub fn lines(&self) -> (r: usize)
        ensures
            r == self.line_starts@.len(),
    {
        self.line_starts.len()
    }

    /// One past the last character of line `n`: the position before the
    /// next line's start, or the end of the buffer for the last line.
    pub open spec fn line_end(self, n: int) -> int {
        if n + 1 < self.line_starts@.len() {
            self.line_starts@[n + 1] - 1
        } else {
            self.length as int
        }
    }

    /// The characters of line `n`, without its trailing newline.
    pub open spec fn line_seq(self, n: int) -> Seq<char> {
        self.content().subrange(self.line_starts@[n] as int, self.line_end(n))
    }

    /// The character count of line `n`.
    pub open spec fn line_len(self, n: int) -> int {
        self.line_end(n) - self.line_starts@[n]
    }

    /// The characters of line `line_number`, without its trailing newline,
    /// if there is such a line.
    pub fn get_line(&self, line_number: usize) -> (r: Option<Vec<char>>)
        requires
            self.wf(),
        ensures
            match r {
                Some(v) => line_number < self.line_starts@.len() && v@ == self.line_seq(
                    line_number as int,
                ),
                None => line_number >= self.line_starts@.len(),
            },
    {
        if line_number < self.line_starts.len() {
            let start = self.line_starts[line_number];
            let end = if line_number + 1 < self.line_starts.len() {
                self.line_starts[line_number + 1] - 1
            } else {
                self.length
            };
            proof {
                if line_number > 0 {
                    assert(self.line_starts@[line_number as int] <= self.content().len());
                }
                assert(start <= end);
                assert(end <= self.length);
            }
            let mut v: Vec<char> = Vec::new();
            let mut i = start;
            while i < end
                invariant
                    self.wf(),
                    line_number < self.line_starts@.len(),
                    start == self.line_starts@[line_number as int],
                    end == self.line_end(line_number as int),
                    start <= i <= end,
                    end <= self.length,
                    v@ == self.content().subrange(start as int, i as int),
                decreases end - i,
            {
                v.push(self.index(i));
                proof {
                    assert(self.content().subrange(start as int, i + 1 as int)
                        =~= self.content().subrange(start as int, i as int).push(
                        self.content()[i as int],
                    ));
                }
                i = i + 1;
            }
            Some(v)
        } else {
            None
        }
    }

    /// The character count of line `line_number`, if there is such a line:
    /// the gap to the next line's start for non-last lines, the distance
    /// to the end of the buffer for the last.
    pub fn get_line_length(&self, line_number: usize) -> (r: Option<usize>)
        requires
            self.wf(),
        ensures
            match r {
                Some(l) => line_number < self.line_starts@.len() && l == self.line_len(
                    line_number as int,
                ),
                None => line_number >= self.line_starts@.len(),
            },
    {
        if line_number < self.line_starts.len() {
            proof {
                if line_number > 0 {
                    assert(self.line_starts@[line_number as int] <= self.content().len());
                }
            }
            if line_number + 1 < self.line_starts.len() {
                Some(self.line_starts[line_number + 1] - self.line_starts[line_number] - 1)
            } else {
                Some(self.length - self.line_starts[line_number])
            }
        } else {
            None
        }
    }

    /// The logical index at which line `line_number` begins, if there is
    /// such a line.
    pub fn get_line_offset(&self, line_number: usize) -> (r: Option<usize>)
        ensures
            r == if line_number < self.line_starts@.len() {
                Some(self.line_starts@[line_number as int])
            } else {
                Option::<usize>::None
            },
    {
        if line_number < self.line_starts.len() {
            Some(self.line_starts[line_number])
        } else {
            None
        }
    }

}

/// The recorded length of a well-formed table is the sum of its pieces'
/// lengths, which is also its content's length.
pub proof fn lemma_length_is_piece_sum(pt: PieceTable)
    requires
        pt.wf(),
    ensures
        pt.length == pieces_len(pt.piece_table@),
        pt.length == pt.content().len(),
{
    lemma_cat_len(pt.original_buffer@, pt.add_buffer@, pt.piece_table@);
}

/// No piece of a well-formed table has length 0.
pub proof fn lemma_no_empty_piece(pt: PieceTable, j: int)
    requires
        pt.wf(),
        0 <= j < pt.piece_table@.len(),
    ensures
        pt.piece_table@[j].length > 0,
{
    assert(entry_wf(pt.original_buffer@, pt.add_buffer@, pt.piece_table@[j]));
}

/// The line-start index of a well-formed table holds exactly the line
/// beginnings of its content: 0, and every position one past a newline.
pub proof fn lemma_line_starts_exact(pt: PieceTable)
    requires
        pt.wf(),
    ensures
        forall|v: usize| pt.line_starts@.contains(v) <==> is_line_begin(pt.content(), v as int),
{
    let s = pt.content();
    let st = pt.line_starts@;
    assert forall|v: usize| st.contains(v) implies is_line_begin(s, v as int) by {
        let k = choose|k: int| 0 <= k < st.len() && st[k] == v;
        if k == 0 {
            assert(v == 0);
        } else {
            assert(0 < st[k] <= s.len() && s[st[k] - 1] == '\n');
        }
    }
    assert forall|v: usize| is_line_begin(s, v as int) implies st.contains(v) by {
        if v == 0 {
            assert(st[0] == v);
        } else {
            assert(s[v - 1] == '\n');
            assert(st.contains((v - 1 + 1) as usize));
        }
    }
}

/// The length of a line of a well-formed table is the length of its
/// character sequence.
pub proof fn lemma_line_len_is_line_seq_len(pt: PieceTable, n: int)
    requires
        pt.wf(),
        0 <= n < pt.line_starts@.len(),
    ensures
        pt.line_len(n) == pt.line_seq(n).len(),
{
    if n > 0 {
        assert(pt.line_starts@[n] <= pt.content().len());
    }
    if n + 1 < pt.line_starts@.len() {
        assert(pt.line_starts@[n] < pt.line_starts@[n + 1]);
        assert(pt.line_starts@[n + 1] <= pt.content().len());
    }
}

/// Inserting a character and then deleting at the same index restores the
/// text: with the contracts of `insert` and `delete`, a table's content,
/// and so its length, return to what they were.
pub proof fn lemma_insert_delete_round_trip(s: Seq<char>, i: int, c: char)
    requires
        0 <= i <= s.len(),
    ensures
        s.insert(i, c).remove(i) == s,
        s.insert(i, c).len() == s.len() + 1,
{
    s.insert_ensures(i, c);
    s.insert(i, c).remove_ensures(i);
    assert(s.insert(i, c).remove(i) =~= s);
}

/// The lines of `s`, split on newlines: every `'\n'` ends a line, and
/// what follows the last newline is a line, possibly empty.
pub open spec fn split_lines(s: Seq<char>) -> Seq<Seq<char>>
    decreases s.len(),
{
    if s.len() == 0 {
        seq![s]
    } else if s[0] == '\n' {
        seq![Seq::<char>::empty()] + split_lines(s.drop_first())
    } else {
        let rest = split_lines(s.drop_first());
        seq![seq![s[0]] + rest.first()] + rest.drop_first()
    }
}

proof fn lemma_split_lines_len(s: Seq<char>)
    ensures
        split_lines(s).len() >= 1,
    decreases s.len(),
{
    if s.len() > 0 {
        lemma_split_lines_len(s.drop_first());
    }
}

/// A text without newlines splits into itself alone.
proof fn lemma_split_lines_free(s: Seq<char>)
    requires
        forall|p: int| 0 <= p < s.len() ==> s[p] != '\n',
    ensures
        split_lines(s) == seq![s],
    decreases s.len(),
{
    if s.len() == 0 {
    } else {
        assert(s[0] != '\n');
        assert(forall|p: int| 0 <= p < s.drop_first().len() ==> s.drop_first()[p] != '\n') by {
            assert forall|p: int|
                0 <= p < s.drop_first().len() implies s.drop_first()[p] != '\n' by {
                assert(s.drop_first()[p] == s[p + 1]);
            }
        }
        lemma_split_lines_free(s.drop_first());
        lemma_split_lines_len(s.drop_first());
        assert(seq![s.drop_first()].first() == s.drop_first());
        assert(seq![s[0]] + s.drop_first() =~= s);
        assert(seq![s.drop_first()].drop_first() =~= Seq::<Seq<char>>::empty());
        assert(split_lines(s) =~= seq![s]);
    }
}

/// Splitting peels the first line: up to the first newline, then the
/// split of what follows it.
proof fn lemma_split_lines_first(s: Seq<char>, m: int)
    requires
        0 <= m < s.len(),
        s[m] == '\n',
        forall|p: int| 0 <= p < m ==> s[p] != '\n',
    ensures
        split_lines(s) == seq![s.take(m)] + split_lines(s.skip(m + 1)),
    decreases m,
{
    if m == 0 {
        assert(s.take(0) =~= Seq::<char>::empty());
        assert(s.drop_first() =~= s.skip(1));
    } else {
        assert(s[0] != '\n');
        let d = s.drop_first();
        assert(d[m - 1] == s[m]);
        assert(forall|p: int| 0 <= p < m - 1 ==> d[p] != '\n') by {
            assert forall|p: int| 0 <= p < m - 1 implies d[p] != '\n' by {
                assert(d[p] == s[p + 1]);
            }
        }
        lemma_split_lines_first(d, m - 1);
        lemma_split_lines_len(d.skip(m));
        assert(d.skip(m) =~= s.skip(m + 1));
        let rest = split_lines(d);
        assert(rest == seq![d.take(m - 1)] + split_lines(d.skip(m)));
        assert(rest.first() == d.take(m - 1));
        assert(seq![s[0]] + d.take(m - 1) =~= s.take(m));
        assert(rest.drop_first() =~= split_lines(d.skip(m)));
        assert(split_lines(s) =~= seq![s.take(m)] + split_lines(s.skip(m + 1)));
    }
}

/// The end of line `n` as the start index records it.
pub open spec fn line_end_at(s: Seq<char>, st: Seq<usize>, n: int) -> int {
    if n + 1 < st.len() {
        st[n + 1] - 1
    } else {
        s.len() as int
    }
}

/// A correct line-start index names exactly the lines of the split: as
/// many entries as lines, each line running from its start to the next
/// start's newline, or to the end of the text.
proof fn lemma_split_lines_match(s: Seq<char>, st: Seq<usize>)
    requires
        line_starts_wf(s, st),
        s.len() <= usize::MAX,
    ensures
        split_lines(s).len() == st.len(),
        forall|n: int|
            0 <= n < st.len() ==> #[trigger] split_lines(s)[n] == s.subrange(
                st[n] as int,
                line_end_at(s, st, n),
            ),
    decreases st.len(),
{
    if st.len() == 1 {
        assert(forall|p: int| 0 <= p < s.len() ==> s[p] != '\n') by {
            assert forall|p: int| 0 <= p < s.len() implies s[p] != '\n' by {
                if s[p] == '\n' {
                    let k = choose|k: int| 0 <= k < st.len() && st[k] == (p + 1) as usize;
                    assert(st[k] == 0);
                }
            }
        }
        lemma_split_lines_free(s);
        assert(split_lines(s)[0] == s);
        assert(s.subrange(st[0] as int, line_end_at(s, st, 0)) =~= s);
    } else {
        let m = st[1] - 1;
        assert(0 < st[1] <= s.len() && s[st[1] - 1] == '\n');
        assert(forall|p: int| 0 <= p < m ==> s[p] != '\n') by {
            assert forall|p: int| 0 <= p < m implies s[p] != '\n' by {
                if s[p] == '\n' {
                    let k = choose|k: int| 0 <= k < st.len() && st[k] == (p + 1) as usize;
                    assert(k != 0);
                    assert(st[k] >= st[1]) by {
                        if k > 1 {
                            assert(st[1] < st[k]);
                        }
                    }
                }
            }
        }
        lemma_split_lines_first(s, m);
        let s2 = s.skip(st[1] as int);
        let st2 = Seq::<usize>::new((st.len() - 1) as nat, |k: int| (st[k + 1] - st[1]) as usize);
        assert(line_starts_wf(s2, st2)) by {
            assert(st2[0] == 0);
            assert forall|a: int, b: int|
                #![trigger st2[a], st2[b]]
                0 <= a < b < st2.len() implies st2[a] < st2[b] by {
                assert(st[a + 1] < st[b + 1]);
            }
            assert forall|a: int| 0 < a < st2.len() implies 0 < #[trigger] st2[a] <= s2.len()
                && s2[st2[a] - 1] == '\n' by {
                assert(st[1] < st[a + 1]);
                assert(0 < st[a + 1] <= s.len() && s[st[a + 1] - 1] == '\n');
                assert(s2[st2[a] - 1] == s[st[a + 1] - 1]);
            }
            assert forall|p: int| 0 <= p < s2.len() && #[trigger] s2[p] == '\n' implies
                st2.contains((p + 1) as usize) by {
                assert(s[p + st[1]] == '\n');
                let k = choose|k: int| 0 <= k < st.len() && #[trigger] st[k] == (p + st[1]
                    + 1) as usize;
                assert(st[k] == p + st[1] + 1);
                assert(k != 0);
                assert(k != 1) by {
                    if k == 1 {
                        assert(st[1] == p + st[1] + 1);
                    }
                }
                assert(k >= 2);
                assert(st2[k - 1] == (p + 1) as usize);
            }
        }
        lemma_split_lines_match(s2, st2);
        assert(split_lines(s).len() == 1 + split_lines(s2).len());
        assert forall|n: int| 0 <= n < st.len() implies #[trigger] split_lines(s)[n]
            == s.subrange(st[n] as int, line_end_at(s, st, n)) by {
            if n == 0 {
                assert(split_lines(s)[0] == s.take(m));
                assert(s.take(m) =~= s.subrange(st[0] as int, line_end_at(s, st, 0)));
            } else {
                assert(split_lines(s)[n] == split_lines(s2)[n - 1]);
                assert(split_lines(s2)[n - 1] == s2.subrange(
                    st2[n - 1] as int,
                    line_end_at(s2, st2, n - 1),
                ));
                assert(st2[n - 1] == st[n] - st[1]);
                if n + 1 < st.len() {
                    assert(line_end_at(s2, st2, n - 1) == st[n + 1] - st[1] - 1);
                } else {
                    assert(line_end_at(s2, st2, n - 1) == s2.len());
                }
                assert(s2.subrange(st2[n - 1] as int, line_end_at(s2, st2, n - 1)) =~= s.subrange(
                    st[n] as int,
                    line_end_at(s, st, n),
                ));
            }
        }
    }
}

/// Every line a well-formed table hands out is the corresponding line of
/// its content split on newlines, and there are as many lines as the
/// split has.
pub proof fn lemma_get_line_matches_split(pt: PieceTable, n: int)
    requires
        pt.wf(),
        0 <= n < pt.line_starts@.len(),
    ensures
        split_lines(pt.content()).len() == pt.line_starts@.len(),
        pt.line_seq(n) == split_lines(pt.content())[n],
{
    lemma_split_lines_match(pt.content(), pt.line_starts@);
}

} // verus!
