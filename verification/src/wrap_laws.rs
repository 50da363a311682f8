//! Laws of the line wrapper.
//!
//! Two guarantees are proved here about [`crate::wrap::wrap_spec`]:
//!
//! * losslessness — re-tokenizing the wrapped lines loses, reorders and
//!   invents no content: the words of the joined output are exactly the
//!   input words, each either intact or split into chunks whose
//!   concatenation is the word again;
//! * idempotence — joining the wrapped lines with single spaces and
//!   wrapping again at the same width yields the same lines.

use vstd::prelude::*;
use crate::wrap::{chunk_rem, chunks_of, flushed, is_wsp, lemma_chunks_wf, lemma_wf_words_concat,
    lemma_words_wf, wf_word, wf_words, words_acc, words_of, wrap_spec, wrap_words};

verus! {

/// The lines joined by single spaces.
pub open spec fn join_sp(lines: Seq<Seq<char>>) -> Seq<char>
    decreases lines.len(),
{
    if lines.len() == 0 {
        Seq::empty()
    } else if lines.len() == 1 {
        lines[0]
    } else {
        lines[0] + seq![' '] + join_sp(lines.drop_first())
    }
}

/// The words of each line, in order, flattened.
pub open spec fn rewords(lines: Seq<Seq<char>>) -> Seq<Seq<char>>
    decreases lines.len(),
{
    if lines.len() == 0 {
        Seq::empty()
    } else {
        words_of(lines[0]) + rewords(lines.drop_first())
    }
}

/// What one word contributes to the re-tokenized wrap output: itself when
/// it fits, else its full chunks and its non-empty remainder.
pub open spec fn split_word(w: Seq<char>, width: int) -> Seq<Seq<char>> {
    if w.len() >= width {
        chunks_of(w, width) + flushed(chunk_rem(w, width))
    } else {
        seq![w]
    }
}

/// Every word's contribution, in order.
pub open spec fn flat_words(ws: Seq<Seq<char>>, width: int) -> Seq<Seq<char>>
    decreases ws.len(),
{
    if ws.len() == 0 {
        Seq::empty()
    } else {
        split_word(ws[0], width) + flat_words(ws.drop_first(), width)
    }
}

/// The concatenation of a run of pieces.
pub open spec fn concat_all(ss: Seq<Seq<char>>) -> Seq<char>
    decreases ss.len(),
{
    if ss.len() == 0 {
        Seq::empty()
    } else {
        ss[0] + concat_all(ss.drop_first())
    }
}

/// An open line together with the words it was packed from.
pub open spec fn join_onto(cur: Seq<char>, cs: Seq<Seq<char>>) -> Seq<char> {
    if cs.len() == 0 {
        cur
    } else if cur.len() == 0 {
        join_sp(cs)
    } else {
        cur + seq![' '] + join_sp(cs)
    }
}

proof fn lemma_wf_words_drop_first(ws: Seq<Seq<char>>)
    requires
        wf_words(ws),
        ws.len() > 0,
    ensures
        wf_words(ws.drop_first()),
{
    assert forall|i: int| 0 <= i < ws.drop_first().len() implies wf_word(
        #[trigger] ws.drop_first()[i],
    ) by {
        assert(ws.drop_first()[i] == ws[i + 1]);
    }
}

proof fn lemma_wf_words_push(cs: Seq<Seq<char>>, w: Seq<char>)
    requires
        wf_words(cs),
        wf_word(w),
    ensures
        wf_words(cs.push(w)),
{
    assert forall|i: int| 0 <= i < cs.push(w).len() implies wf_word(#[trigger] cs.push(w)[i]) by {
        if i < cs.len() {
            assert(cs.push(w)[i] == cs[i]);
        } else {
            assert(cs.push(w)[i] == w);
        }
    }
}

/// A join of well-formed words is at least as long as its first word.
proof fn lemma_join_len(cs: Seq<Seq<char>>)
    requires
        wf_words(cs),
        cs.len() > 0,
    ensures
        join_sp(cs).len() >= cs[0].len(),
        join_sp(cs).len() >= 1,
    decreases cs.len(),
{
    assert(wf_word(cs[0]));
    if cs.len() > 1 {
        lemma_wf_words_drop_first(cs);
        lemma_join_len(cs.drop_first());
    }
}

/// Joining after a push appends the word behind one space.
proof fn lemma_join_push(cs: Seq<Seq<char>>, w: Seq<char>)
    ensures
        join_sp(cs.push(w)) == (if cs.len() == 0 {
            w
        } else {
            join_sp(cs) + seq![' '] + w
        }),
    decreases cs.len(),
{
    let p = cs.push(w);
    if cs.len() == 0 {
        assert(p.len() == 1);
        assert(p[0] == w);
    } else {
        assert(p.len() >= 2);
        assert(p[0] == cs[0]);
        assert(p.drop_first() =~= cs.drop_first().push(w));
        lemma_join_push(cs.drop_first(), w);
        if cs.len() == 1 {
            assert(cs.drop_first().len() == 0);
            assert(join_sp(p) == cs[0] + seq![' '] + w);
            assert(join_sp(cs) == cs[0]);
        } else {
            assert(join_sp(p) == cs[0] + seq![' '] + (join_sp(cs.drop_first()) + seq![' '] + w));
            assert(join_sp(cs) == cs[0] + seq![' '] + join_sp(cs.drop_first()));
            assert(cs[0] + seq![' '] + (join_sp(cs.drop_first()) + seq![' '] + w) =~= (cs[0]
                + seq![' '] + join_sp(cs.drop_first())) + seq![' '] + w);
        }
    }
}

/// Tokenization distributes over a single-space separator.
proof fn lemma_words_acc_sep(a: Seq<char>, b: Seq<char>, cur: Seq<char>)
    ensures
        words_acc(a + seq![' '] + b, cur) == words_acc(a, cur) + words_of(b),
    decreases a.len(),
{
    let s = a + seq![' '] + b;
    if a.len() == 0 {
        assert(s =~= seq![' '] + b);
        assert(s.len() >= 1);
        assert(s[0] == ' ');
        assert(is_wsp(s[0]));
        assert(s.drop_first() =~= b);
        assert(words_acc(a, cur) == flushed(cur));
    } else {
        assert(s.len() >= 1);
        assert(s[0] == a[0]);
        assert(s.drop_first() =~= a.drop_first() + seq![' '] + b);
        if is_wsp(a[0]) {
            lemma_words_acc_sep(a.drop_first(), b, Seq::empty());
            assert(flushed(cur) + (words_acc(a.drop_first(), Seq::empty()) + words_of(b)) =~= (
            flushed(cur) + words_acc(a.drop_first(), Seq::empty())) + words_of(b));
        } else {
            lemma_words_acc_sep(a.drop_first(), b, cur.push(a[0]));
        }
    }
}

/// A whitespace-free run tokenizes to the pending word extended by it.
proof fn lemma_words_acc_nonws(s: Seq<char>, cur: Seq<char>)
    requires
        forall|j: int| 0 <= j < s.len() ==> !is_wsp(#[trigger] s[j]),
    ensures
        words_acc(s, cur) == flushed(cur + s),
    decreases s.len(),
{
    if s.len() == 0 {
        assert(cur + s =~= cur);
    } else {
        assert(!is_wsp(s[0]));
        assert forall|j: int| 0 <= j < s.drop_first().len() implies !is_wsp(
            #[trigger] s.drop_first()[j],
        ) by {
            assert(s.drop_first()[j] == s[j + 1]);
        }
        lemma_words_acc_nonws(s.drop_first(), cur.push(s[0]));
        assert(cur.push(s[0]) + s.drop_first() =~= cur + s);
    }
}

/// A well-formed word is one token.
proof fn lemma_words_of_word(w: Seq<char>)
    requires
        wf_word(w),
    ensures
        words_of(w) == seq![w],
{
    lemma_words_acc_nonws(w, Seq::empty());
    assert(Seq::<char>::empty() + w =~= w);
}

/// Tokenizing a single-space join of well-formed words gives them back.
proof fn lemma_words_of_join(cs: Seq<Seq<char>>)
    requires
        wf_words(cs),
        cs.len() > 0,
    ensures
        words_of(join_sp(cs)) == cs,
    decreases cs.len(),
{
    assert(wf_word(cs[0]));
    if cs.len() == 1 {
        lemma_words_of_word(cs[0]);
        assert(join_sp(cs) == cs[0]);
        assert(seq![cs[0]] =~= cs);
    } else {
        lemma_wf_words_drop_first(cs);
        lemma_words_of_join(cs.drop_first());
        lemma_words_acc_sep(cs[0], join_sp(cs.drop_first()), Seq::empty());
        lemma_words_of_word(cs[0]);
        assert(seq![cs[0]] + cs.drop_first() =~= cs);
    }
}

/// Tokenizing the single-space join of any lines tokenizes each line.
proof fn lemma_words_of_join_lines(ls: Seq<Seq<char>>)
    ensures
        words_of(join_sp(ls)) == rewords(ls),
    decreases ls.len(),
{
    if ls.len() == 0 {
    } else if ls.len() == 1 {
        assert(ls.drop_first() =~= Seq::<Seq<char>>::empty());
        assert(words_of(ls[0]) + rewords(ls.drop_first()) =~= words_of(ls[0]));
    } else {
        lemma_words_of_join_lines(ls.drop_first());
        lemma_words_acc_sep(ls[0], join_sp(ls.drop_first()), Seq::empty());
    }
}

proof fn lemma_rewords_concat(a: Seq<Seq<char>>, b: Seq<Seq<char>>)
    ensures
        rewords(a + b) == rewords(a) + rewords(b),
    decreases a.len(),
{
    if a.len() == 0 {
        assert(a + b =~= b);
        assert(rewords(a) + rewords(b) =~= rewords(b));
    } else {
        assert((a + b).len() > 0);
        assert((a + b)[0] == a[0]);
        assert((a + b).drop_first() =~= a.drop_first() + b);
        lemma_rewords_concat(a.drop_first(), b);
        assert(words_of(a[0]) + (rewords(a.drop_first()) + rewords(b)) =~= (words_of(a[0])
            + rewords(a.drop_first())) + rewords(b));
    }
}

/// Lines that are single well-formed words re-tokenize to themselves.
proof fn lemma_rewords_words(ls: Seq<Seq<char>>)
    requires
        wf_words(ls),
    ensures
        rewords(ls) == ls,
    decreases ls.len(),
{
    if ls.len() > 0 {
        assert(wf_word(ls[0]));
        lemma_words_of_word(ls[0]);
        lemma_wf_words_drop_first(ls);
        lemma_rewords_words(ls.drop_first());
        assert(seq![ls[0]] + ls.drop_first() =~= ls);
    }
}

/// The chunks and the remainder of a whitespace-free word are
/// whitespace-free, and the chunks are non-empty.
proof fn lemma_chunks_wf_words(w: Seq<char>, width: int)
    requires
        width >= 1,
        forall|j: int| 0 <= j < w.len() ==> !is_wsp(#[trigger] w[j]),
    ensures
        wf_words(chunks_of(w, width)),
        forall|j: int|
            0 <= j < chunk_rem(w, width).len() ==> !is_wsp(#[trigger] chunk_rem(w, width)[j]),
    decreases w.len(),
{
    if w.len() >= width {
        assert forall|j: int| 0 <= j < w.skip(width).len() implies !is_wsp(
            #[trigger] w.skip(width)[j],
        ) by {
            assert(w.skip(width)[j] == w[j + width]);
        }
        lemma_chunks_wf_words(w.skip(width), width);
        let head = w.take(width);
        assert forall|j: int| 0 <= j < head.len() implies !is_wsp(#[trigger] head[j]) by {
            assert(head[j] == w[j]);
        }
        assert(wf_word(head));
        assert forall|i: int| 0 <= i < seq![head].len() implies wf_word(#[trigger] seq![head][i]) by {
            assert(seq![head][i] == head);
        }
        lemma_wf_words_concat(seq![head], chunks_of(w.skip(width), width));
        assert(chunk_rem(w, width) == chunk_rem(w.skip(width), width));
        assert forall|j: int| 0 <= j < chunk_rem(w, width).len() implies !is_wsp(
            #[trigger] chunk_rem(w, width)[j],
        ) by {
            assert(chunk_rem(w, width)[j] == chunk_rem(w.skip(width), width)[j]);
        }
    } else {
        assert(chunk_rem(w, width) == w);
        assert forall|j: int| 0 <= j < chunk_rem(w, width).len() implies !is_wsp(
            #[trigger] chunk_rem(w, width)[j],
        ) by {
            assert(chunk_rem(w, width)[j] == w[j]);
        }
    }
}

/// The chunks and the remainder of a word concatenate back to the word.
pub proof fn lemma_chunks_concat(w: Seq<char>, width: int)
    requires
        width >= 1,
    ensures
        concat_all(chunks_of(w, width)) + chunk_rem(w, width) == w,
    decreases w.len(),
{
    if w.len() >= width {
        lemma_chunks_concat(w.skip(width), width);
        let c = chunks_of(w, width);
        assert(c[0] == w.take(width));
        assert(c.drop_first() =~= chunks_of(w.skip(width), width));
        assert(concat_all(c) == w.take(width) + concat_all(chunks_of(w.skip(width), width)));
        assert((w.take(width) + concat_all(chunks_of(w.skip(width), width))) + chunk_rem(w, width)
            =~= w.take(width) + (concat_all(chunks_of(w.skip(width), width)) + chunk_rem(
            w.skip(width),
            width,
        )));
        assert(w.take(width) + w.skip(width) =~= w);
    } else {
        assert(concat_all(chunks_of(w, width)) + chunk_rem(w, width) =~= w);
    }
}

/// The pieces a word contributes concatenate back to the word: hard
/// splitting loses no character.
pub proof fn lemma_split_word_concat(w: Seq<char>, width: int)
    requires
        width >= 1,
    ensures
        concat_all(split_word(w, width)) == w,
{
    if w.len() >= width {
        lemma_chunks_concat(w, width);
        let rem = chunk_rem(w, width);
        lemma_concat_all_append(chunks_of(w, width), flushed(rem));
        if rem.len() == 0 {
            assert(concat_all(flushed(rem)) =~= Seq::<char>::empty());
            assert(concat_all(chunks_of(w, width)) + Seq::<char>::empty() =~= concat_all(
                chunks_of(w, width),
            ));
            assert(concat_all(chunks_of(w, width)) + rem =~= concat_all(chunks_of(w, width)));
        } else {
            assert(flushed(rem) == seq![rem]);
            assert(flushed(rem)[0] == rem);
            assert(flushed(rem).drop_first() =~= Seq::<Seq<char>>::empty());
            assert(concat_all(Seq::<Seq<char>>::empty()) == Seq::<char>::empty());
            assert(concat_all(flushed(rem)) =~= rem + Seq::<char>::empty());
            assert(rem + Seq::<char>::empty() =~= rem);
        }
    } else {
        assert(split_word(w, width)[0] == w);
        assert(split_word(w, width).drop_first() =~= Seq::<Seq<char>>::empty());
        assert(concat_all(Seq::<Seq<char>>::empty()) == Seq::<char>::empty());
        assert(concat_all(split_word(w, width)) =~= w + Seq::<char>::empty());
        assert(w + Seq::<char>::empty() =~= w);
    }
}

proof fn lemma_concat_all_append(a: Seq<Seq<char>>, b: Seq<Seq<char>>)
    ensures
        concat_all(a + b) == concat_all(a) + concat_all(b),
    decreases a.len(),
{
    if a.len() == 0 {
        assert(a + b =~= b);
        assert(concat_all(a) + concat_all(b) =~= concat_all(b));
    } else {
        assert((a + b)[0] == a[0]);
        assert((a + b).drop_first() =~= a.drop_first() + b);
        lemma_concat_all_append(a.drop_first(), b);
        assert(a[0] + (concat_all(a.drop_first()) + concat_all(b)) =~= (a[0] + concat_all(
            a.drop_first(),
        )) + concat_all(b));
    }
}

/// Wrapping never loses, reorders or invents a word: the words of the
/// wrapped lines are the open line's words followed by each input word's
/// contribution.
proof fn lemma_wrap_rewords(ws: Seq<Seq<char>>, cs: Seq<Seq<char>>, width: int)
    requires
        width >= 1,
        wf_words(ws),
        wf_words(cs),
    ensures
        rewords(wrap_words(ws, width, join_sp(cs))) == cs + flat_words(ws, width),
    decreases ws.len(),
{
    let cur = join_sp(cs);
    if cs.len() > 0 {
        lemma_join_len(cs);
    }
    if ws.len() == 0 {
        if cs.len() == 0 {
            assert(cur.len() == 0);
            assert(cs + flat_words(ws, width) =~= Seq::<Seq<char>>::empty());
        } else {
            assert(cur.len() > 0);
            assert(wrap_words(ws, width, cur) == seq![cur]);
            lemma_words_of_join(cs);
            assert(seq![cur][0] == cur);
            assert(seq![cur].drop_first() =~= Seq::<Seq<char>>::empty());
            assert(rewords(Seq::<Seq<char>>::empty()) == Seq::<Seq<char>>::empty());
            assert(rewords(seq![cur]) =~= words_of(cur) + Seq::<Seq<char>>::empty());
            assert(words_of(cur) + Seq::<Seq<char>>::empty() =~= cs);
            assert(cs + flat_words(ws, width) =~= cs);
        }
    } else {
        let w = ws[0];
        assert(wf_word(w));
        lemma_wf_words_drop_first(ws);
        if w.len() >= width {
            lemma_chunks_wf(w, width);
            lemma_chunks_wf_words(w, width);
            let rem = chunk_rem(w, width);
            let chs = chunks_of(w, width);
            let cs2: Seq<Seq<char>> = if rem.len() == 0 {
                Seq::empty()
            } else {
                seq![rem]
            };
            if rem.len() > 0 {
                assert(wf_word(rem));
                assert forall|i: int| 0 <= i < cs2.len() implies wf_word(#[trigger] cs2[i]) by {
                    assert(cs2[i] == rem);
                }
                assert(join_sp(cs2) == rem);
            } else {
                assert(join_sp(cs2) =~= rem);
            }
            lemma_wrap_rewords(ws.drop_first(), cs2, width);
            let tail = wrap_words(ws.drop_first(), width, rem);
            assert(wrap_words(ws, width, cur) == flushed(cur) + chs + tail);
            lemma_rewords_concat(flushed(cur) + chs, tail);
            lemma_rewords_concat(flushed(cur), chs);
            lemma_rewords_words(chs);
            if cs.len() > 0 {
                assert(flushed(cur) == seq![cur]);
                lemma_words_of_join(cs);
                assert(seq![cur][0] == cur);
                assert(seq![cur].drop_first() =~= Seq::<Seq<char>>::empty());
                assert(rewords(Seq::<Seq<char>>::empty()) == Seq::<Seq<char>>::empty());
                assert(rewords(Seq::<Seq<char>>::empty()) == Seq::<Seq<char>>::empty());
            assert(rewords(seq![cur]) =~= words_of(cur) + Seq::<Seq<char>>::empty());
                assert(rewords(flushed(cur)) =~= cs);
            } else {
                assert(cur.len() == 0);
                assert(rewords(flushed(cur)) =~= cs);
            }
            assert(rewords(tail) == cs2 + flat_words(ws.drop_first(), width));
            assert(cs2 =~= flushed(rem));
            assert(split_word(w, width) == chs + flushed(rem));
            assert(flat_words(ws, width) == split_word(w, width) + flat_words(
                ws.drop_first(),
                width,
            ));
            assert(rewords(wrap_words(ws, width, cur)) =~= cs + flat_words(ws, width));
        } else {
            assert(split_word(w, width) == seq![w]);
            if cur.len() == 0 {
                assert(wrap_words(ws, width, cur) == wrap_words(ws.drop_first(), width, w));
                assert(join_sp(seq![w]) == w);
                assert forall|i: int| 0 <= i < seq![w].len() implies wf_word(
                    #[trigger] seq![w][i],
                ) by {
                    assert(seq![w][i] == w);
                }
                lemma_wrap_rewords(ws.drop_first(), seq![w], width);
                assert(cs =~= Seq::<Seq<char>>::empty());
                assert(seq![w] + flat_words(ws.drop_first(), width) =~= cs + flat_words(
                    ws,
                    width,
                ));
            } else if cur.len() + 1 + w.len() < width {
                lemma_join_push(cs, w);
                assert(join_sp(cs.push(w)) == cur + seq![' '] + w);
                lemma_wf_words_push(cs, w);
                lemma_wrap_rewords(ws.drop_first(), cs.push(w), width);
                assert(wrap_words(ws, width, cur) == wrap_words(
                    ws.drop_first(),
                    width,
                    cur + seq![' '] + w,
                ));
                assert(cs.push(w) + flat_words(ws.drop_first(), width) =~= cs + (seq![w]
                    + flat_words(ws.drop_first(), width)));
                assert(cs + (seq![w] + flat_words(ws.drop_first(), width)) =~= cs + flat_words(
                    ws,
                    width,
                ));
            } else {
                assert forall|i: int| 0 <= i < seq![w].len() implies wf_word(
                    #[trigger] seq![w][i],
                ) by {
                    assert(seq![w][i] == w);
                }
                assert(join_sp(seq![w]) == w);
                lemma_wrap_rewords(ws.drop_first(), seq![w], width);
                let tail = wrap_words(ws.drop_first(), width, w);
                assert(wrap_words(ws, width, cur) == seq![cur] + tail);
                lemma_rewords_concat(seq![cur], tail);
                lemma_words_of_join(cs);
                assert(seq![cur][0] == cur);
                assert(seq![cur].drop_first() =~= Seq::<Seq<char>>::empty());
                assert(rewords(Seq::<Seq<char>>::empty()) == Seq::<Seq<char>>::empty());
                assert(rewords(Seq::<Seq<char>>::empty()) == Seq::<Seq<char>>::empty());
            assert(rewords(seq![cur]) =~= words_of(cur) + Seq::<Seq<char>>::empty());
                assert(rewords(seq![cur]) =~= cs);
                assert(rewords(tail) == seq![w] + flat_words(ws.drop_first(), width));
                assert(rewords(wrap_words(ws, width, cur)) =~= cs + flat_words(ws, width));
            }
        }
    }
}

/// Consuming packed words from an empty line rebuilds the open line.
proof fn lemma_wrap_consume(cs: Seq<Seq<char>>, ws: Seq<Seq<char>>, cur: Seq<char>, width: int)
    requires
        width >= 1,
        wf_words(cs),
        cs.len() > 0 ==> join_onto(cur, cs).len() < width,
        cur.len() < width,
    ensures
        wrap_words(cs + ws, width, cur) == wrap_words(ws, width, join_onto(cur, cs)),
    decreases cs.len(),
{
    if cs.len() == 0 {
        assert(cs + ws =~= ws);
    } else {
        let c0 = cs[0];
        assert(wf_word(c0));
        lemma_join_len(cs);
        assert(join_sp(cs).len() <= join_onto(cur, cs).len());
        assert(c0.len() <= join_sp(cs).len());
        assert(c0.len() < width);
        assert((cs + ws).len() > 0);
        assert((cs + ws)[0] == c0);
        assert((cs + ws).drop_first() =~= cs.drop_first() + ws);
        lemma_wf_words_drop_first(cs);
        if cs.len() > 1 {
            assert(join_sp(cs) == cs[0] + seq![' '] + join_sp(cs.drop_first()));
        }
        if cur.len() == 0 {
            assert(wrap_words(cs + ws, width, cur) == wrap_words(
                cs.drop_first() + ws,
                width,
                c0,
            ));
            lemma_wrap_consume(cs.drop_first(), ws, c0, width);
            if cs.len() == 1 {
                assert(join_onto(c0, cs.drop_first()) == c0);
                assert(join_onto(cur, cs) == c0);
            } else {
                assert(join_onto(c0, cs.drop_first()) == c0 + seq![' '] + join_sp(
                    cs.drop_first(),
                ));
                assert(join_onto(cur, cs) == join_sp(cs));
            }
        } else {
            assert(join_onto(cur, cs) == cur + seq![' '] + join_sp(cs));
            assert(join_sp(cs).len() >= c0.len());
            assert(cur.len() + 1 + c0.len() < width);
            assert(wrap_words(cs + ws, width, cur) == wrap_words(
                cs.drop_first() + ws,
                width,
                cur + seq![' '] + c0,
            ));
            lemma_wrap_consume(cs.drop_first(), ws, cur + seq![' '] + c0, width);
            if cs.len() == 1 {
                assert(join_onto(cur + seq![' '] + c0, cs.drop_first()) == cur + seq![' '] + c0);
                assert(join_sp(cs) == c0);
            } else {
                assert(join_onto(cur + seq![' '] + c0, cs.drop_first()) == (cur + seq![' '] + c0)
                    + seq![' '] + join_sp(cs.drop_first()));
                assert((cur + seq![' '] + c0) + seq![' '] + join_sp(cs.drop_first()) =~= cur
                    + seq![' '] + (c0 + seq![' '] + join_sp(cs.drop_first())));
            }
        }
    }
}

/// Consuming a run of exact-width chunks emits each on its own line.
proof fn lemma_wrap_chunks(chunks: Seq<Seq<char>>, ws: Seq<Seq<char>>, cur: Seq<char>, width: int)
    requires
        width >= 1,
        chunks.len() > 0,
        forall|i: int| 0 <= i < chunks.len() ==> (#[trigger] chunks[i]).len() == width,
    ensures
        wrap_words(chunks + ws, width, cur) == flushed(cur) + chunks + wrap_words(
            ws,
            width,
            Seq::empty(),
        ),
    decreases chunks.len(),
{
    let c0 = chunks[0];
    assert(c0.len() == width);
    assert((chunks + ws).len() > 0);
    assert((chunks + ws)[0] == c0);
    assert((chunks + ws).drop_first() =~= chunks.drop_first() + ws);
    assert(c0.take(width) =~= c0);
    assert(c0.skip(width) =~= Seq::<char>::empty());
    assert(chunks_of(c0, width) =~= seq![c0] + chunks_of(Seq::<char>::empty(), width));
    assert(chunks_of(Seq::<char>::empty(), width) =~= Seq::<Seq<char>>::empty());
    assert(chunks_of(c0, width) =~= seq![c0]);
    assert(chunk_rem(c0, width) == chunk_rem(Seq::<char>::empty(), width));
    assert(chunk_rem(c0, width) =~= Seq::<char>::empty());
    assert(wrap_words(chunks + ws, width, cur) == flushed(cur) + chunks_of(c0, width)
        + wrap_words(chunks.drop_first() + ws, width, chunk_rem(c0, width)));
    if chunks.len() == 1 {
        assert(chunks.drop_first() =~= Seq::<Seq<char>>::empty());
        assert(chunks.drop_first() + ws =~= ws);
        assert(flushed(cur) + seq![c0] + wrap_words(ws, width, Seq::empty()) =~= flushed(cur)
            + chunks + wrap_words(ws, width, Seq::empty()));
    } else {
        assert forall|i: int| 0 <= i < chunks.drop_first().len() implies (#[trigger] chunks.drop_first()[i]).len()
            == width by {
            assert(chunks.drop_first()[i] == chunks[i + 1]);
        }
        lemma_wrap_chunks(chunks.drop_first(), ws, Seq::empty(), width);
        assert(flushed(Seq::<char>::empty()) =~= Seq::<Seq<char>>::empty());
        assert(flushed(cur) + seq![c0] + (chunks.drop_first() + wrap_words(
            ws,
            width,
            Seq::empty(),
        )) =~= flushed(cur) + chunks + wrap_words(ws, width, Seq::empty()));
        assert(flushed(cur) + seq![c0] + (Seq::<Seq<char>>::empty() + chunks.drop_first()
            + wrap_words(ws, width, Seq::empty())) =~= flushed(cur) + chunks + wrap_words(
            ws,
            width,
            Seq::empty(),
        ));
    }
}

/// Re-wrapping the words of a wrap's own output reproduces it line for
/// line.
proof fn lemma_rewrap(ws: Seq<Seq<char>>, cs: Seq<Seq<char>>, width: int)
    requires
        width >= 1,
        wf_words(ws),
        wf_words(cs),
        cs.len() > 0 ==> join_sp(cs).len() < width,
    ensures
        wrap_words(rewords(wrap_words(ws, width, join_sp(cs))), width, Seq::empty()) == wrap_words(
            ws,
            width,
            join_sp(cs),
        ),
    decreases ws.len(),
{
    let cur = join_sp(cs);
    if cs.len() > 0 {
        lemma_join_len(cs);
    }
    if ws.len() == 0 {
        if cs.len() == 0 {
            assert(cur.len() == 0);
            assert(wrap_words(ws, width, cur) =~= Seq::<Seq<char>>::empty());
        } else {
            assert(wrap_words(ws, width, cur) == seq![cur]);
            assert(seq![cur][0] == cur);
            assert(seq![cur].drop_first() =~= Seq::<Seq<char>>::empty());
            lemma_words_of_join(cs);
            assert(rewords(Seq::<Seq<char>>::empty()) == Seq::<Seq<char>>::empty());
            assert(rewords(seq![cur]) =~= words_of(cur) + Seq::<Seq<char>>::empty());
            assert(rewords(seq![cur]) =~= cs);
            lemma_wrap_consume(cs, Seq::empty(), Seq::empty(), width);
            assert(cs + Seq::<Seq<char>>::empty() =~= cs);
            assert(join_onto(Seq::empty(), cs) == cur);
            assert(wrap_words(cs, width, Seq::empty()) == wrap_words(
                Seq::<Seq<char>>::empty(),
                width,
                cur,
            ));
        }
    } else {
        let w = ws[0];
        assert(wf_word(w));
        lemma_wf_words_drop_first(ws);
        if w.len() >= width {
            lemma_chunks_wf(w, width);
            lemma_chunks_wf_words(w, width);
            let rem = chunk_rem(w, width);
            let chs = chunks_of(w, width);
            let cs2: Seq<Seq<char>> = if rem.len() == 0 {
                Seq::empty()
            } else {
                seq![rem]
            };
            if rem.len() > 0 {
                assert(wf_word(rem));
                assert forall|i: int| 0 <= i < cs2.len() implies wf_word(#[trigger] cs2[i]) by {
                    assert(cs2[i] == rem);
                }
                assert(join_sp(cs2) == rem);
            } else {
                assert(join_sp(cs2) =~= rem);
            }
            let tail = wrap_words(ws.drop_first(), width, rem);
            assert(wrap_words(ws, width, cur) == flushed(cur) + chs + tail);
            lemma_rewrap(ws.drop_first(), cs2, width);
            lemma_rewords_concat(flushed(cur) + chs, tail);
            lemma_rewords_concat(flushed(cur), chs);
            lemma_rewords_words(chs);
            if cs.len() > 0 {
                assert(flushed(cur) == seq![cur]);
                lemma_words_of_join(cs);
                assert(seq![cur][0] == cur);
                assert(seq![cur].drop_first() =~= Seq::<Seq<char>>::empty());
                assert(rewords(Seq::<Seq<char>>::empty()) == Seq::<Seq<char>>::empty());
                assert(rewords(Seq::<Seq<char>>::empty()) == Seq::<Seq<char>>::empty());
            assert(rewords(seq![cur]) =~= words_of(cur) + Seq::<Seq<char>>::empty());
                assert(rewords(flushed(cur)) =~= cs);
            } else {
                assert(cur.len() == 0);
                assert(rewords(flushed(cur)) =~= cs);
            }
            assert(rewords(wrap_words(ws, width, cur)) =~= cs + (chs + rewords(tail)));
            lemma_wrap_consume(cs, chs + rewords(tail), Seq::empty(), width);
            assert(cs + (chs + rewords(tail)) =~= (cs + chs) + rewords(tail));
            assert((cs + chs) + rewords(tail) =~= cs + (chs + rewords(tail)));
            assert(join_onto(Seq::empty(), cs) == cur);
            assert(wrap_words(cs + (chs + rewords(tail)), width, Seq::empty()) == wrap_words(
                chs + rewords(tail),
                width,
                cur,
            ));
            assert(chs.len() > 0);
            lemma_wrap_chunks(chs, rewords(tail), cur, width);
            assert(wrap_words(chs + rewords(tail), width, cur) == flushed(cur) + chs
                + wrap_words(rewords(tail), width, Seq::empty()));
            assert(wrap_words(rewords(tail), width, Seq::empty()) == tail);
            assert(wrap_words(rewords(wrap_words(ws, width, cur)), width, Seq::empty())
                == wrap_words(ws, width, cur));
        } else {
            if cur.len() == 0 {
                assert(wrap_words(ws, width, cur) == wrap_words(ws.drop_first(), width, w));
                assert forall|i: int| 0 <= i < seq![w].len() implies wf_word(
                    #[trigger] seq![w][i],
                ) by {
                    assert(seq![w][i] == w);
                }
                assert(join_sp(seq![w]) == w);
                lemma_rewrap(ws.drop_first(), seq![w], width);
            } else if cur.len() + 1 + w.len() < width {
                lemma_join_push(cs, w);
                lemma_wf_words_push(cs, w);
                assert(join_sp(cs.push(w)) == cur + seq![' '] + w);
                assert((cur + seq![' '] + w).len() < width);
                lemma_rewrap(ws.drop_first(), cs.push(w), width);
                assert(wrap_words(ws, width, cur) == wrap_words(
                    ws.drop_first(),
                    width,
                    cur + seq![' '] + w,
                ));
            } else {
                // The open line is flushed; the re-wrap must flush at the
                // same point, which needs the head of the remaining words.
                assert forall|i: int| 0 <= i < seq![w].len() implies wf_word(
                    #[trigger] seq![w][i],
                ) by {
                    assert(seq![w][i] == w);
                }
                assert(join_sp(seq![w]) == w);
                let tail = wrap_words(ws.drop_first(), width, w);
                assert(wrap_words(ws, width, cur) == seq![cur] + tail);
                lemma_rewrap(ws.drop_first(), seq![w], width);
                lemma_wrap_rewords(ws.drop_first(), seq![w], width);
                assert(rewords(tail) == seq![w] + flat_words(ws.drop_first(), width));
                assert(rewords(tail).len() > 0);
                assert(rewords(tail)[0] == w);
                lemma_rewords_concat(seq![cur], tail);
                lemma_words_of_join(cs);
                assert(seq![cur][0] == cur);
                assert(seq![cur].drop_first() =~= Seq::<Seq<char>>::empty());
                assert(rewords(Seq::<Seq<char>>::empty()) == Seq::<Seq<char>>::empty());
                assert(rewords(Seq::<Seq<char>>::empty()) == Seq::<Seq<char>>::empty());
            assert(rewords(seq![cur]) =~= words_of(cur) + Seq::<Seq<char>>::empty());
                assert(rewords(seq![cur]) =~= cs);
                assert(rewords(wrap_words(ws, width, cur)) =~= cs + rewords(tail));
                lemma_wrap_consume(cs, rewords(tail), Seq::empty(), width);
                assert(join_onto(Seq::empty(), cs) == cur);
                assert(wrap_words(cs + rewords(tail), width, Seq::empty()) == wrap_words(
                    rewords(tail),
                    width,
                    cur,
                ));
                // Unfold one step of each side around the flush.
                assert(rewords(tail).drop_first() == rewords(tail).drop_first());
                assert(!(cur.len() + 1 + w.len() < width));
                assert(wrap_words(rewords(tail), width, cur) == seq![cur] + wrap_words(
                    rewords(tail).drop_first(),
                    width,
                    w,
                ));
                assert(wrap_words(rewords(tail), width, Seq::empty()) == wrap_words(
                    rewords(tail).drop_first(),
                    width,
                    w,
                ));
                assert(wrap_words(rewords(tail), width, Seq::empty()) == tail);
            }
        }
    }
}

/// Words are never lost: re-tokenizing the joined wrap output gives each
/// input word back, split words as their chunks and remainder, in order.
pub proof fn lemma_wrap_preserves_words(text: Seq<char>, width: int)
    requires
        width >= 1,
    ensures
        words_of(join_sp(wrap_spec(text, width))) == flat_words(words_of(text), width),
{
    lemma_words_wf(text);
    let ws = words_of(text);
    if ws.len() == 0 {
        assert(wrap_spec(text, width) == seq![Seq::<char>::empty()]);
        lemma_words_of_join_lines(seq![Seq::<char>::empty()]);
        assert(seq![Seq::<char>::empty()][0] == Seq::<char>::empty());
        assert(seq![Seq::<char>::empty()].drop_first() =~= Seq::<Seq<char>>::empty());
        assert(words_of(Seq::<char>::empty()) =~= Seq::<Seq<char>>::empty());
        assert(rewords(seq![Seq::<char>::empty()]) =~= Seq::<Seq<char>>::empty());
        assert(flat_words(ws, width) =~= Seq::<Seq<char>>::empty());
    } else {
        assert(join_sp(Seq::<Seq<char>>::empty()) == Seq::<char>::empty());
        lemma_words_of_join_lines(wrap_spec(text, width));
        lemma_wrap_rewords(ws, Seq::empty(), width);
        assert(Seq::<Seq<char>>::empty() + flat_words(ws, width) =~= flat_words(ws, width));
    }
}

/// Wrapping is idempotent: joining an already wrapped text with single
/// spaces and wrapping it again at the same width yields the same lines.
pub proof fn lemma_wrap_idempotent(text: Seq<char>, width: int)
    requires
        width >= 1,
    ensures
        wrap_spec(join_sp(wrap_spec(text, width)), width) == wrap_spec(text, width),
{
    lemma_words_wf(text);
    let ws = words_of(text);
    if ws.len() == 0 {
        assert(wrap_spec(text, width) == seq![Seq::<char>::empty()]);
        assert(join_sp(seq![Seq::<char>::empty()]) == Seq::<char>::empty());
        assert(words_of(Seq::<char>::empty()) =~= Seq::<Seq<char>>::empty());
        assert(wrap_spec(Seq::<char>::empty(), width) == seq![Seq::<char>::empty()]);
    } else {
        let line_set = wrap_spec(text, width);
        assert(line_set == wrap_words(ws, width, Seq::empty()));
        assert(join_sp(Seq::<Seq<char>>::empty()) == Seq::<char>::empty());
        lemma_words_of_join_lines(line_set);
        lemma_wrap_rewords(ws, Seq::empty(), width);
        assert(Seq::<Seq<char>>::empty() + flat_words(ws, width) =~= flat_words(ws, width));
        assert(words_of(join_sp(line_set)) == flat_words(ws, width));
        assert(flat_words(ws, width).len() > 0) by {
            assert(wf_word(ws[0]));
            if ws[0].len() >= width {
                lemma_chunks_wf(ws[0], width);
                assert(split_word(ws[0], width).len() > 0);
            } else {
                assert(split_word(ws[0], width).len() == 1);
            }
            assert(flat_words(ws, width).len() >= split_word(ws[0], width).len());
        }
        lemma_rewrap(ws, Seq::empty(), width);
        assert(rewords(line_set) == flat_words(ws, width));
        assert(wrap_words(flat_words(ws, width), width, Seq::empty()) == line_set);
        assert(wrap_spec(join_sp(line_set), width) == wrap_words(
            flat_words(ws, width),
            width,
            Seq::empty(),
        ));
    }
}

} // verus!
