//! The width-aware line wrapper.
//!
//! A task name is split on whitespace runs into words, and the words are
//! packed greedily onto lines of at most `width` characters, joined by
//! single spaces. A word at least as wide as the budget is hard-split into
//! `width`-sized chunks, each on a line of its own; the final, shorter
//! chunk (if any) starts the next packed line. Empty input yields a single
//! empty line, so a non-error call never returns an empty sequence.

use vstd::prelude::*;
use crate::errors::ExportError;
use crate::text::{chars_string, copy_chars, to_char_vec, vec_views, str_views,
    lemma_vec_views_push, lemma_str_views_push};

verus! {

/// A whitespace character for tokenization purposes.
pub open spec fn is_wsp(c: char) -> bool {
    c == ' ' || c == '\t' || c == '\n' || c == '\r'
}

/// Executable twin of `is_wsp`.
pub fn is_wsp_char(c: char) -> (r: bool)
    ensures
        r == is_wsp(c),
{
    c == ' ' || c == '\t' || c == '\n' || c == '\r'
}

/// A well-formed word: non-empty and free of whitespace.
pub open spec fn wf_word(w: Seq<char>) -> bool {
    w.len() > 0 && (forall|j: int| 0 <= j < w.len() ==> !is_wsp(#[trigger] w[j]))
}

/// All members are well-formed words.
pub open spec fn wf_words(ws: Seq<Seq<char>>) -> bool {
    forall|i: int| 0 <= i < ws.len() ==> wf_word(#[trigger] ws[i])
}

/// All lines fit in the width.
pub open spec fn all_fit(lines: Seq<Seq<char>>, width: int) -> bool {
    forall|i: int| 0 <= i < lines.len() ==> (#[trigger] lines[i]).len() <= width
}

pub proof fn lemma_wf_words_concat(a: Seq<Seq<char>>, b: Seq<Seq<char>>)
    requires
        wf_words(a),
        wf_words(b),
    ensures
        wf_words(a + b),
{
    assert forall|i: int| 0 <= i < (a + b).len() implies wf_word(#[trigger] (a + b)[i]) by {
        if i < a.len() {
            assert((a + b)[i] == a[i]);
        } else {
            assert((a + b)[i] == b[i - a.len()]);
        }
    }
}

pub proof fn lemma_all_fit_concat(a: Seq<Seq<char>>, b: Seq<Seq<char>>, width: int)
    requires
        all_fit(a, width),
        all_fit(b, width),
    ensures
        all_fit(a + b, width),
{
    assert forall|i: int| 0 <= i < (a + b).len() implies (#[trigger] (a + b)[i]).len() <= width by {
        if i < a.len() {
            assert((a + b)[i] == a[i]);
        } else {
            assert((a + b)[i] == b[i - a.len()]);
        }
    }
}

/// The pending word (or line) as a sequence of emitted items: nothing when
/// it is empty, the word itself otherwise.
pub open spec fn flushed(cur: Seq<char>) -> Seq<Seq<char>> {
    if cur.len() == 0 {
        Seq::empty()
    } else {
        seq![cur]
    }
}

/// Tokenization into whitespace-separated words, consuming `s` from the
/// front with `cur` the partially read word.
pub open spec fn words_acc(s: Seq<char>, cur: Seq<char>) -> Seq<Seq<char>>
    decreases s.len(),
{
    if s.len() == 0 {
        flushed(cur)
    } else if is_wsp(s[0]) {
        flushed(cur) + words_acc(s.drop_first(), Seq::empty())
    } else {
        words_acc(s.drop_first(), cur.push(s[0]))
    }
}

/// The whitespace-separated words of `s`, in order.
pub open spec fn words_of(s: Seq<char>) -> Seq<Seq<char>> {
    words_acc(s, Seq::empty())
}

/// The maximal-width chunks of a hard-split word, excluding the final
/// shorter remainder.
pub open spec fn chunks_of(w: Seq<char>, width: int) -> Seq<Seq<char>>
    decreases w.len(),
{
    if width >= 1 && w.len() >= width {
        seq![w.take(width)] + chunks_of(w.skip(width), width)
    } else {
        Seq::empty()
    }
}

/// What remains of a hard-split word after all full chunks; shorter than
/// `width`, possibly empty.
pub open spec fn chunk_rem(w: Seq<char>, width: int) -> Seq<char>
    decreases w.len(),
{
    if width >= 1 && w.len() >= width {
        chunk_rem(w.skip(width), width)
    } else {
        w
    }
}

/// Greedy packing of `ws` onto lines of at most `width` characters, with
/// `cur` the line under construction (empty when no line is open).
pub open spec fn wrap_words(ws: Seq<Seq<char>>, width: int, cur: Seq<char>) -> Seq<Seq<char>>
    decreases ws.len(),
{
    if ws.len() == 0 {
        flushed(cur)
    } else {
        let w = ws[0];
        if w.len() >= width {
            flushed(cur) + chunks_of(w, width) + wrap_words(
                ws.drop_first(),
                width,
                chunk_rem(w, width),
            )
        } else if cur.len() == 0 {
            wrap_words(ws.drop_first(), width, w)
        } else if cur.len() + 1 + w.len() < width {
            wrap_words(ws.drop_first(), width, cur + seq![' '] + w)
        } else {
            seq![cur] + wrap_words(ws.drop_first(), width, w)
        }
    }
}

/// The full wrap of a text at a given width: its words packed greedily,
/// or a single empty line when the text holds no word.
pub open spec fn wrap_spec(text: Seq<char>, width: int) -> Seq<Seq<char>> {
    if words_of(text).len() == 0 {
        seq![Seq::<char>::empty()]
    } else {
        wrap_words(words_of(text), width, Seq::empty())
    }
}

/// Every word produced by tokenization is non-empty and free of
/// whitespace.
pub proof fn lemma_words_wf(s: Seq<char>)
    ensures
        wf_words(words_of(s)),
{
    lemma_words_acc_wf(s, Seq::empty());
}

proof fn lemma_words_acc_wf(s: Seq<char>, cur: Seq<char>)
    requires
        forall|j: int| 0 <= j < cur.len() ==> !is_wsp(#[trigger] cur[j]),
    ensures
        wf_words(words_acc(s, cur)),
    decreases s.len(),
{
    if s.len() == 0 {
        if cur.len() > 0 {
            assert(wf_word(cur));
            assert(words_acc(s, cur) == seq![cur]);
            assert(words_acc(s, cur)[0] == cur);
        }
    } else if is_wsp(s[0]) {
        lemma_words_acc_wf(s.drop_first(), Seq::empty());
        if cur.len() > 0 {
            assert(wf_word(cur));
            assert(flushed(cur) == seq![cur]);
            assert(flushed(cur)[0] == cur);
            assert(wf_words(flushed(cur)));
        }
        lemma_wf_words_concat(flushed(cur), words_acc(s.drop_first(), Seq::empty()));
    } else {
        assert forall|j: int| 0 <= j < cur.push(s[0]).len() implies !is_wsp(
            #[trigger] cur.push(s[0])[j],
        ) by {
            if j < cur.len() {
                assert(cur.push(s[0])[j] == cur[j]);
            } else {
                assert(cur.push(s[0])[j] == s[0]);
            }
        }
        lemma_words_acc_wf(s.drop_first(), cur.push(s[0]));
    }
}

/// Every full chunk is exactly `width` wide, the remainder is shorter, and
/// a word at least `width` wide yields at least one chunk.
pub proof fn lemma_chunks_wf(w: Seq<char>, width: int)
    requires
        width >= 1,
    ensures
        all_fit(chunks_of(w, width), width),
        forall|i: int|
            0 <= i < chunks_of(w, width).len() ==> (#[trigger] chunks_of(w, width)[i]).len()
                == width,
        chunk_rem(w, width).len() < width,
        w.len() >= width ==> chunks_of(w, width).len() >= 1,
    decreases w.len(),
{
    if w.len() >= width {
        lemma_chunks_wf(w.skip(width), width);
        let c = chunks_of(w, width);
        let tail = chunks_of(w.skip(width), width);
        assert forall|i: int| 0 <= i < c.len() implies (#[trigger] c[i]).len() == width by {
            if i == 0 {
                assert(c[0] == w.take(width));
            } else {
                assert(c[i] == tail[i - 1]);
            }
        }
    }
}

proof fn lemma_wrap_words_fit(ws: Seq<Seq<char>>, width: int, cur: Seq<char>)
    requires
        width >= 1,
        cur.len() < width,
    ensures
        all_fit(wrap_words(ws, width, cur), width),
    decreases ws.len(),
{
    if ws.len() == 0 {
        if cur.len() > 0 {
            assert(wrap_words(ws, width, cur)[0] == cur);
        }
    } else {
        let w = ws[0];
        if w.len() >= width {
            lemma_chunks_wf(w, width);
            lemma_wrap_words_fit(ws.drop_first(), width, chunk_rem(w, width));
            if cur.len() > 0 {
                assert(flushed(cur)[0] == cur);
            }
            lemma_all_fit_concat(flushed(cur), chunks_of(w, width), width);
            lemma_all_fit_concat(
                flushed(cur) + chunks_of(w, width),
                wrap_words(ws.drop_first(), width, chunk_rem(w, width)),
                width,
            );
        } else if cur.len() == 0 {
            lemma_wrap_words_fit(ws.drop_first(), width, w);
        } else if cur.len() + 1 + w.len() < width {
            lemma_wrap_words_fit(ws.drop_first(), width, cur + seq![' '] + w);
        } else {
            lemma_wrap_words_fit(ws.drop_first(), width, w);
            assert(seq![cur][0] == cur);
            lemma_all_fit_concat(seq![cur], wrap_words(ws.drop_first(), width, w), width);
        }
    }
}

/// For any width of at least one and any text, every wrapped line fits in
/// the width.
pub proof fn lemma_wrap_lines_fit(text: Seq<char>, width: int)
    requires
        width >= 1,
    ensures
        all_fit(wrap_spec(text, width), width),
{
    if words_of(text).len() == 0 {
        assert(wrap_spec(text, width)[0] == Seq::<char>::empty());
    } else {
        lemma_wrap_words_fit(words_of(text), width, Seq::empty());
    }
}

/// A text without words — empty, or all whitespace — wraps to a single
/// empty line at every valid width.
pub proof fn lemma_wrap_no_words(text: Seq<char>, width: int)
    requires
        width >= 1,
        words_of(text).len() == 0,
    ensures
        wrap_spec(text, width) == seq![Seq::<char>::empty()],
{
}

/// Packing words onto lines always yields at least one line when a word or
/// an open line exists.
pub proof fn lemma_wrap_words_nonempty(ws: Seq<Seq<char>>, width: int, cur: Seq<char>)
    requires
        width >= 1,
        ws.len() > 0 || cur.len() > 0,
        wf_words(ws),
    ensures
        wrap_words(ws, width, cur).len() >= 1,
    decreases ws.len(),
{
    if ws.len() == 0 {
    } else {
        let w = ws[0];
        assert(wf_word(w));
        if w.len() >= width {
            lemma_chunks_wf(w, width);
        } else {
            assert forall|i: int| 0 <= i < ws.drop_first().len() implies wf_word(
                #[trigger] ws.drop_first()[i],
            ) by {
                assert(ws.drop_first()[i] == ws[i + 1]);
            }
            if cur.len() == 0 {
                lemma_wrap_words_nonempty(ws.drop_first(), width, w);
            } else if cur.len() + 1 + w.len() < width {
                lemma_wrap_words_nonempty(ws.drop_first(), width, cur + seq![' '] + w);
            } else {
                lemma_wrap_words_nonempty(ws.drop_first(), width, w);
            }
        }
    }
}

/// The words of the given characters, each as its own vector.
pub fn tokenize(chars: &Vec<char>) -> (r: Vec<Vec<char>>)
    ensures
        vec_views(r@) == words_of(chars@),
{
    let mut out: Vec<Vec<char>> = Vec::new();
    let mut cur: Vec<char> = Vec::new();
    let mut i: usize = 0;
    proof {
        assert(chars@.skip(0) =~= chars@);
        assert(vec_views(out@) + words_acc(chars@, Seq::empty()) =~= words_acc(
            chars@,
            Seq::empty(),
        ));
    }
    while i < chars.len()
        invariant
            i <= chars@.len(),
            words_of(chars@) == vec_views(out@) + words_acc(chars@.skip(i as int), cur@),
        decreases chars@.len() - i,
    {
        let ghost pre_out = out@;
        let ghost pre_cur = cur@;
        proof {
            assert(chars@.skip(i as int)[0] == chars@[i as int]);
            assert(chars@.skip(i as int).drop_first() =~= chars@.skip(i as int + 1));
        }
        let c = chars[i];
        if is_wsp_char(c) {
            proof {
                assert(words_acc(chars@.skip(i as int), pre_cur) == flushed(pre_cur) + words_acc(
                    chars@.skip(i as int + 1),
                    Seq::empty(),
                ));
            }
            if cur.len() > 0 {
                out.push(cur);
                cur = Vec::new();
                proof {
                    lemma_vec_views_push(pre_out, out@[out@.len() - 1]);
                    assert(vec_views(out@) =~= vec_views(pre_out).push(pre_cur));
                    assert(vec_views(pre_out) + (flushed(pre_cur) + words_acc(
                        chars@.skip(i as int + 1),
                        Seq::empty(),
                    )) =~= vec_views(out@) + words_acc(chars@.skip(i as int + 1), Seq::empty()));
                    assert(cur@ == Seq::<char>::empty());
                    assert(words_of(chars@) == vec_views(out@) + words_acc(
                        chars@.skip(i as int + 1),
                        cur@,
                    ));
                }
            } else {
                proof {
                    assert(flushed(pre_cur) + words_acc(chars@.skip(i as int + 1), Seq::empty())
                        =~= words_acc(chars@.skip(i as int + 1), Seq::empty()));
                    assert(cur@ == Seq::<char>::empty());
                    assert(words_of(chars@) == vec_views(out@) + words_acc(
                        chars@.skip(i as int + 1),
                        cur@,
                    ));
                }
            }
        } else {
            cur.push(c);
            proof {
                assert(words_acc(chars@.skip(i as int), pre_cur) == words_acc(
                    chars@.skip(i as int + 1),
                    cur@,
                ));
            }
        }
        i = i + 1;
    }
    proof {
        assert(chars@.skip(chars@.len() as int) =~= Seq::<char>::empty());
    }
    if cur.len() > 0 {
        let ghost pre_out = out@;
        let ghost pre_cur = cur@;
        out.push(cur);
        proof {
            lemma_vec_views_push(pre_out, out@[out@.len() - 1]);
            assert(vec_views(out@) =~= vec_views(pre_out) + flushed(pre_cur));
        }
    } else {
        proof {
            assert(vec_views(out@) =~= vec_views(out@) + flushed(cur@));
        }
    }
    out
}

/// Wraps `text` into lines of at most `width` characters.
///
/// Words are packed greedily and joined by single spaces; a word at least
/// `width` wide is hard-split into `width`-sized chunks. A text without
/// words yields one empty line. A width of zero is refused with
/// `InvalidWidth`, and that is the only error.
pub fn wrap(text: &str, width: usize) -> (r: Result<Vec<String>, ExportError>)
    ensures
        width == 0 ==> r == Err::<Vec<String>, ExportError>(ExportError::InvalidWidth),
        width >= 1 ==> r is Ok,
        width >= 1 ==> str_views(r->Ok_0@) == wrap_spec(text@, width as int),
        width >= 1 ==> r->Ok_0@.len() >= 1,
        width >= 1 ==> all_fit(str_views(r->Ok_0@), width as int),
{
    if width == 0 {
        return Err(ExportError::InvalidWidth);
    }
    let chars = to_char_vec(text);
    let words = tokenize(&chars);
    let ghost wm = vec_views(words@);
    proof {
        lemma_words_wf(chars@);
    }
    let mut out: Vec<Vec<char>> = Vec::new();
    if words.len() == 0 {
        out.push(Vec::new());
        proof {
            assert(vec_views(out@) =~= seq![Seq::<char>::empty()]);
        }
    } else {
        let ghost target = wrap_words(wm, width as int, Seq::empty());
        let mut cur: Vec<char> = Vec::new();
        let mut j: usize = 0;
        proof {
            assert(wm.skip(0) =~= wm);
            assert(vec_views(out@) + wrap_words(wm, width as int, Seq::empty()) =~= wrap_words(
                wm,
                width as int,
                Seq::empty(),
            ));
        }
        while j < words.len()
            invariant
                width >= 1,
                j <= words@.len(),
                wm == vec_views(words@),
                wf_words(wm),
                cur@.len() < width,
                target == vec_views(out@) + wrap_words(wm.skip(j as int), width as int, cur@),
            decreases words@.len() - j,
        {
            proof {
                assert(wm.skip(j as int)[0] == wm[j as int]);
                assert(wm.skip(j as int).drop_first() =~= wm.skip(j as int + 1));
                assert(wf_word(wm[j as int]));
            }
            let w = &words[j];
            assert(w@ == wm[j as int]);
            if w.len() >= width {
                // Hard split: flush the open line, emit full chunks, and
                // let the remainder open the next line.
                let ghost tail = wrap_words(
                    wm.skip(j as int + 1),
                    width as int,
                    chunk_rem(wm[j as int], width as int),
                );
                proof {
                    assert(wrap_words(wm.skip(j as int), width as int, cur@) == flushed(cur@)
                        + chunks_of(wm[j as int], width as int) + tail);
                }
                if cur.len() > 0 {
                    let ghost pre_out = out@;
                    let ghost pre_cur = cur@;
                    out.push(cur);
                    cur = Vec::new();
                    proof {
                        lemma_vec_views_push(pre_out, out@[out@.len() - 1]);
                        assert(target =~= vec_views(out@) + (chunks_of(wm[j as int], width as int)
                            + tail));
                    }
                } else {
                    proof {
                        assert(target =~= vec_views(out@) + (chunks_of(wm[j as int], width as int)
                            + tail));
                    }
                }
                let mut remaining = copy_chars(w);
                while remaining.len() >= width
                    invariant
                        width >= 1,
                        chunk_rem(remaining@, width as int) == chunk_rem(wm[j as int], width as int),
                        tail == wrap_words(
                            wm.skip(j as int + 1),
                            width as int,
                            chunk_rem(wm[j as int], width as int),
                        ),
                        target == vec_views(out@) + (chunks_of(remaining@, width as int) + tail),
                    decreases remaining@.len(),
                {
                    let ghost pre_rem = remaining@;
                    let ghost pre_out = out@;
                    let mut chunk: Vec<char> = Vec::new();
                    let mut k: usize = 0;
                    proof {
                        assert(chunk@ =~= remaining@.take(0));
                    }
                    while k < width
                        invariant
                            width <= remaining@.len(),
                            k <= width,
                            chunk@ == remaining@.take(k as int),
                        decreases width - k,
                    {
                        chunk.push(remaining[k]);
                        k = k + 1;
                        proof {
                            assert(chunk@ =~= remaining@.take(k as int));
                        }
                    }
                    let mut rest: Vec<char> = Vec::new();
                    let mut k2: usize = width;
                    proof {
                        assert(rest@ =~= remaining@.subrange(width as int, width as int));
                    }
                    while k2 < remaining.len()
                        invariant
                            width <= k2 <= remaining@.len(),
                            rest@ == remaining@.subrange(width as int, k2 as int),
                        decreases remaining@.len() - k2,
                    {
                        rest.push(remaining[k2]);
                        k2 = k2 + 1;
                        proof {
                            assert(rest@ =~= remaining@.subrange(width as int, k2 as int));
                        }
                    }
                    out.push(chunk);
                    remaining = rest;
                    proof {
                        assert(remaining@ =~= pre_rem.skip(width as int));
                        lemma_vec_views_push(pre_out, out@[out@.len() - 1]);
                        assert(chunks_of(pre_rem, width as int) == seq![pre_rem.take(width as int)]
                            + chunks_of(remaining@, width as int));
                        assert(target =~= vec_views(out@) + (chunks_of(remaining@, width as int)
                            + tail));
                    }
                }
                proof {
                    assert(chunks_of(remaining@, width as int) =~= Seq::<Seq<char>>::empty());
                    assert(chunk_rem(remaining@, width as int) == remaining@);
                    assert(target =~= vec_views(out@) + wrap_words(
                        wm.skip(j as int + 1),
                        width as int,
                        remaining@,
                    ));
                }
                cur = remaining;
            } else if cur.len() == 0 {
                cur = copy_chars(w);
                proof {
                    assert(wrap_words(wm.skip(j as int), width as int, Seq::empty()) == wrap_words(
                        wm.skip(j as int + 1),
                        width as int,
                        cur@,
                    ));
                }
            } else if w.len() + 1 < width - cur.len() {
                let ghost pre_cur = cur@;
                proof {
                    assert(pre_cur.len() + 1 + wm[j as int].len() < width);
                }
                cur.push(' ');
                let mut k: usize = 0;
                proof {
                    assert(cur@ =~= pre_cur + seq![' '] + w@.take(0));
                }
                while k < w.len()
                    invariant
                        k <= w@.len(),
                        cur@ == pre_cur + seq![' '] + w@.take(k as int),
                    decreases w@.len() - k,
                {
                    cur.push(w[k]);
                    k = k + 1;
                    proof {
                        assert(cur@ =~= pre_cur + seq![' '] + w@.take(k as int));
                    }
                }
                proof {
                    assert(w@.take(w@.len() as int) =~= w@);
                    assert(cur@ =~= pre_cur + seq![' '] + wm[j as int]);
                    assert(wrap_words(wm.skip(j as int), width as int, pre_cur) == wrap_words(
                        wm.skip(j as int + 1),
                        width as int,
                        cur@,
                    ));
                }
            } else {
                let ghost pre_out = out@;
                let ghost pre_cur = cur@;
                proof {
                    assert(!(pre_cur.len() + 1 + wm[j as int].len() < width));
                    assert(wrap_words(wm.skip(j as int), width as int, pre_cur) == seq![pre_cur]
                        + wrap_words(wm.skip(j as int + 1), width as int, wm[j as int]));
                }
                out.push(cur);
                cur = copy_chars(w);
                proof {
                    lemma_vec_views_push(pre_out, out@[out@.len() - 1]);
                    assert(target =~= vec_views(out@) + wrap_words(
                        wm.skip(j as int + 1),
                        width as int,
                        cur@,
                    ));
                }
            }
            j = j + 1;
        }
        proof {
            assert(wm.skip(wm.len() as int) =~= Seq::<Seq<char>>::empty());
        }
        if cur.len() > 0 {
            let ghost pre_out = out@;
            let ghost pre_cur = cur@;
            out.push(cur);
            proof {
                lemma_vec_views_push(pre_out, out@[out@.len() - 1]);
                assert(vec_views(out@) =~= vec_views(pre_out) + flushed(pre_cur));
            }
        } else {
            proof {
                assert(vec_views(out@) =~= vec_views(out@) + flushed(cur@));
            }
        }
        proof {
            assert(vec_views(out@) =~= target);
            lemma_wrap_words_nonempty(wm, width as int, Seq::empty());
        }
    }
    let mut lines: Vec<String> = Vec::new();
    let mut i: usize = 0;
    proof {
        assert(str_views(lines@) =~= vec_views(out@).take(0));
    }
    while i < out.len()
        invariant
            i <= out@.len(),
            str_views(lines@) == vec_views(out@).take(i as int),
        decreases out@.len() - i,
    {
        let ghost pre_lines = lines@;
        let line = chars_string(&out[i]);
        lines.push(line);
        i = i + 1;
        proof {
            lemma_str_views_push(pre_lines, lines@[lines@.len() - 1]);
            assert(str_views(lines@) =~= vec_views(out@).take(i as int));
        }
    }
    proof {
        assert(vec_views(out@).take(out@.len() as int) =~= vec_views(out@));
        if words@.len() == 0 {
            assert(vec_views(words@) =~= Seq::<Seq<char>>::empty());
            assert(words_of(text@).len() == 0);
        } else {
            assert(words_of(text@).len() > 0);
        }
        lemma_wrap_lines_fit(text@, width as int);
    }
    Ok(lines)
}

} // verus!
