//! Splitting a text into overlapping, trimmed chunks of characters.
use vstd::arithmetic::div_mod::{
    lemma_fundamental_div_mod, lemma_fundamental_div_mod_converse, lemma_mod_pos_bound,
};
use vstd::prelude::*;

use crate::text::{
    chars_of, is_trimmed_piece, is_white_space, lemma_trim_piece, string_from_range, trim,
    trim_bounds,
};

verus! {

/// One piece of a document, with its position among the document's chunks.
#[derive(Debug)]
pub struct Chunk {
    pub index: usize,
    pub content: String,
}

/// The overlap actually used: at most half the chunk size.
pub open spec fn clamped_overlap(chunk_size: nat, overlap: nat) -> nat {
    if overlap <= chunk_size / 2 {
        overlap
    } else {
        chunk_size / 2
    }
}

/// How far each window starts after the previous one.
pub open spec fn window_step(chunk_size: nat, overlap: nat) -> nat {
    (chunk_size - clamped_overlap(chunk_size, overlap)) as nat
}

/// The trimmed windows of `chunk_size` characters that start at `start`,
/// `start + step`, ... and fit in `chars`, leaving out those that trim to
/// nothing.
pub open spec fn window_pieces(chars: Seq<char>, chunk_size: nat, step: nat, start: nat) -> Seq<
    Seq<char>,
>
    decreases chars.len() - start,
{
    if step == 0 || start + chunk_size > chars.len() {
        seq![]
    } else {
        let t = trim(chars.subrange(start as int, (start + chunk_size) as int));
        let rest = if start + step <= chars.len() {
            window_pieces(chars, chunk_size, step, start + step)
        } else {
            seq![]
        };
        if t.len() > 0 {
            seq![t] + rest
        } else {
            rest
        }
    }
}

/// How many windows of `chunk_size` characters, one every `step`
/// characters from the start, fit in `len` characters.
pub open spec fn window_count(len: nat, chunk_size: nat, step: nat) -> nat {
    if step == 0 || len < chunk_size {
        0
    } else {
        ((len - chunk_size) as nat / step + 1) as nat
    }
}

/// The contents of the chunks of `chars`, in order.
///
/// A text of at most `chunk_size` characters gives its trimmed self, or
/// nothing if that is empty. A longer text gives the non-blank trimmed
/// windows of `chunk_size` characters, one every `step` characters; then,
/// if the last window stops short of the end, the trimmed rest of the text
/// from where the next window would start, if that is non-blank.
pub open spec fn chunk_contents(chars: Seq<char>, chunk_size: nat, overlap: nat) -> Seq<
    Seq<char>,
> {
    if chars.len() <= chunk_size {
        if trim(chars).len() == 0 {
            seq![]
        } else {
            seq![trim(chars)]
        }
    } else {
        let step = window_step(chunk_size, overlap);
        let w = window_count(chars.len(), chunk_size, step);
        let pieces = window_pieces(chars, chunk_size, step, 0);
        let tail = if (w - 1) * step + chunk_size < chars.len() {
            trim(chars.subrange((w * step) as int, chars.len() as int))
        } else {
            seq![]
        };
        if tail.len() > 0 {
            pieces.push(tail)
        } else {
            pieces
        }
    }
}

/// The windows that fit in `len` characters: the last starts at
/// `(w - 1) * step`, and one more would not fit.
pub proof fn lemma_window_count(len: nat, chunk_size: nat, step: nat)
    requires
        0 < step,
        chunk_size <= len,
    ensures
        window_count(len, chunk_size, step) >= 1,
        (window_count(len, chunk_size, step) - 1) * step + chunk_size <= len,
        len < window_count(len, chunk_size, step) * step + chunk_size,
{
    let x = (len - chunk_size) as int;
    let q = x / step as int;
    let r = x % step as int;
    lemma_fundamental_div_mod(x, step as int);
    lemma_mod_pos_bound(x, step as int);
    let w = window_count(len, chunk_size, step);
    assert(w == q + 1);
    assert(q * step <= x) by (nonlinear_arith)
        requires
            x == step * q + r,
            0 <= r,
    ;
    assert(x < (q + 1) * step) by (nonlinear_arith)
        requires
            x == step * q + r,
            r < step,
    ;
}

/// `w` windows one every `step` characters with the last fitting in `len`
/// and no room for one more: `w` is the window count.
pub proof fn lemma_window_count_unique(len: nat, chunk_size: nat, step: nat, w: nat)
    requires
        0 < step,
        1 <= w,
        (w - 1) * step + chunk_size <= len,
        len < w * step + chunk_size,
    ensures
        w == window_count(len, chunk_size, step),
{
    let x = (len - chunk_size) as int;
    let r = x - (w - 1) * step;
    assert(w * step == (w - 1) * step + step) by (nonlinear_arith)
        requires
            w >= 1,
    ;
    assert(x == (w - 1) * step + r);
    lemma_fundamental_div_mod_converse(x, step as int, (w - 1) as int, r);
}

/// The chunks are numbered `0, 1, ...` and hold `chunk_contents`.
pub open spec fn chunks_match(chunks: Seq<Chunk>, expected: Seq<Seq<char>>) -> bool {
    &&& chunks.len() == expected.len()
    &&& forall|i: int|
        0 <= i < chunks.len() ==> (#[trigger] chunks[i]).index == i && chunks[i].content@
            == expected[i]
}

/// Splits `text` into chunks of `chunk_size` characters that overlap by
/// `overlap` characters (clamped to half the chunk size); blank chunks are
/// left out, and the contents are trimmed.
#[verifier::spinoff_prover]
pub fn chunk_text(text: &str, chunk_size: usize, overlap: usize) -> (chunks: Vec<Chunk>)
    requires
        chunk_size > 0 || text@.len() == 0,
    ensures
        chunks_match(chunks@, chunk_contents(text@, chunk_size as nat, overlap as nat)),
        chunks@.len() == chunk_contents(text@, chunk_size as nat, overlap as nat).len(),
        forall|i: int|
            0 <= i < chunks@.len() ==> (#[trigger] chunks@[i]).index == i && chunks@[i].content@
                == chunk_contents(text@, chunk_size as nat, overlap as nat)[i],
{
    let chars = chars_of(text);
    let len = chars.len();
    let overlap = if overlap <= chunk_size / 2 {
        overlap
    } else {
        chunk_size / 2
    };
    let step = chunk_size - overlap;

    if len <= chunk_size {
        let (lo, hi) = trim_bounds(&chars, 0, len);
        assert(chars@.subrange(0, len as int) =~= chars@);
        if lo == hi {
            return Vec::new();
        }
        let mut chunks = Vec::new();
        chunks.push(Chunk { index: 0, content: string_from_range(&chars, lo, hi) });
        return chunks;
    }
    let ghost pieces = window_pieces(chars@, chunk_size as nat, step as nat, 0);
    let mut chunks: Vec<Chunk> = Vec::new();
    let mut start: usize = 0;
    let ghost mut windows: nat = 0;
    while start <= len - chunk_size
        invariant
            0 < step <= chunk_size < len == chars@.len(),
            step == window_step(chunk_size as nat, overlap as nat),
            pieces == window_pieces(chars@, chunk_size as nat, step as nat, 0),
            start <= len - chunk_size + step,
            start == windows * step,
            windows >= 1 ==> (windows - 1) * step <= len - chunk_size,
            pieces == Seq::new(chunks@.len(), |i: int| chunks@[i].content@) + window_pieces(
                chars@,
                chunk_size as nat,
                step as nat,
                start as nat,
            ),
            forall|i: int| 0 <= i < chunks@.len() ==> (#[trigger] chunks@[i]).index == i,
        decreases len - start,
    {
        let ghost done = Seq::new(chunks@.len(), |i: int| chunks@[i].content@);
        let (lo, hi) = trim_bounds(&chars, start, start + chunk_size);
        if lo < hi {
            let n = chunks.len();
            chunks.push(Chunk { index: n, content: string_from_range(&chars, lo, hi) });
            assert(Seq::new(chunks@.len(), |i: int| chunks@[i].content@) =~= done + seq![
                chars@.subrange(lo as int, hi as int),
            ]);
        }
        start = start + step;
        proof {
            windows = windows + 1;
            assert(start == windows * step) by (nonlinear_arith)
                requires
                    start == (windows - 1) * step + step,
            ;
        }
    }
    let ghost done = Seq::new(chunks@.len(), |i: int| chunks@[i].content@);
    assert(done =~= pieces);
    proof {
        assert(windows >= 1) by {
            if windows == 0 {
                assert(start == 0) by (nonlinear_arith)
                    requires
                        start == windows * step,
                        windows == 0,
                ;
            }
        }
        assert((windows - 1) * step == start - step) by (nonlinear_arith)
            requires
                start == windows * step,
                windows >= 1,
        ;
        lemma_window_count_unique(len as nat, chunk_size as nat, step as nat, windows);
    }
    // `start` is where the window after the last one would begin.
    if start - step + chunk_size < len {
        let (lo, hi) = trim_bounds(&chars, start, len);
        if lo < hi {
            let n = chunks.len();
            chunks.push(Chunk { index: n, content: string_from_range(&chars, lo, hi) });
        }
    }
    chunks
}

/// An overlap of more than half the chunk size chunks the text as an
/// overlap of exactly half the chunk size does.
pub proof fn overlap_is_clamped(text: Seq<char>, chunk_size: nat, overlap: nat)
    ensures
        chunk_contents(text, chunk_size, overlap) == chunk_contents(
            text,
            chunk_size,
            clamped_overlap(chunk_size, overlap),
        ),
{
    assert(window_step(chunk_size, overlap) == window_step(
        chunk_size,
        clamped_overlap(chunk_size, overlap),
    ));
}

/// Every kept window is a trimmed piece of the text.
proof fn lemma_window_pieces_trimmed(chars: Seq<char>, chunk_size: nat, step: nat, start: nat)
    ensures
        forall|i: int|
            0 <= i < window_pieces(chars, chunk_size, step, start).len() ==> is_trimmed_piece(
                #[trigger] window_pieces(chars, chunk_size, step, start)[i],
                chars,
            ) && window_pieces(chars, chunk_size, step, start)[i].len() <= chunk_size,
    decreases chars.len() - start,
{
    if step == 0 || start + chunk_size > chars.len() {
    } else {
        let t = trim(chars.subrange(start as int, (start + chunk_size) as int));
        lemma_trim_piece(chars, start as int, (start + chunk_size) as int);
        let rest = if start + step <= chars.len() {
            lemma_window_pieces_trimmed(chars, chunk_size, step, start + step);
            window_pieces(chars, chunk_size, step, start + step)
        } else {
            seq![]
        };
        let w = window_pieces(chars, chunk_size, step, start);
        assert forall|i: int| 0 <= i < w.len() implies is_trimmed_piece(#[trigger] w[i], chars)
            && w[i].len() <= chunk_size by {
            if t.len() > 0 {
                assert(w == seq![t] + rest);
                if i > 0 {
                    assert(w[i] == rest[i - 1]);
                }
            } else {
                assert(w == rest);
            }
        }
    }
}

/// Where the rest of a longer text starts, when it is taken: inside the
/// text, and less than `chunk_size` characters from its end.
proof fn lemma_tail_start(len: nat, chunk_size: nat, step: nat)
    requires
        step <= chunk_size < len,
        chunk_size > 0 ==> step > 0,
    ensures
        ({
            let w = window_count(len, chunk_size, step);
            (w - 1) * step + chunk_size < len ==> {
                &&& 0 <= w * step < len
                &&& chunk_size > 0 ==> len - w * step < chunk_size
            }
        }),
{
    let w = window_count(len, chunk_size, step);
    if step > 0 {
        lemma_window_count(len, chunk_size, step);
        assert(w * step == (w - 1) * step + step) by (nonlinear_arith)
            requires
                w >= 1,
        ;
    } else {
        assert(w * step == 0) by (nonlinear_arith)
            requires
                step == 0,
        ;
    }
}

/// No chunk is blank; each is a run of the text's characters that neither
/// starts nor ends with whitespace.
pub proof fn chunks_are_trimmed_pieces(text: Seq<char>, chunk_size: nat, overlap: nat)
    ensures
        forall|i: int|
            0 <= i < chunk_contents(text, chunk_size, overlap).len() ==> is_trimmed_piece(
                #[trigger] chunk_contents(text, chunk_size, overlap)[i],
                text,
            ),
{
    let c = chunk_contents(text, chunk_size, overlap);
    if text.len() <= chunk_size {
        lemma_trim_piece(text, 0, text.len() as int);
        assert(text.subrange(0, text.len() as int) =~= text);
    } else {
        let step = window_step(chunk_size, overlap);
        let pieces = window_pieces(text, chunk_size, step, 0);
        lemma_window_pieces_trimmed(text, chunk_size, step, 0);
        let w = window_count(text.len(), chunk_size, step);
        lemma_tail_start(text.len(), chunk_size, step);
        if (w - 1) * step + chunk_size < text.len() {
            lemma_trim_piece(text, (w * step) as int, text.len() as int);
        }
        assert forall|i: int| 0 <= i < c.len() implies is_trimmed_piece(#[trigger] c[i], text) by {
            if i < pieces.len() {
                assert(c[i] == pieces[i]);
            }
        }
    }
}

/// No character of `s` is whitespace.
pub open spec fn has_no_white_space(s: Seq<char>) -> bool {
    forall|i: int| 0 <= i < s.len() ==> !is_white_space(#[trigger] s[i])
}

/// Windows of a text without whitespace are kept whole, one every `step`
/// characters, until the next would not fit.
proof fn lemma_windows_exact(chars: Seq<char>, chunk_size: nat, step: nat, start: nat)
    requires
        has_no_white_space(chars),
        0 < step,
        0 < chunk_size,
        start + chunk_size <= chars.len(),
    ensures
        ({
            let w = window_pieces(chars, chunk_size, step, start);
            &&& w.len() >= 1
            &&& start + (w.len() - 1) * step + chunk_size <= chars.len()
            &&& chars.len() < start + w.len() * step + chunk_size
            &&& forall|k: int|
                0 <= k < w.len() ==> #[trigger] w[k] == chars.subrange(
                    start + k * step,
                    start + k * step + chunk_size,
                )
        }),
    decreases chars.len() - start,
{
    let win = chars.subrange(start as int, (start + chunk_size) as int);
    assert(trim(win) == win) by {
        assert(!is_white_space(win[0]));
        assert(!is_white_space(win.last()));
    }
    let w = window_pieces(chars, chunk_size, step, start);
    if start + step + chunk_size > chars.len() {
        let rest = if start + step <= chars.len() {
            window_pieces(chars, chunk_size, step, start + step)
        } else {
            seq![]
        };
        assert(rest.len() == 0);
        assert(w == seq![win] + rest);
        assert(w =~= seq![win]);
        assert((w.len() - 1) * step == 0) by (nonlinear_arith)
            requires
                w.len() == 1,
        ;
        assert(w.len() * step == step) by (nonlinear_arith)
            requires
                w.len() == 1,
        ;
        assert forall|k: int| 0 <= k < w.len() implies #[trigger] w[k] == chars.subrange(
            start + k * step,
            start + k * step + chunk_size,
        ) by {
            assert(k * step == 0) by (nonlinear_arith)
                requires
                    k == 0,
            ;
        }
    } else {
        lemma_windows_exact(chars, chunk_size, step, start + step);
        let rest = window_pieces(chars, chunk_size, step, start + step);
        assert(w == seq![win] + rest);
        let r = rest.len();
        assert(start + step + (r - 1) * step == start + (w.len() - 1) * step) by (nonlinear_arith)
            requires
                w.len() == r + 1,
        ;
        assert(start + step + r * step == start + w.len() * step) by (nonlinear_arith)
            requires
                w.len() == r + 1,
        ;
        assert forall|k: int| 0 <= k < w.len() implies #[trigger] w[k] == chars.subrange(
            start + k * step,
            start + k * step + chunk_size,
        ) by {
            if k > 0 {
                assert(w[k] == rest[k - 1]);
                assert(start + step + (k - 1) * step == start + k * step) by (nonlinear_arith);
            } else {
                assert(start + k * step == start) by (nonlinear_arith)
                    requires
                        k == 0,
                ;
            }
        }
    }
}

/// A text without whitespace that is longer than `chunk_size` is cut into
/// sliding windows: the `n` windows of `chunk_size` characters that fit,
/// the `k`-th starting at `k * step`; then, if the last window stops short
/// of the end, the rest of the text from `n * step`, which is shorter than a
/// chunk.
pub proof fn sliding_windows(text: Seq<char>, chunk_size: nat, overlap: nat) -> (n: nat)
    requires
        has_no_white_space(text),
        0 < chunk_size < text.len(),
    ensures
        ({
            let step = window_step(chunk_size, overlap);
            let c = chunk_contents(text, chunk_size, overlap);
            &&& n >= 1
            &&& n == window_count(text.len(), chunk_size, step)
            &&& (n - 1) * step + chunk_size <= text.len() < n * step + chunk_size
            &&& forall|k: int|
                0 <= k < n ==> #[trigger] c[k] == text.subrange(k * step, k * step + chunk_size)
            &&& (n - 1) * step + chunk_size < text.len() ==> {
                &&& c.len() == n + 1
                &&& c[n as int] == text.subrange((n * step) as int, text.len() as int)
                &&& c[n as int].len() < chunk_size
            }
            &&& (n - 1) * step + chunk_size == text.len() ==> c.len() == n
        }),
{
    let step = window_step(chunk_size, overlap);
    lemma_windows_exact(text, chunk_size, step, 0);
    let pieces = window_pieces(text, chunk_size, step, 0);
    let n = pieces.len();
    let c = chunk_contents(text, chunk_size, overlap);
    lemma_window_count_unique(text.len(), chunk_size, step, n);
    lemma_tail_start(text.len(), chunk_size, step);
    if (n - 1) * step + chunk_size < text.len() {
        let tail = text.subrange((n * step) as int, text.len() as int);
        assert(trim(tail) == tail) by {
            assert(!is_white_space(tail[0]));
            assert(!is_white_space(tail.last()));
        }
        assert(c == pieces.push(tail));
    }
    assert forall|k: int| 0 <= k < n implies #[trigger] c[k] == text.subrange(
        k * step,
        k * step + chunk_size,
    ) by {
        assert(c[k] == pieces[k]);
    }
    n
}

/// Every chunk has at most `chunk_size` characters.
pub proof fn chunks_fit(text: Seq<char>, chunk_size: nat, overlap: nat)
    requires
        chunk_size > 0 || text.len() == 0,
    ensures
        forall|i: int|
            0 <= i < chunk_contents(text, chunk_size, overlap).len() ==> (
            #[trigger] chunk_contents(text, chunk_size, overlap)[i]).len() <= chunk_size,
{
    let c = chunk_contents(text, chunk_size, overlap);
    if text.len() <= chunk_size {
        lemma_trim_piece(text, 0, text.len() as int);
        assert(text.subrange(0, text.len() as int) =~= text);
    } else {
        let step = window_step(chunk_size, overlap);
        let pieces = window_pieces(text, chunk_size, step, 0);
        let w = window_count(text.len(), chunk_size, step);
        lemma_window_pieces_trimmed(text, chunk_size, step, 0);
        lemma_tail_start(text.len(), chunk_size, step);
        if (w - 1) * step + chunk_size < text.len() {
            lemma_trim_piece(text, (w * step) as int, text.len() as int);
        }
        assert forall|i: int| 0 <= i < c.len() implies (#[trigger] c[i]).len() <= chunk_size by {
            if i < pieces.len() {
                assert(c[i] == pieces[i]);
            }
        }
    }
}

/// Position `p` of `text` lies within the chunk `c[i]`, found at `a`.
pub open spec fn chunk_covers(c: Seq<Seq<char>>, text: Seq<char>, i: int, a: int, p: int) -> bool {
    &&& 0 <= i < c.len()
    &&& 0 <= a <= p < a + c[i].len()
    &&& a + c[i].len() <= text.len()
    &&& text.subrange(a, a + c[i].len()) == c[i]
}

/// Where the windows from `start` on stop covering the text.
pub open spec fn windows_end(chars: Seq<char>, chunk_size: nat, step: nat, start: nat) -> nat
    decreases chars.len() - start,
{
    if step == 0 || start + chunk_size > chars.len() {
        start
    } else if start + step + chunk_size > chars.len() {
        start + chunk_size
    } else {
        windows_end(chars, chunk_size, step, start + step)
    }
}

/// The windows from `start` on are `k` windows one every `step`
/// characters, and they stop covering the text at the end of the last.
proof fn lemma_windows_end(chars: Seq<char>, chunk_size: nat, step: nat, start: nat) -> (k: nat)
    requires
        0 < step,
        start + chunk_size <= chars.len(),
    ensures
        k >= 1,
        start + (k - 1) * step + chunk_size <= chars.len(),
        chars.len() < start + k * step + chunk_size,
        windows_end(chars, chunk_size, step, start) == start + (k - 1) * step + chunk_size,
    decreases chars.len() - start,
{
    if start + step + chunk_size > chars.len() {
        assert((1 - 1) * step == 0) by (nonlinear_arith);
        assert(1 * step == step) by (nonlinear_arith);
        1
    } else {
        let k = lemma_windows_end(chars, chunk_size, step, start + step);
        assert(start + step + (k - 1) * step == start + k * step) by (nonlinear_arith)
            requires
                k >= 1,
        ;
        assert(start + step + k * step == start + (k + 1) * step) by (nonlinear_arith);
        assert(k + 1 - 1 == k);
        k + 1
    }
}

/// Every visible character under the windows from `start` on lies in a
/// kept window.
proof fn lemma_windows_cover(chars: Seq<char>, chunk_size: nat, step: nat, start: nat, p: int)
    requires
        0 < step <= chunk_size,
        start <= p < windows_end(chars, chunk_size, step, start),
        !is_white_space(chars[p]),
    ensures
        exists|i: int, a: int|
            chunk_covers(window_pieces(chars, chunk_size, step, start), chars, i, a, p),
    decreases chars.len() - start,
{
    let w = window_pieces(chars, chunk_size, step, start);
    let t = trim(chars.subrange(start as int, (start + chunk_size) as int));
    let next_fits = start + step + chunk_size <= chars.len();
    if p < start + step || !next_fits {
        let a = lemma_trim_piece(chars, start as int, (start + chunk_size) as int);
        assert(t.len() > 0) by {
            if t.len() == 0 {
                assert(is_white_space(chars[p]));
            }
        }
        let rest = if start + step <= chars.len() {
            window_pieces(chars, chunk_size, step, start + step)
        } else {
            seq![]
        };
        assert(w == seq![t] + rest);
        assert(w[0] == t);
        assert(chunk_covers(w, chars, 0, a, p));
    } else {
        lemma_windows_cover(chars, chunk_size, step, start + step, p);
        let rest = window_pieces(chars, chunk_size, step, start + step);
        let (i, a) = choose|i: int, a: int| chunk_covers(rest, chars, i, a, p);
        if t.len() > 0 {
            assert(w == seq![t] + rest);
            assert(w[i + 1] == rest[i]);
            assert(chunk_covers(w, chars, i + 1, a, p));
        } else {
            assert(w == rest);
            assert(chunk_covers(w, chars, i, a, p));
        }
    }
}

/// No visible character is lost: every character of the text that is not
/// whitespace lies within some chunk.
pub proof fn every_visible_char_is_chunked(text: Seq<char>, chunk_size: nat, overlap: nat, p: int)
    requires
        0 <= p < text.len(),
        !is_white_space(text[p]),
    ensures
        exists|i: int, a: int|
            chunk_covers(chunk_contents(text, chunk_size, overlap), text, i, a, p),
{
    let c = chunk_contents(text, chunk_size, overlap);
    if text.len() <= chunk_size {
        let a = lemma_trim_piece(text, 0, text.len() as int);
        assert(text.subrange(0, text.len() as int) =~= text);
        assert(trim(text).len() > 0) by {
            if trim(text).len() == 0 {
                assert(is_white_space(text[p]));
            }
        }
        assert(chunk_covers(c, text, 0, a, p));
    } else {
        let step = window_step(chunk_size, overlap);
        let pieces = window_pieces(text, chunk_size, step, 0);
        let w = window_count(text.len(), chunk_size, step);
        lemma_tail_start(text.len(), chunk_size, step);
        if step > 0 {
            let k = lemma_windows_end(text, chunk_size, step, 0);
            lemma_window_count_unique(text.len(), chunk_size, step, k);
        }
        if step > 0 && p < windows_end(text, chunk_size, step, 0) {
            lemma_windows_cover(text, chunk_size, step, 0, p);
            let (i, a) = choose|i: int, a: int| chunk_covers(pieces, text, i, a, p);
            assert(c[i] == pieces[i]);
            assert(chunk_covers(c, text, i, a, p));
        } else {
            assert((w - 1) * step + chunk_size < text.len() && w * step <= p) by {
                if step == 0 {
                    assert(w == 0);
                    assert((w - 1) * step == 0 && w * step == 0) by (nonlinear_arith)
                        requires
                            step == 0,
                    ;
                } else {
                    assert(w * step == (w - 1) * step + step) by (nonlinear_arith)
                        requires
                            w >= 1,
                    ;
                }
            }
            let a = lemma_trim_piece(text, (w * step) as int, text.len() as int);
            assert(c == pieces.push(trim(text.subrange((w * step) as int, text.len() as int))));
            assert(chunk_covers(c, text, pieces.len() as int, a, p));
        }
    }
}

/// Keeps the non-blank pieces.
pub open spec fn non_blank() -> spec_fn(Seq<char>) -> bool {
    |t: Seq<char>| t.len() > 0
}

/// The trimmed windows of `chunk_size` characters at `start`,
/// `start + step`, ... (`k` of them).
pub open spec fn trimmed_windows(chars: Seq<char>, chunk_size: nat, step: nat, start: nat, k: nat) -> Seq<
    Seq<char>,
> {
    Seq::new(k, |j: int| trim(chars.subrange(start + j * step, start + j * step + chunk_size)))
}

/// The filter of a one-element sequence.
proof fn lemma_filter_single(t: Seq<char>)
    ensures
        seq![t].filter(non_blank()) == if t.len() > 0 {
            seq![t]
        } else {
            Seq::<Seq<char>>::empty()
        },
{
    reveal_with_fuel(Seq::filter, 2);
    assert(seq![t].drop_last() =~= Seq::<Seq<char>>::empty());
    assert(Seq::<Seq<char>>::empty().push(t) =~= seq![t]);
}

/// The kept windows from `start` on are the non-blank trimmed windows, one
/// every `step` characters, for as many windows as fit.
proof fn lemma_window_pieces_closed(chars: Seq<char>, chunk_size: nat, step: nat, start: nat) -> (k: nat)
    requires
        0 < step,
        start + chunk_size <= chars.len(),
    ensures
        k >= 1,
        start + (k - 1) * step + chunk_size <= chars.len(),
        chars.len() < start + k * step + chunk_size,
        window_pieces(chars, chunk_size, step, start) == trimmed_windows(
            chars,
            chunk_size,
            step,
            start,
            k,
        ).filter(non_blank()),
    decreases chars.len() - start,
{
    let t = trim(chars.subrange(start as int, (start + chunk_size) as int));
    let w = window_pieces(chars, chunk_size, step, start);
    lemma_filter_single(t);
    if start + step + chunk_size > chars.len() {
        let rest = if start + step <= chars.len() {
            window_pieces(chars, chunk_size, step, start + step)
        } else {
            seq![]
        };
        assert(rest.len() == 0);
        assert(trimmed_windows(chars, chunk_size, step, start, 1) =~= seq![t]) by {
            assert(start + 0 * step == start) by (nonlinear_arith);
        }
        assert((1 - 1) * step == 0) by (nonlinear_arith);
        assert(1 * step == step) by (nonlinear_arith);
        if t.len() > 0 {
            assert(w =~= seq![t]);
        } else {
            assert(w =~= Seq::<Seq<char>>::empty());
        }
        1
    } else {
        let k = lemma_window_pieces_closed(chars, chunk_size, step, start + step);
        let rest = window_pieces(chars, chunk_size, step, start + step);
        let tail = trimmed_windows(chars, chunk_size, step, start + step, k);
        let all = trimmed_windows(chars, chunk_size, step, start, k + 1);
        assert(all =~= seq![t] + tail) by {
            assert forall|j: int| 0 <= j < k + 1 implies #[trigger] all[j] == (seq![t] + tail)[j] by {
                if j == 0 {
                    assert(start + j * step == start) by (nonlinear_arith)
                        requires
                            j == 0,
                    ;
                } else {
                    assert(start + j * step == start + step + (j - 1) * step) by (nonlinear_arith);
                }
            }
        }
        Seq::filter_distributes_over_add(seq![t], tail, non_blank());
        assert(start + step + (k - 1) * step == start + k * step) by (nonlinear_arith)
            requires
                k >= 1,
        ;
        assert(start + step + k * step == start + (k + 1) * step) by (nonlinear_arith);
        if t.len() > 0 {
            assert(w == seq![t] + rest);
        } else {
            assert(w == rest);
            assert(Seq::<Seq<char>>::empty() + rest =~= rest);
        }
        k + 1
    }
}

/// A text longer than `chunk_size` is cut into windows of `chunk_size`
/// characters starting every `step = chunk_size - min(overlap,
/// chunk_size / 2)` characters, as many as fit, whatever characters the
/// text holds; the trimmed windows that are not blank are the first
/// chunks, in order. If the last window stops short of the end, the
/// trimmed rest of the text from where the next window would start
/// follows, unless it is blank.
pub proof fn chunks_are_overlapping_windows(text: Seq<char>, chunk_size: nat, overlap: nat)
    requires
        0 < chunk_size < text.len(),
    ensures
        ({
            let clamped = if overlap <= chunk_size / 2 {
                overlap
            } else {
                chunk_size / 2
            };
            let step = (chunk_size - clamped) as nat;
            let w = ((text.len() - chunk_size) as nat / step + 1) as nat;
            let kept = Seq::new(
                w,
                |k: int| trim(text.subrange(k * step, k * step + chunk_size)),
            ).filter(|t: Seq<char>| t.len() > 0);
            let rest = trim(text.subrange((w * step) as int, text.len() as int));
            chunk_contents(text, chunk_size, overlap) == if (w - 1) * step + chunk_size
                < text.len() && rest.len() > 0 {
                kept.push(rest)
            } else {
                kept
            }
        }),
{
    let step = window_step(chunk_size, overlap);
    let k = lemma_window_pieces_closed(text, chunk_size, step, 0);
    lemma_window_count_unique(text.len(), chunk_size, step, k);
    let a = trimmed_windows(text, chunk_size, step, 0, k);
    let b = Seq::new(k, |j: int| trim(text.subrange(j * step, j * step + chunk_size)));
    assert(a =~= b);
    assert(non_blank() == (|t: Seq<char>| t.len() > 0));
}

} // verus!
