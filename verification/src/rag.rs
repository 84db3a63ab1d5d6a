//! Answering a question from retrieved chunks: the cleaning of a reasoning
//! model's answer and the excerpts shown for each source.
use vstd::prelude::*;
use vstd::string::StringExecFns;
use vstd::utf8::{encode_scalar, encode_utf8};

use crate::db::SearchHit;
use crate::style::{bold, bold_text, dimmed, dimmed_text, green, green_text};
use crate::text::{
    chars_of, decimal, extend_from_range, find_chars, find_from, last_index_of,
    lemma_encode_utf8_add, lemma_encode_utf8_prefix_len, lemma_find_from, lemma_find_from_shift,
    contains_pattern, lemma_find_none, lemma_first_after, lemma_trim_idempotent, len_utf8, newlines_to_spaces, push_char,
    push_decimal, rfind_char, string_from_range, trim, trim_bounds, utf8_len_at_most,
};

verus! {

/// How many chunks a question is answered from.
pub const TOP_K: usize = 5;

/// The length in bytes of the excerpt shown for a source.
pub const EXCERPT_LEN: usize = 150;

/// The instructions given to the chat model before each question.
pub const PREAMBLE: &'static str = "You are Kwaak \u{1f99c}, the wise parrot of Crab Island. You speak with parrot flair \u{2014} sprinkle in the occasional *squawk!*, *BRAWWK!*, or *ruffles feathers*, and use emojis like \u{1f980}\u{1f965}\u{1f3dd}\u{fe0f}. But under the plumage, you are precise and knowledgeable. Use the provided context to answer accurately. If the context doesn't contain enough information, squawk honestly \u{2014} never make up answers. Keep answers concise.";

/// A document an answer drew on, with an excerpt of the chunk used.
#[derive(Debug)]
pub struct Source {
    pub title: String,
    pub path: String,
    pub excerpt: String,
}

/// The model's answer and the sources it was given.
#[derive(Debug)]
pub struct RagResponse {
    pub answer: String,
    pub sources: Vec<Source>,
}

/// The tag that opens a reasoning block.
pub open spec fn think_open() -> Seq<char> {
    seq!['<', 't', 'h', 'i', 'n', 'k', '>']
}

/// The tag that closes a reasoning block.
pub open spec fn think_close() -> Seq<char> {
    seq!['<', '/', 't', 'h', 'i', 'n', 'k', '>']
}

/// `s` from `pos` on, with each `<think>...</think>` block removed; an
/// unclosed `<think>` removes everything after it.
pub open spec fn strip_from(s: Seq<char>, pos: int) -> Seq<char>
    decreases s.len() + 1 - pos,
{
    if pos < 0 || pos > s.len() {
        seq![]
    } else {
        match find_from(s, think_open(), pos) {
            None => s.subrange(pos, s.len() as int),
            Some(i) => s.subrange(pos, i) + match find_from(s, think_close(), i + 7) {
                None => seq![],
                Some(j) => {
                    proof {
                        lemma_find_from(s, think_open(), pos);
                        lemma_find_from(s, think_close(), i + 7);
                    }
                    strip_from(s, j + 8)
                },
            },
        }
    }
}

/// One step of `strip_from`.
proof fn lemma_strip_from_unfold(s: Seq<char>, pos: int)
    requires
        0 <= pos <= s.len(),
    ensures
        find_from(s, think_open(), pos) is None ==> strip_from(s, pos) == s.subrange(
            pos,
            s.len() as int,
        ),
        find_from(s, think_open(), pos) matches Some(i) ==> {
            &&& pos <= i
            &&& i + 7 <= s.len()
            &&& find_from(s, think_close(), i + 7) is None ==> strip_from(s, pos) == s.subrange(
                pos,
                i,
            )
            &&& find_from(s, think_close(), i + 7) matches Some(j) ==> {
                &&& i + 7 <= j
                &&& j + 8 <= s.len()
                &&& strip_from(s, pos) == s.subrange(pos, i) + strip_from(s, j + 8)
            }
        },
{
    lemma_find_from(s, think_open(), pos);
    if let Some(i) = find_from(s, think_open(), pos) {
        lemma_find_from(s, think_close(), i + 7);
        if let Some(j) = find_from(s, think_close(), i + 7) {
            assert(strip_from(s, pos) == s.subrange(pos, i) + strip_from(s, j + 8));
        } else {
            assert(s.subrange(pos, i) + Seq::<char>::empty() =~= s.subrange(pos, i));
        }
    }
}

/// What `strip_think_tags` gives for `s`.
pub open spec fn stripped(s: Seq<char>) -> Seq<char> {
    trim(strip_from(s, 0))
}

/// Strips `<think>...</think>` blocks (the reasoning that models such as
/// deepseek-r1 print before their answer) and trims the rest.
#[verifier::spinoff_prover]
pub fn strip_think_tags(text: &str) -> (r: String)
    ensures
        r@ == stripped(text@),
{
    let chars = chars_of(text);
    let open = chars_of("<think>");
    let close = chars_of("</think>");
    proof {
        reveal_strlit("<think>");
        reveal_strlit("</think>");
        assert(open@ =~= think_open());
        assert(close@ =~= think_close());
    }
    let mut out: Vec<char> = Vec::new();
    let mut pos: usize = 0;
    loop
        invariant_except_break
            pos <= chars.len(),
            open@ == think_open(),
            close@ == think_close(),
            strip_from(chars@, 0) == out@ + strip_from(chars@, pos as int),
        ensures
            strip_from(chars@, 0) == out@,
        decreases chars.len() - pos,
    {
        proof {
            lemma_strip_from_unfold(chars@, pos as int);
        }
        let ghost before = out@;
        match find_chars(&chars, &open, pos) {
            None => {
                extend_from_range(&mut out, &chars, pos, chars.len());
                assert(out@ + Seq::<char>::empty() =~= out@);
                break ;
            },
            Some(i) => {
                extend_from_range(&mut out, &chars, pos, i);
                match find_chars(&chars, &close, i + 7) {
                    None => {
                        assert(out@ + Seq::<char>::empty() =~= out@);
                        break ;
                    },
                    Some(j) => {
                        assert(before + (chars@.subrange(pos as int, i as int) + strip_from(
                            chars@,
                            j + 8,
                        )) =~= out@ + strip_from(chars@, j + 8));
                        pos = j + 8;
                    },
                }
            },
        }
    }
    let (lo, hi) = trim_bounds(&out, 0, out.len());
    assert(out@.subrange(0, out.len() as int) =~= out@);
    string_from_range(&out, lo, hi)
}

/// How many of the leading characters of `s` start before byte `budget`
/// of its UTF-8 encoding.
pub open spec fn chars_starting_before(s: Seq<char>, budget: int) -> nat
    decreases s.len(),
{
    if s.len() == 0 || budget <= 0 {
        0
    } else {
        1 + chars_starting_before(s.drop_first(), budget - encode_scalar(s[0] as u32).len())
    }
}

/// What `truncate_to_excerpt` gives: the trimmed text with line feeds made
/// spaces; if that is longer than `max_len` bytes, its characters that start
/// within the first `max_len` bytes, cut at the last space among them if
/// there is one, followed by `...`.
pub open spec fn excerpt(text: Seq<char>, max_len: nat) -> Seq<char> {
    let t = newlines_to_spaces(trim(text));
    if encode_utf8(t).len() <= max_len {
        t
    } else {
        let p = t.take(chars_starting_before(t, max_len as int) as int);
        let cut = match last_index_of(p, ' ') {
            Some(j) => p.take(j),
            None => p,
        };
        cut + seq!['.', '.', '.']
    }
}

/// A short, single-line preview of `text` of about `max_len` bytes.
#[verifier::spinoff_prover]
pub fn truncate_to_excerpt(text: &str, max_len: usize) -> (r: String)
    ensures
        r@ == excerpt(text@, max_len as nat),
{
    let chars = chars_of(text);
    let (lo, hi) = trim_bounds(&chars, 0, chars.len());
    assert(chars@.subrange(0, chars.len() as int) =~= chars@);
    let ghost trimmed = chars@.subrange(lo as int, hi as int);
    let mut t: Vec<char> = Vec::new();
    let mut i = lo;
    while i < hi
        invariant
            lo <= i <= hi <= chars.len(),
            trimmed == chars@.subrange(lo as int, hi as int),
            t@ == newlines_to_spaces(chars@.subrange(lo as int, i as int)),
        decreases hi - i,
    {
        let c = chars[i];
        t.push(if c == '\n' { ' ' } else { c });
        i = i + 1;
        assert(t@ =~= newlines_to_spaces(chars@.subrange(lo as int, i as int)));
    }
    let ghost tv = t@;
    assert(tv == newlines_to_spaces(trim(text@)));
    assert(t@.subrange(0, t.len() as int) =~= t@);
    if utf8_len_at_most(&t, 0, t.len(), max_len) {
        return string_from_range(&t, 0, t.len());
    }
    let mut k: usize = 0;
    let mut budget = max_len;
    while k < t.len() && budget > 0
        invariant
            k <= t.len(),
            tv == t@,
            chars_starting_before(tv, max_len as int) == k + chars_starting_before(
                tv.skip(k as int),
                budget as int,
            ),
        decreases t.len() - k,
    {
        let n = len_utf8(t[k]);
        let ghost rest = tv.skip(k as int);
        assert(rest.drop_first() =~= tv.skip(k + 1));
        assert(rest[0] == tv[k as int]);
        assert(chars_starting_before(rest, budget as int) == 1 + chars_starting_before(
            tv.skip(k + 1),
            budget - n,
        ));
        budget = if n >= budget {
            0
        } else {
            budget - n
        };
        k = k + 1;
    }
    assert(chars_starting_before(tv.skip(k as int), budget as int) == 0);
    let end = match rfind_char(&t, k, ' ') {
        Some(j) => j,
        None => k,
    };
    proof {
        let p = tv.take(k as int);
        assert(p =~= tv.subrange(0, k as int));
        assert(end <= k);
        assert(p.take(end as int) =~= tv.subrange(0, end as int));
    }
    let mut r = string_from_range(&t, 0, end);
    r.append("...");
    proof {
        reveal_strlit("...");
    }
    r
}

/// The `i`-th entry (from 0) of the context: `[i+1] content`.
pub open spec fn context_entry(i: nat, content: Seq<char>) -> Seq<char> {
    seq!['['] + decimal(i + 1) + seq![']', ' '] + content
}

/// The context built from the first `n` hits: their entries separated by
/// blank lines.
pub open spec fn context_of(hits: Seq<SearchHit>, n: nat) -> Seq<char>
    decreases n,
{
    if n == 0 {
        seq![]
    } else if n == 1 {
        context_entry(0, hits[0].content@)
    } else {
        context_of(hits, (n - 1) as nat) + seq!['\n', '\n'] + context_entry(
            (n - 1) as nat,
            hits[n - 1].content@,
        )
    }
}

/// The prompt: `Context:`, the context, a blank line, `Question: ` and the
/// question.
pub open spec fn prompt_text(context: Seq<char>, question: Seq<char>) -> Seq<char> {
    seq!['C', 'o', 'n', 't', 'e', 'x', 't', ':', '\n'] + context + seq![
        '\n',
        '\n',
        'Q',
        'u',
        'e',
        's',
        't',
        'i',
        'o',
        'n',
        ':',
        ' ',
    ] + question
}

/// The source shown for `hit`.
pub open spec fn source_of(hit: SearchHit, s: Source) -> bool {
    &&& s.title == hit.doc_title
    &&& s.path == hit.doc_path
    &&& s.excerpt@ == excerpt(hit.content@, EXCERPT_LEN as nat)
}

/// Builds the prompt for `question` from the chunks found for it, and the
/// sources to show with the answer, one for each hit in order.
#[verifier::spinoff_prover]
pub fn prepare_query(hits: Vec<SearchHit>, question: &str) -> (r: (String, Vec<Source>))
    ensures
        r.0@ == prompt_text(context_of(hits@, hits@.len()), question@),
        r.1@.len() == hits@.len(),
        forall|i: int| 0 <= i < hits@.len() ==> source_of(hits@[i], #[trigger] r.1@[i]),
        forall|i: int|
            0 <= i < hits@.len() ==> {
                &&& (#[trigger] r.1@[i]).title == hits@[i].doc_title
                &&& r.1@[i].path == hits@[i].doc_path
                &&& r.1@[i].excerpt@ == excerpt(hits@[i].content@, 150)
            },
{
    let ghost hs = hits@;
    let count = hits.len();
    let mut context = String::new();
    let mut sources: Vec<Source> = Vec::new();
    for hit in it: hits
        invariant
            it.seq() == hs,
            hs.len() == count,
            sources@.len() == it.index(),
            context@ == context_of(hs, it.index() as nat),
            it.index() > 0 ==> context@.len() > 0,
            forall|i: int| 0 <= i < sources@.len() ==> source_of(hs[i], #[trigger] sources@[i]),
    {
        let ghost i = it.index();
        let ghost before = context@;
        assert(hit == hs[i as int]);
        proof {
            reveal_strlit("\n\n");
            reveal_strlit("] ");
        }
        assert(i == 0 <==> before.len() == 0);
        if !context.as_str().is_empty() {
            context.append("\n\n");
        }
        push_char(&mut context, '[');
        let n = sources.len();
        push_decimal(&mut context, n + 1);
        context.append("] ");
        context.append(hit.content.as_str());
        proof {
            if i == 0 {
                assert(context@ =~= context_entry(0, hs[0].content@));
            } else {
                assert(context@ =~= before + seq!['\n', '\n'] + context_entry(
                    i as nat,
                    hs[i as int].content@,
                ));
            }
        }
        let excerpt = truncate_to_excerpt(hit.content.as_str(), EXCERPT_LEN);
        sources.push(Source { excerpt, title: hit.doc_title, path: hit.doc_path });
    }
    let mut prompt = String::from_str("Context:\n");
    prompt.append(context.as_str());
    prompt.append("\n\nQuestion: ");
    prompt.append(question);
    proof {
        reveal_strlit("Context:\n");
        reveal_strlit("\n\nQuestion: ");
        assert(prompt@ =~= prompt_text(context_of(hs, hs.len()), question@));
    }
    (prompt, sources)
}

/// The response to give for the model's raw reply: its answer with the
/// reasoning removed, and the sources.
pub fn finish_query(reply: &str, sources: Vec<Source>) -> (r: RagResponse)
    ensures
        r.answer@ == stripped(reply@),
        r.sources@ == sources@,
{
    RagResponse { answer: strip_think_tags(reply), sources }
}

/// The heading above the list of sources.
pub open spec fn sources_heading() -> Seq<char> {
    seq!['\u{2500}', '\u{2500}', '\u{2500}', ' ', 'S', 'o', 'u', 'r', 'c', 'e', 's', ' ', '\u{2500}', '\u{2500}', '\u{2500}']
}

/// The two lines shown for the `i`-th source (from 0): its bold number in
/// brackets, its title in green and its path dimmed in parentheses; then
/// its excerpt in quotes, dimmed, indented.
pub open spec fn source_block(i: nat, s: Source) -> Seq<char> {
    seq![' ', ' '] + bold_text(seq!['['] + decimal(i + 1) + seq![']']) + seq![' '] + green_text(
        s.title@,
    ) + seq![' ', '('] + dimmed_text(s.path@) + seq![')', '\n', ' ', ' ', ' ', ' ', ' ', ' ']
        + dimmed_text(seq!['"'] + s.excerpt@ + seq!['"']) + seq!['\n']
}

/// The blocks of the first `n` sources.
pub open spec fn source_blocks(sources: Seq<Source>, n: nat) -> Seq<char>
    decreases n,
{
    if n == 0 {
        seq![]
    } else {
        source_blocks(sources, (n - 1) as nat) + source_block((n - 1) as nat, sources[n - 1])
    }
}

/// A response as shown in a terminal: the answer on its line, then, if
/// there are sources, a blank line, the dimmed heading, and each source.
pub open spec fn rendered(answer: Seq<char>, sources: Seq<Source>) -> Seq<char> {
    answer + seq!['\n'] + if sources.len() == 0 {
        seq![]
    } else {
        seq!['\n'] + dimmed_text(sources_heading()) + seq!['\n'] + source_blocks(
            sources,
            sources.len(),
        )
    }
}

/// The two lines shown for the `i`-th source.
fn source_block_text(i: usize, source: &Source) -> (r: String)
    requires
        i < usize::MAX,
    ensures
        r@ == source_block(i as nat, *source),
{
    let mut idx = String::new();
    push_char(&mut idx, '[');
    push_decimal(&mut idx, i + 1);
    push_char(&mut idx, ']');
    let mut quoted = String::new();
    push_char(&mut quoted, '"');
    quoted.append(source.excerpt.as_str());
    push_char(&mut quoted, '"');
    let mut out = String::new();
    out.append("  ");
    out.append(bold(idx.as_str()).as_str());
    push_char(&mut out, ' ');
    out.append(green(source.title.as_str()).as_str());
    out.append(" (");
    out.append(dimmed(source.path.as_str()).as_str());
    out.append(")\n      ");
    out.append(dimmed(quoted.as_str()).as_str());
    push_char(&mut out, '\n');
    proof {
        reveal_strlit("  ");
        reveal_strlit(" (");
        reveal_strlit(")\n      ");
        assert(out@ =~= source_block(i as nat, *source));
    }
    out
}

impl RagResponse {
    /// The response as shown in a terminal, with colours.
    #[verifier::spinoff_prover]
    pub fn render(&self) -> (r: String)
        ensures
            r@ == rendered(self.answer@, self.sources@),
    {
        let mut out = String::from_str(self.answer.as_str());
        push_char(&mut out, '\n');
        if self.sources.len() == 0 {
            return out;
        }
        push_char(&mut out, '\n');
        let heading = dimmed("\u{2500}\u{2500}\u{2500} Sources \u{2500}\u{2500}\u{2500}");
        proof {
            reveal_strlit("\u{2500}\u{2500}\u{2500} Sources \u{2500}\u{2500}\u{2500}");
            assert(heading@ =~= dimmed_text(sources_heading()));
        }
        out.append(heading.as_str());
        push_char(&mut out, '\n');
        let ghost head = out@;
        let mut i: usize = 0;
        while i < self.sources.len()
            invariant
                i <= self.sources@.len(),
                out@ == head + source_blocks(self.sources@, i as nat),
            decreases self.sources@.len() - i,
        {
            let ghost before = out@;
            let block = source_block_text(i, &self.sources[i]);
            out.append(block.as_str());
            assert(out@ =~= before + source_block(i as nat, self.sources@[i as int]));
            i = i + 1;
        }
        out
    }
}

/// Stripping `x + y` from inside `y` is stripping `y`.
proof fn lemma_strip_from_shift(x: Seq<char>, y: Seq<char>, j: int)
    requires
        0 <= j <= y.len(),
    ensures
        strip_from(x + y, x.len() + j) == strip_from(y, j),
    decreases y.len() + 1 - j,
{
    let s = x + y;
    let p = x.len() + j;
    lemma_strip_from_unfold(s, p);
    lemma_strip_from_unfold(y, j);
    lemma_find_from_shift(x, y, think_open(), j);
    match find_from(y, think_open(), j) {
        None => {
            assert(s.subrange(p, s.len() as int) =~= y.subrange(j, y.len() as int));
        },
        Some(i) => {
            lemma_find_from_shift(x, y, think_close(), i + 7);
            assert(x.len() + (i + 7) == i + x.len() + 7);
            assert(s.subrange(p, i + x.len()) =~= y.subrange(j, i));
            match find_from(y, think_close(), i + 7) {
                None => {},
                Some(k) => {
                    lemma_strip_from_shift(x, y, k + 8);
                    assert(x.len() + (k + 8) == k + x.len() + 8);
                },
            }
        },
    }
}

/// Text without `<think>` is only trimmed.
pub proof fn no_think_tag_passes_through(text: Seq<char>)
    requires
        find_from(text, think_open(), 0) is None,
    ensures
        stripped(text) == trim(text),
{
    lemma_strip_from_unfold(text, 0);
    assert(text.subrange(0, text.len() as int) =~= text);
}

/// What `strip_think_tags` returns is trimmed.
pub proof fn stripped_is_trimmed(text: Seq<char>)
    ensures
        trim(stripped(text)) == stripped(text),
{
    lemma_trim_idempotent(strip_from(text, 0));
}

/// A closed reasoning block is removed, with what stands before it kept and
/// what follows it stripped in turn.
pub proof fn think_block_removed(before: Seq<char>, reasoning: Seq<char>, after: Seq<char>)
    requires
        find_from(before, think_open(), 0) is None,
        find_from(reasoning, think_close(), 0) is None,
    ensures
        stripped(before + think_open() + reasoning + think_close() + after) == trim(
            before + strip_from(after, 0),
        ),
{
    let o = think_open();
    let c = think_close();
    let rest = reasoning + c + after;
    let s = before + o + rest;
    assert(before + o + reasoning + c + after =~= s);
    lemma_first_after(before, o, rest);
    lemma_first_after(reasoning, c, after);
    lemma_find_from_shift(before + o, rest, c, 0);
    assert((before + o) + rest =~= s);
    let start = before.len() + 7 + reasoning.len() + 8;
    lemma_strip_from_unfold(s, 0);
    assert(s.subrange(0, before.len() as int) =~= before);
    let head = before + o + reasoning + c;
    assert(head + after =~= s);
    lemma_strip_from_shift(head, after, 0);
    lemma_strip_from_unfold(s, 0);
}

/// An unclosed reasoning block removes everything after it.
pub proof fn unclosed_think_block_removed(before: Seq<char>, reasoning: Seq<char>)
    requires
        find_from(before, think_open(), 0) is None,
        find_from(reasoning, think_close(), 0) is None,
    ensures
        stripped(before + think_open() + reasoning) == trim(before),
{
    let o = think_open();
    let s = before + o + reasoning;
    lemma_first_after(before, o, reasoning);
    lemma_find_from_shift(before + o, reasoning, think_close(), 0);
    lemma_strip_from_unfold(s, 0);
    assert(s.subrange(0, before.len() as int) =~= before);
}

/// The characters that start before byte `budget` take fewer than
/// `budget + 4` bytes.
proof fn lemma_chars_starting_before_len(s: Seq<char>, budget: int)
    ensures
        chars_starting_before(s, budget) <= s.len(),
        encode_utf8(s.take(chars_starting_before(s, budget) as int)).len() <= if budget <= 0 {
            0
        } else {
            budget + 3
        },
    decreases s.len(),
{
    let n = chars_starting_before(s, budget);
    if s.len() == 0 || budget <= 0 {
        assert(s.take(0) =~= Seq::<char>::empty());
    } else {
        let w = encode_scalar(s[0] as u32).len();
        let rest = s.drop_first();
        lemma_chars_starting_before_len(rest, budget - w);
        let m = chars_starting_before(rest, budget - w);
        assert(s.take(n as int) =~= seq![s[0]] + rest.take(m as int));
        lemma_encode_utf8_add(seq![s[0]], rest.take(m as int));
        assert(seq![s[0]].drop_first() =~= Seq::<char>::empty());
        assert(encode_utf8(Seq::<char>::empty()) =~= Seq::<u8>::empty());
        assert(encode_utf8(seq![s[0]]) == encode_scalar(s[0] as u32) + encode_utf8(
            Seq::<char>::empty(),
        ));
        assert(encode_utf8(seq![s[0]]) =~= encode_scalar(s[0] as u32));
    }
}

/// An excerpt is a single line.
pub proof fn excerpt_is_one_line(text: Seq<char>, max_len: nat)
    ensures
        !excerpt(text, max_len).contains('\n'),
{
    let t = newlines_to_spaces(trim(text));
    let e = excerpt(text, max_len);
    assert(!t.contains('\n'));
    if encode_utf8(t).len() > max_len {
        let p = t.take(chars_starting_before(t, max_len as int) as int);
        let cut = match last_index_of(p, ' ') {
            Some(j) => p.take(j),
            None => p,
        };
        lemma_chars_starting_before_len(t, max_len as int);
        lemma_last_index_of_bound(p, ' ');
        assert(e == cut + seq!['.', '.', '.']);
        assert forall|i: int| 0 <= i < e.len() implies e[i] != '\n' by {
            if i < cut.len() {
                assert(e[i] == cut[i]);
                assert(cut[i] == t[i]);
            }
        }
    }
}

/// An excerpt takes at most `max_len + 6` bytes: the characters that start
/// within `max_len` bytes, and `...`.
pub proof fn excerpt_length_bound(text: Seq<char>, max_len: nat)
    ensures
        encode_utf8(excerpt(text, max_len)).len() <= max_len + 6,
{
    let t = newlines_to_spaces(trim(text));
    if encode_utf8(t).len() > max_len {
        let k = chars_starting_before(t, max_len as int);
        let p = t.take(k as int);
        lemma_chars_starting_before_len(t, max_len as int);
        let cut = match last_index_of(p, ' ') {
            Some(j) => p.take(j),
            None => p,
        };
        lemma_last_index_of_bound(p, ' ');
        if let Some(j) = last_index_of(p, ' ') {
            lemma_encode_utf8_prefix_len(p, j);
            assert(p.subrange(0, j) =~= p.take(j));
        }
        let dots = seq!['.', '.', '.'];
        lemma_encode_utf8_add(cut, dots);
        assert(encode_utf8(dots).len() == 3) by {
            reveal_with_fuel(encode_utf8, 4);
        }
    }
}

/// `last_index_of` finds an index of the sequence.
proof fn lemma_last_index_of_bound(s: Seq<char>, c: char)
    ensures
        last_index_of(s, c) matches Some(j) ==> 0 <= j < s.len(),
    decreases s.len(),
{
    if s.len() > 0 && s.last() != c {
        lemma_last_index_of_bound(s.drop_last(), c);
    }
}

/// The question asked on a chat input line: the trimmed line, unless it
/// is blank or `exit` or `quit`, which end the chat.
pub open spec fn chat_question(line: Seq<char>) -> Option<Seq<char>> {
    let q = trim(line);
    if q.len() == 0 || q == seq!['e', 'x', 'i', 't'] || q == seq!['q', 'u', 'i', 't'] {
        None
    } else {
        Some(q)
    }
}

/// Reads a chat input line: the question to answer, or `None` to end the
/// chat.
pub fn question_from_line(line: &str) -> (r: Option<String>)
    ensures
        r matches Some(q) ==> chat_question(line@) == Some(q@),
        r is None ==> chat_question(line@) is None,
{
    let chars = chars_of(line);
    let (lo, hi) = trim_bounds(&chars, 0, chars.len());
    assert(chars@.subrange(0, chars.len() as int) =~= chars@);
    let exit = chars_of("exit");
    let quit = chars_of("quit");
    proof {
        reveal_strlit("exit");
        reveal_strlit("quit");
        assert(exit@ =~= seq!['e', 'x', 'i', 't']);
        assert(quit@ =~= seq!['q', 'u', 'i', 't']);
    }
    if lo == hi || range_equals(&chars, lo, hi, &exit) || range_equals(&chars, lo, hi, &quit) {
        None
    } else {
        Some(string_from_range(&chars, lo, hi))
    }
}

/// Whether `v[from..to]` is `w`.
fn range_equals(v: &Vec<char>, from: usize, to: usize, w: &Vec<char>) -> (b: bool)
    requires
        from <= to <= v.len(),
    ensures
        b == (v@.subrange(from as int, to as int) == w@),
{
    if to - from != w.len() {
        return false;
    }
    let mut i: usize = 0;
    while i < w.len()
        invariant
            from <= to <= v.len(),
            to - from == w.len(),
            i <= w.len(),
            forall|k: int| 0 <= k < i ==> v@[from + k] == w@[k],
        decreases w.len() - i,
    {
        if v[from + i] != w[i] {
            assert(v@.subrange(from as int, to as int)[i as int] != w@[i as int]);
            return false;
        }
        i = i + 1;
    }
    assert(v@.subrange(from as int, to as int) =~= w@);
    true
}

/// The context's parts for the first `n` hits: the `i`-th is its entry
/// `[i+1] content`, after a blank line unless it is the first.
pub open spec fn context_parts(hits: Seq<SearchHit>, n: nat) -> Seq<Seq<char>> {
    Seq::new(
        n,
        |i: int|
            (if i == 0 {
                Seq::<char>::empty()
            } else {
                seq!['\n', '\n']
            }) + seq!['['] + decimal((i + 1) as nat) + seq![']', ' '] + hits[i].content@,
    )
}

proof fn lemma_context_parts(hits: Seq<SearchHit>, n: nat)
    requires
        n <= hits.len(),
    ensures
        context_of(hits, n) == context_parts(hits, n).flatten(),
    decreases n,
{
    broadcast use Seq::lemma_flatten_push, Seq::lemma_flatten_singleton;

    let parts = context_parts(hits, n);
    if n == 0 {
        assert(parts =~= Seq::<Seq<char>>::empty());
    } else if n == 1 {
        assert(parts.len() == 1);
        assert(parts.flatten() == parts[0]);
        assert(parts[0] =~= context_entry(0, hits[0].content@));
    } else {
        lemma_context_parts(hits, (n - 1) as nat);
        assert(parts =~= context_parts(hits, (n - 1) as nat).push(parts[n - 1]));
        assert(parts[n - 1] =~= seq!['\n', '\n'] + context_entry(
            (n - 1) as nat,
            hits[n - 1].content@,
        ));
    }
}

/// The prompt holds every retrieved chunk, in order and whatever its rank:
/// `Context:`, then for each hit `i` the entry `[i+1] content`, the
/// entries separated by blank lines, then a blank line, `Question: ` and
/// the question.
pub proof fn prompt_lists_every_hit(hits: Seq<SearchHit>, question: Seq<char>)
    ensures
        prompt_text(context_of(hits, hits.len()), question) == seq![
            'C',
            'o',
            'n',
            't',
            'e',
            'x',
            't',
            ':',
            '\n',
        ] + Seq::new(
            hits.len(),
            |i: int|
                (if i == 0 {
                    Seq::<char>::empty()
                } else {
                    seq!['\n', '\n']
                }) + seq!['['] + decimal((i + 1) as nat) + seq![']', ' '] + hits[i].content@,
        ).flatten() + seq!['\n', '\n', 'Q', 'u', 'e', 's', 't', 'i', 'o', 'n', ':', ' ']
            + question,
{
    lemma_context_parts(hits, hits.len());
}

/// The two lines shown for each source, numbered from 1.
pub open spec fn source_lines(sources: Seq<Source>, n: nat) -> Seq<Seq<char>> {
    Seq::new(
        n,
        |i: int|
            seq![' ', ' '] + bold_text(seq!['['] + decimal((i + 1) as nat) + seq![']']) + seq![' ']
                + green_text(sources[i].title@) + seq![' ', '('] + dimmed_text(sources[i].path@)
                + seq![')', '\n', ' ', ' ', ' ', ' ', ' ', ' '] + dimmed_text(
                seq!['"'] + sources[i].excerpt@ + seq!['"'],
            ) + seq!['\n'],
    )
}

proof fn lemma_source_lines(sources: Seq<Source>, n: nat)
    requires
        n <= sources.len(),
    ensures
        source_blocks(sources, n) == source_lines(sources, n).flatten(),
    decreases n,
{
    broadcast use Seq::lemma_flatten_push;

    let lines = source_lines(sources, n);
    if n == 0 {
        assert(lines =~= Seq::<Seq<char>>::empty());
    } else {
        lemma_source_lines(sources, (n - 1) as nat);
        assert(lines =~= source_lines(sources, (n - 1) as nat).push(lines[n - 1]));
        assert(lines[n - 1] =~= source_block((n - 1) as nat, sources[n - 1]));
    }
}

/// A rendered response is its answer on its own line; then, if there are
/// sources, a blank line, the dimmed heading `─── Sources ───`, and every
/// source in order, whatever its title or path: its bold number `[i+1]`,
/// its title in green and its dimmed path in parentheses, then its quoted
/// excerpt dimmed on an indented line.
pub proof fn render_lists_every_source(answer: Seq<char>, sources: Seq<Source>)
    ensures
        rendered(answer, sources) == answer + seq!['\n'] + if sources.len() == 0 {
            Seq::<char>::empty()
        } else {
            seq!['\n'] + dimmed_text(
                seq![
                    '\u{2500}',
                    '\u{2500}',
                    '\u{2500}',
                    ' ',
                    'S',
                    'o',
                    'u',
                    'r',
                    'c',
                    'e',
                    's',
                    ' ',
                    '\u{2500}',
                    '\u{2500}',
                    '\u{2500}',
                ],
            ) + seq!['\n'] + Seq::new(
                sources.len(),
                |i: int|
                    seq![' ', ' '] + bold_text(seq!['['] + decimal((i + 1) as nat) + seq![']'])
                        + seq![' '] + green_text(sources[i].title@) + seq![' ', '(']
                        + dimmed_text(sources[i].path@) + seq![')', '\n', ' ', ' ', ' ', ' ', ' ', ' ']
                        + dimmed_text(seq!['"'] + sources[i].excerpt@ + seq!['"']) + seq!['\n'],
            ).flatten()
        },
{
    lemma_source_lines(sources, sources.len());
    assert(source_lines(sources, sources.len()) =~= Seq::new(
        sources.len(),
        |i: int|
            seq![' ', ' '] + bold_text(seq!['['] + decimal((i + 1) as nat) + seq![']']) + seq![' ']
                + green_text(sources[i].title@) + seq![' ', '('] + dimmed_text(sources[i].path@)
                + seq![')', '\n', ' ', ' ', ' ', ' ', ' ', ' '] + dimmed_text(
                seq!['"'] + sources[i].excerpt@ + seq!['"'],
            ) + seq!['\n'],
    ));
}

/// Only a blank line, `exit` or `quit` (after trimming) ends the chat; any
/// other line is asked, trimmed, as it is.
pub proof fn only_exit_quit_or_blank_end_chat(line: Seq<char>)
    ensures
        trim(line).len() > 0 && trim(line) != seq!['e', 'x', 'i', 't'] && trim(line) != seq![
            'q',
            'u',
            'i',
            't',
        ] ==> chat_question(line) == Some(trim(line)),
        chat_question(line) is None ==> trim(line).len() == 0 || trim(line) == seq![
            'e',
            'x',
            'i',
            't',
        ] || trim(line) == seq!['q', 'u', 'i', 't'],
        chat_question(line) matches Some(q) ==> q == trim(line),
{
}

/// A closed reasoning block is cut out of the stripped text.
proof fn lemma_block_strip(before: Seq<char>, reasoning: Seq<char>, after: Seq<char>)
    requires
        find_from(before, think_open(), 0) is None,
        find_from(reasoning, think_close(), 0) is None,
    ensures
        strip_from(before + think_open() + reasoning + think_close() + after, 0) == before
            + strip_from(after, 0),
{
    let o = think_open();
    let c = think_close();
    let rest = reasoning + c + after;
    let s = before + o + rest;
    assert(before + o + reasoning + c + after =~= s);
    lemma_first_after(before, o, rest);
    lemma_first_after(reasoning, c, after);
    lemma_find_from_shift(before + o, rest, c, 0);
    assert((before + o) + rest =~= s);
    lemma_strip_from_unfold(s, 0);
    assert(s.subrange(0, before.len() as int) =~= before);
    let head = before + o + reasoning + c;
    assert(head + after =~= s);
    lemma_strip_from_shift(head, after, 0);
}

/// The text made of `outside[0]`, a block with `inside[0]`, `outside[1]`,
/// ..., and last `outside[n]`.
pub open spec fn with_blocks(outside: Seq<Seq<char>>, inside: Seq<Seq<char>>) -> Seq<char> {
    Seq::new(
        inside.len(),
        |i: int|
            outside[i] + seq!['<', 't', 'h', 'i', 'n', 'k', '>'] + inside[i] + seq![
                '<',
                '/',
                't',
                'h',
                'i',
                'n',
                'k',
                '>',
            ],
    ).flatten() + outside[inside.len() as int]
}

proof fn lemma_with_blocks_strip(outside: Seq<Seq<char>>, inside: Seq<Seq<char>>)
    requires
        outside.len() == inside.len() + 1,
        forall|k: int|
            0 <= k < outside.len() ==> !contains_pattern(
                #[trigger] outside[k],
                seq!['<', 't', 'h', 'i', 'n', 'k', '>'],
            ),
        forall|k: int|
            0 <= k < inside.len() ==> !contains_pattern(
                #[trigger] inside[k],
                seq!['<', '/', 't', 'h', 'i', 'n', 'k', '>'],
            ),
    ensures
        strip_from(with_blocks(outside, inside), 0) == outside.flatten(),
    decreases inside.len(),
{
    assert(think_open() =~= seq!['<', 't', 'h', 'i', 'n', 'k', '>']);
    assert(think_close() =~= seq!['<', '/', 't', 'h', 'i', 'n', 'k', '>']);
    let text = with_blocks(outside, inside);
    if inside.len() == 0 {
        assert(text =~= outside[0]);
        assert(outside.drop_first() =~= Seq::<Seq<char>>::empty());
        assert(outside.flatten() =~= outside[0] + Seq::<Seq<char>>::empty().flatten());
        lemma_find_none(outside[0], think_open(), 0);
        lemma_strip_from_unfold(text, 0);
        assert(text.subrange(0, text.len() as int) =~= text);
    } else {
        let o2 = outside.drop_first();
        let i2 = inside.drop_first();
        lemma_with_blocks_strip(o2, i2);
        lemma_find_none(outside[0], think_open(), 0);
        lemma_find_none(inside[0], think_close(), 0);
        let blocks = Seq::new(
            inside.len(),
            |i: int|
                outside[i] + seq!['<', 't', 'h', 'i', 'n', 'k', '>'] + inside[i] + seq![
                    '<',
                    '/',
                    't',
                    'h',
                    'i',
                    'n',
                    'k',
                    '>',
                ],
        );
        let blocks2 = Seq::new(
            i2.len(),
            |i: int|
                o2[i] + seq!['<', 't', 'h', 'i', 'n', 'k', '>'] + i2[i] + seq![
                    '<',
                    '/',
                    't',
                    'h',
                    'i',
                    'n',
                    'k',
                    '>',
                ],
        );
        assert(blocks.drop_first() =~= blocks2);
        assert(blocks.flatten() == blocks[0] + blocks2.flatten());
        let after = with_blocks(o2, i2);
        assert(text =~= outside[0] + think_open() + inside[0] + think_close() + after);
        lemma_block_strip(outside[0], inside[0], after);
    }
}

/// Reasoning blocks are cut out: a text made of pieces without `<think>`,
/// with a `<think>...</think>` block between each two (the reasoning
/// without `</think>`), strips to its pieces joined and trimmed.
pub proof fn reasoning_blocks_are_cut_out(outside: Seq<Seq<char>>, inside: Seq<Seq<char>>)
    requires
        outside.len() == inside.len() + 1,
        forall|k: int|
            0 <= k < outside.len() ==> !contains_pattern(
                #[trigger] outside[k],
                seq!['<', 't', 'h', 'i', 'n', 'k', '>'],
            ),
        forall|k: int|
            0 <= k < inside.len() ==> !contains_pattern(
                #[trigger] inside[k],
                seq!['<', '/', 't', 'h', 'i', 'n', 'k', '>'],
            ),
    ensures
        stripped(with_blocks(outside, inside)) == trim(outside.flatten()),
{
    lemma_with_blocks_strip(outside, inside);
}

proof fn lemma_with_blocks_unclosed(
    outside: Seq<Seq<char>>,
    inside: Seq<Seq<char>>,
    reasoning: Seq<char>,
)
    requires
        outside.len() == inside.len() + 1,
        forall|k: int|
            0 <= k < outside.len() ==> !contains_pattern(
                #[trigger] outside[k],
                seq!['<', 't', 'h', 'i', 'n', 'k', '>'],
            ),
        forall|k: int|
            0 <= k < inside.len() ==> !contains_pattern(
                #[trigger] inside[k],
                seq!['<', '/', 't', 'h', 'i', 'n', 'k', '>'],
            ),
        !contains_pattern(reasoning, seq!['<', '/', 't', 'h', 'i', 'n', 'k', '>']),
    ensures
        strip_from(
            with_blocks(outside, inside) + seq!['<', 't', 'h', 'i', 'n', 'k', '>'] + reasoning,
            0,
        ) == outside.flatten(),
    decreases inside.len(),
{
    assert(think_open() =~= seq!['<', 't', 'h', 'i', 'n', 'k', '>']);
    assert(think_close() =~= seq!['<', '/', 't', 'h', 'i', 'n', 'k', '>']);
    let text = with_blocks(outside, inside) + think_open() + reasoning;
    lemma_find_none(reasoning, think_close(), 0);
    lemma_find_none(outside[0], think_open(), 0);
    if inside.len() == 0 {
        assert(with_blocks(outside, inside) =~= outside[0]);
        assert(outside.drop_first() =~= Seq::<Seq<char>>::empty());
        assert(outside.flatten() =~= outside[0] + Seq::<Seq<char>>::empty().flatten());
        unclosed_think_block_removed(outside[0], reasoning);
        lemma_first_after(outside[0], think_open(), reasoning);
        lemma_find_from_shift(outside[0] + think_open(), reasoning, think_close(), 0);
        lemma_strip_from_unfold(text, 0);
        assert(text.subrange(0, outside[0].len() as int) =~= outside[0]);
    } else {
        let o2 = outside.drop_first();
        let i2 = inside.drop_first();
        lemma_with_blocks_unclosed(o2, i2, reasoning);
        lemma_find_none(inside[0], think_close(), 0);
        let blocks = Seq::new(
            inside.len(),
            |i: int|
                outside[i] + seq!['<', 't', 'h', 'i', 'n', 'k', '>'] + inside[i] + seq![
                    '<',
                    '/',
                    't',
                    'h',
                    'i',
                    'n',
                    'k',
                    '>',
                ],
        );
        let blocks2 = Seq::new(
            i2.len(),
            |i: int|
                o2[i] + seq!['<', 't', 'h', 'i', 'n', 'k', '>'] + i2[i] + seq![
                    '<',
                    '/',
                    't',
                    'h',
                    'i',
                    'n',
                    'k',
                    '>',
                ],
        );
        assert(blocks.drop_first() =~= blocks2);
        assert(blocks.flatten() == blocks[0] + blocks2.flatten());
        let after = with_blocks(o2, i2) + think_open() + reasoning;
        assert(text =~= outside[0] + think_open() + inside[0] + think_close() + after);
        lemma_block_strip(outside[0], inside[0], after);
    }
}

/// A last reasoning block left open cuts off the rest of the text.
pub proof fn open_reasoning_block_cuts_the_rest(
    outside: Seq<Seq<char>>,
    inside: Seq<Seq<char>>,
    reasoning: Seq<char>,
)
    requires
        outside.len() == inside.len() + 1,
        forall|k: int|
            0 <= k < outside.len() ==> !contains_pattern(
                #[trigger] outside[k],
                seq!['<', 't', 'h', 'i', 'n', 'k', '>'],
            ),
        forall|k: int|
            0 <= k < inside.len() ==> !contains_pattern(
                #[trigger] inside[k],
                seq!['<', '/', 't', 'h', 'i', 'n', 'k', '>'],
            ),
        !contains_pattern(reasoning, seq!['<', '/', 't', 'h', 'i', 'n', 'k', '>']),
    ensures
        stripped(
            with_blocks(outside, inside) + seq!['<', 't', 'h', 'i', 'n', 'k', '>'] + reasoning,
        ) == trim(outside.flatten()),
{
    lemma_with_blocks_unclosed(outside, inside, reasoning);
}

/// The characters counted by `chars_starting_before` are exactly those
/// whose first byte comes before `budget`.
proof fn lemma_chars_starting_before_exact(s: Seq<char>, budget: int)
    ensures
        chars_starting_before(s, budget) <= s.len(),
        forall|j: int|
            0 <= j < chars_starting_before(s, budget) ==> encode_utf8(#[trigger] s.take(j)).len()
                < budget,
        chars_starting_before(s, budget) < s.len() ==> encode_utf8(
            s.take(chars_starting_before(s, budget) as int),
        ).len() >= budget,
    decreases s.len(),
{
    let k = chars_starting_before(s, budget);
    if s.len() == 0 || budget <= 0 {
        assert(s.take(0) =~= Seq::<char>::empty());
    } else {
        let w = encode_scalar(s[0] as u32).len();
        let rest = s.drop_first();
        lemma_chars_starting_before_exact(rest, budget - w);
        let k2 = chars_starting_before(rest, budget - w);
        assert(seq![s[0]].drop_first() =~= Seq::<char>::empty());
        assert(encode_utf8(Seq::<char>::empty()) =~= Seq::<u8>::empty());
        assert(encode_utf8(seq![s[0]]) == encode_scalar(s[0] as u32) + encode_utf8(
            Seq::<char>::empty(),
        ));
        assert(encode_utf8(seq![s[0]]) =~= encode_scalar(s[0] as u32));
        assert forall|j: int| 0 <= j < k implies encode_utf8(#[trigger] s.take(j)).len() < budget by {
            if j == 0 {
                assert(s.take(0) =~= Seq::<char>::empty());
            } else {
                assert(s.take(j) =~= seq![s[0]] + rest.take(j - 1));
                lemma_encode_utf8_add(seq![s[0]], rest.take(j - 1));
            }
        }
        if k < s.len() {
            assert(s.take(k as int) =~= seq![s[0]] + rest.take(k2 as int));
            lemma_encode_utf8_add(seq![s[0]], rest.take(k2 as int));
        }
    }
}

/// `last_index_of` finds the last occurrence.
proof fn lemma_last_index_of_exact(s: Seq<char>, c: char)
    ensures
        last_index_of(s, c) matches Some(j) ==> 0 <= j < s.len() && s[j] == c && forall|i: int|
            j < i < s.len() ==> s[i] != c,
        last_index_of(s, c) is None ==> forall|i: int| 0 <= i < s.len() ==> s[i] != c,
    decreases s.len(),
{
    if s.len() > 0 && s.last() != c {
        lemma_last_index_of_exact(s.drop_last(), c);
        assert forall|i: int| 0 <= i < s.len() - 1 implies s[i] == s.drop_last()[i] by {}
    }
}

/// `excerpt` is `t[..cut] + "..."`, where `t[..k]` are the characters of
/// `t` whose first byte comes before byte `max_len`, and `cut` is the last
/// space among them, or `k` if there is none.
pub open spec fn cut_at_last_space(
    t: Seq<char>,
    max_len: nat,
    excerpt: Seq<char>,
    k: int,
    cut: int,
) -> bool {
    &&& 0 <= cut <= k <= t.len()
    &&& forall|j: int| 0 <= j < k ==> encode_utf8(#[trigger] t.take(j)).len() < max_len
    &&& k < t.len() ==> encode_utf8(t.take(k)).len() >= max_len
    &&& cut < k ==> t[cut] == ' ' && forall|j: int| cut < j < k ==> t[j] != ' '
    &&& cut == k ==> forall|j: int| 0 <= j < k ==> t[j] != ' '
    &&& excerpt == t.take(cut) + seq!['.', '.', '.']
}

/// An excerpt is the trimmed text with line feeds made spaces, if that
/// fits in `max_len` bytes. Otherwise it keeps the characters whose first
/// byte comes before byte `max_len`, cut before the last space among them
/// if there is one, and ends with `...`.
pub proof fn excerpt_cuts_at_the_last_space(text: Seq<char>, max_len: nat)
    ensures
        ({
            let t = trim(text).map_values(|c: char| if c == '\n' { ' ' } else { c });
            &&& encode_utf8(t).len() <= max_len ==> excerpt(text, max_len) == t
            &&& encode_utf8(t).len() > max_len ==> exists|k: int, cut: int|
                #[trigger] cut_at_last_space(t, max_len, excerpt(text, max_len), k, cut)
        }),
{
    let t = newlines_to_spaces(trim(text));
    assert(t =~= trim(text).map_values(|c: char| if c == '\n' { ' ' } else { c }));
    if encode_utf8(t).len() > max_len {
        let k = chars_starting_before(t, max_len as int);
        lemma_chars_starting_before_exact(t, max_len as int);
        let p = t.take(k as int);
        lemma_last_index_of_exact(p, ' ');
        match last_index_of(p, ' ') {
            Some(j) => {
                assert(p.take(j) =~= t.take(j));
                assert forall|i: int| j < i < k implies t[i] != ' ' by {
                    assert(p[i] == t[i]);
                }
                assert(p[j] == t[j]);
                assert(excerpt(text, max_len) == t.take(j) + seq!['.', '.', '.']);
                assert(cut_at_last_space(t, max_len, excerpt(text, max_len), k as int, j));
            },
            None => {
                assert forall|i: int| 0 <= i < k implies t[i] != ' ' by {
                    assert(p[i] == t[i]);
                }
                assert(excerpt(text, max_len) == t.take(k as int) + seq!['.', '.', '.']);
                assert(cut_at_last_space(t, max_len, excerpt(text, max_len), k as int, k as int));
            },
        }
    }
}

} // verus!
