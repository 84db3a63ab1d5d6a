//! Character-level text operations shared by the library: Unicode
//! whitespace, trimming, pattern search, and conversions between `&str`,
//! `String` and `Vec<char>`.
use vstd::prelude::*;
use vstd::utf8::{char_is_scalar, encode_scalar, encode_utf8};

verus! {

/// The Unicode `White_Space` property, which `char::is_whitespace` and
/// `str::trim` go by.
pub open spec fn is_white_space(c: char) -> bool {
    let u = c as u32;
    ||| 0x09 <= u <= 0x0d
    ||| u == 0x20
    ||| u == 0x85
    ||| u == 0xa0
    ||| u == 0x1680
    ||| 0x2000 <= u <= 0x200a
    ||| u == 0x2028
    ||| u == 0x2029
    ||| u == 0x202f
    ||| u == 0x205f
    ||| u == 0x3000
}

/// `s` with its leading whitespace removed.
pub open spec fn trim_start(s: Seq<char>) -> Seq<char>
    decreases s.len(),
{
    if s.len() > 0 && is_white_space(s[0]) {
        trim_start(s.drop_first())
    } else {
        s
    }
}

/// `s` with its trailing whitespace removed.
pub open spec fn trim_end(s: Seq<char>) -> Seq<char>
    decreases s.len(),
{
    if s.len() > 0 && is_white_space(s.last()) {
        trim_end(s.drop_last())
    } else {
        s
    }
}

/// `s` with leading and trailing whitespace removed, as `str::trim` does.
pub open spec fn trim(s: Seq<char>) -> Seq<char> {
    trim_end(trim_start(s))
}

/// Whether `c` has the Unicode `White_Space` property.
pub fn is_whitespace(c: char) -> (b: bool)
    ensures
        b == is_white_space(c),
{
    let u = c as u32;
    (0x09 <= u && u <= 0x0d) || u == 0x20 || u == 0x85 || u == 0xa0 || u == 0x1680 || (0x2000
        <= u && u <= 0x200a) || u == 0x2028 || u == 0x2029 || u == 0x202f || u == 0x205f || u
        == 0x3000
}

/// Skipping a whitespace prefix does not change `trim_start`.
proof fn lemma_trim_start_skip(s: Seq<char>, i: int)
    requires
        0 <= i <= s.len(),
        forall|k: int| 0 <= k < i ==> is_white_space(#[trigger] s[k]),
    ensures
        trim_start(s) == trim_start(s.subrange(i, s.len() as int)),
    decreases i,
{
    if i > 0 {
        assert(s.drop_first().subrange(i - 1, s.drop_first().len() as int) =~= s.subrange(
            i,
            s.len() as int,
        ));
        lemma_trim_start_skip(s.drop_first(), i - 1);
    } else {
        assert(s.subrange(0, s.len() as int) =~= s);
    }
}

/// Dropping a whitespace suffix does not change `trim_end`.
proof fn lemma_trim_end_cut(s: Seq<char>, j: int)
    requires
        0 <= j <= s.len(),
        forall|k: int| j <= k < s.len() ==> is_white_space(#[trigger] s[k]),
    ensures
        trim_end(s) == trim_end(s.subrange(0, j)),
    decreases s.len() - j,
{
    if j < s.len() {
        assert(s.drop_last().subrange(0, j) =~= s.subrange(0, j));
        lemma_trim_end_cut(s.drop_last(), j);
    } else {
        assert(s.subrange(0, s.len() as int) =~= s);
    }
}

/// The bounds `(lo, hi)` of `trim(s[from..to])` within `s`.
pub fn trim_bounds(s: &Vec<char>, from: usize, to: usize) -> (r: (usize, usize))
    requires
        from <= to <= s.len(),
    ensures
        from <= r.0 <= r.1 <= to,
        s@.subrange(r.0 as int, r.1 as int) == trim(s@.subrange(from as int, to as int)),
{
    let ghost t = s@.subrange(from as int, to as int);
    let mut lo = from;
    while lo < to && is_whitespace(s[lo])
        invariant
            from <= lo <= to <= s.len(),
            t == s@.subrange(from as int, to as int),
            forall|k: int| from <= k < lo ==> is_white_space(#[trigger] s@[k]),
        decreases to - lo,
    {
        lo = lo + 1;
    }
    proof {
        assert forall|k: int| 0 <= k < lo - from implies is_white_space(#[trigger] t[k]) by {
            assert(t[k] == s@[from + k]);
        }
        lemma_trim_start_skip(t, lo - from);
        assert(t.subrange(lo - from, t.len() as int) =~= s@.subrange(lo as int, to as int));
        if lo < to {
            assert(!is_white_space(s@[lo as int]));
        }
    }
    let ghost u = s@.subrange(lo as int, to as int);
    assert(trim_start(t) == u) by {
        if u.len() > 0 {
            assert(u[0] == s@[lo as int]);
        }
    }
    let mut hi = to;
    while hi > lo && is_whitespace(s[hi - 1])
        invariant
            from <= lo <= hi <= to <= s.len(),
            u == s@.subrange(lo as int, to as int),
            forall|k: int| hi <= k < to ==> is_white_space(#[trigger] s@[k]),
        decreases hi - lo,
    {
        hi = hi - 1;
    }
    proof {
        assert forall|k: int| hi - lo <= k < u.len() implies is_white_space(#[trigger] u[k]) by {
            assert(u[k] == s@[lo + k]);
        }
        lemma_trim_end_cut(u, hi - lo);
        let w = u.subrange(0, hi - lo);
        assert(w =~= s@.subrange(lo as int, hi as int));
        if w.len() > 0 {
            assert(w.last() == s@[hi - 1]);
        }
    }
    (lo, hi)
}

/// The characters of `s`, in order.
pub fn chars_of(s: &str) -> (v: Vec<char>)
    ensures
        v@ == s@,
{
    let mut v: Vec<char> = Vec::new();
    for c in it: s.chars()
        invariant
            v@ == it.seq().take(it.index() as int),
    {
        v.push(c);
    }
    v
}

/// Appends `c` to `s` (`String::push`).
#[verifier::external_body]
pub(crate) fn push_char(s: &mut String, c: char)
    ensures
        final(s)@ == old(s)@.push(c),
{
    s.push(c);
}

/// The string made of `v[from..to]`.
pub fn string_from_range(v: &Vec<char>, from: usize, to: usize) -> (s: String)
    requires
        from <= to <= v.len(),
    ensures
        s@ == v@.subrange(from as int, to as int),
{
    let mut s = String::new();
    let mut i = from;
    while i < to
        invariant
            from <= i <= to <= v.len(),
            s@ == v@.subrange(from as int, i as int),
        decreases to - i,
    {
        push_char(&mut s, v[i]);
        i = i + 1;
        assert(s@ =~= v@.subrange(from as int, i as int));
    }
    s
}

/// `pat` stands in `s` at index `i`.
pub open spec fn occurs_at(s: Seq<char>, pat: Seq<char>, i: int) -> bool {
    0 <= i && i + pat.len() <= s.len() && s.subrange(i, i + pat.len()) == pat
}

/// The first index at or after `from` at which `pat` stands in `s`.
pub open spec fn find_from(s: Seq<char>, pat: Seq<char>, from: int) -> Option<int>
    decreases s.len() + 1 - from,
{
    if from < 0 || from + pat.len() > s.len() {
        None
    } else if occurs_at(s, pat, from) {
        Some(from)
    } else {
        find_from(s, pat, from + 1)
    }
}

/// What `find_from` returns is an occurrence at or after `from`, and no
/// earlier one from `from` on.
pub proof fn lemma_find_from(s: Seq<char>, pat: Seq<char>, from: int)
    ensures
        find_from(s, pat, from) matches Some(i) ==> from <= i && occurs_at(s, pat, i) && forall|
            k: int,
        | from <= k < i ==> !occurs_at(s, pat, k),
        find_from(s, pat, from) is None && 0 <= from ==> forall|k: int|
            from <= k ==> !occurs_at(s, pat, k),
    decreases s.len() + 1 - from,
{
    if from < 0 || from + pat.len() > s.len() {
    } else if occurs_at(s, pat, from) {
    } else {
        lemma_find_from(s, pat, from + 1);
    }
}

/// The first index at or after `from` at which `pat` stands in `s`.
pub fn find_chars(s: &Vec<char>, pat: &Vec<char>, from: usize) -> (r: Option<usize>)
    requires
        from <= s.len(),
    ensures
        r matches Some(i) ==> find_from(s@, pat@, from as int) == Some(i as int),
        r is None ==> find_from(s@, pat@, from as int) is None,
{
    if pat.len() > s.len() - from {
        return None;
    }
    let last = s.len() - pat.len();
    let mut i = from;
    while i <= last
        invariant
            from <= i <= last + 1,
            last + pat.len() == s.len(),
            find_from(s@, pat@, from as int) == find_from(s@, pat@, i as int),
        decreases last + 1 - i,
    {
        let mut j: usize = 0;
        let mut same = true;
        while j < pat.len()
            invariant
                i <= last,
                last + pat.len() == s.len(),
                j <= pat.len(),
                same == forall|k: int| 0 <= k < j ==> s@[i + k] == pat@[k],
            decreases pat.len() - j,
        {
            if s[i + j] != pat[j] {
                same = false;
            }
            j = j + 1;
        }
        if same {
            assert(s@.subrange(i as int, i + pat.len()) =~= pat@);
            return Some(i);
        }
        assert(!occurs_at(s@, pat@, i as int)) by {
            if occurs_at(s@, pat@, i as int) {
                assert forall|k: int| 0 <= k < pat.len() implies s@[i + k] == pat@[k] by {
                    assert(s@.subrange(i as int, i + pat.len())[k] == s@[i + k]);
                }
            }
        }
        i = i + 1;
    }
    None
}

/// The last index in `s` that holds `c`.
pub open spec fn last_index_of(s: Seq<char>, c: char) -> Option<int>
    decreases s.len(),
{
    if s.len() == 0 {
        None
    } else if s.last() == c {
        Some(s.len() - 1)
    } else {
        last_index_of(s.drop_last(), c)
    }
}

/// The last index below `to` at which `v` holds `c`.
pub fn rfind_char(v: &Vec<char>, to: usize, c: char) -> (r: Option<usize>)
    requires
        to <= v.len(),
    ensures
        r matches Some(i) ==> i < to && last_index_of(v@.subrange(0, to as int), c) == Some(
            i as int,
        ),
        r is None ==> last_index_of(v@.subrange(0, to as int), c) is None,
{
    let mut i = to;
    while i > 0
        invariant
            i <= to <= v.len(),
            last_index_of(v@.subrange(0, to as int), c) == last_index_of(
                v@.subrange(0, i as int),
                c,
            ),
        decreases i,
    {
        let ghost p = v@.subrange(0, i as int);
        assert(p.drop_last() =~= v@.subrange(0, i - 1));
        if v[i - 1] == c {
            return Some(i - 1);
        }
        i = i - 1;
    }
    None
}

/// `s` with every line feed replaced by a space.
pub open spec fn newlines_to_spaces(s: Seq<char>) -> Seq<char> {
    s.map_values(|c: char| if c == '\n' { ' ' } else { c })
}

/// Number of bytes in the UTF-8 encoding of `c`.
pub fn len_utf8(c: char) -> (n: usize)
    ensures
        n == encode_scalar(c as u32).len(),
{
    proof {
        char_is_scalar(c);
    }
    let u = c as u32;
    if u < 0x80 {
        1
    } else if u < 0x800 {
        2
    } else if u < 0x10000 {
        3
    } else {
        4
    }
}

/// The UTF-8 encoding of a sequence with one more character at its end.
pub proof fn lemma_encode_utf8_push(s: Seq<char>, c: char)
    ensures
        encode_utf8(s.push(c)) == encode_utf8(s) + encode_scalar(c as u32),
    decreases s.len(),
{
    if s.len() == 0 {
        assert(s.push(c).drop_first() =~= Seq::<char>::empty());
        assert(encode_utf8(Seq::<char>::empty()) =~= Seq::<u8>::empty());
        assert(encode_utf8(s) =~= Seq::<u8>::empty());
        assert(encode_utf8(s.push(c)) =~= encode_scalar(c as u32) + Seq::<u8>::empty());
    } else {
        lemma_encode_utf8_push(s.drop_first(), c);
        assert(s.push(c).drop_first() =~= s.drop_first().push(c));
        assert(encode_utf8(s.push(c)) =~= encode_scalar(s[0] as u32) + (encode_utf8(
            s.drop_first(),
        ) + encode_scalar(c as u32)));
    }
}

/// The UTF-8 encoding of a concatenation.
pub proof fn lemma_encode_utf8_add(a: Seq<char>, b: Seq<char>)
    ensures
        encode_utf8(a + b) == encode_utf8(a) + encode_utf8(b),
    decreases a.len(),
{
    if a.len() == 0 {
        assert(a + b =~= b);
        assert(encode_utf8(a) =~= Seq::<u8>::empty());
        assert(encode_utf8(a) + encode_utf8(b) =~= encode_utf8(b));
    } else {
        lemma_encode_utf8_add(a.drop_first(), b);
        assert((a + b).drop_first() =~= a.drop_first() + b);
        assert(encode_utf8(a + b) =~= encode_scalar(a[0] as u32) + (encode_utf8(a.drop_first())
            + encode_utf8(b)));
    }
}

/// Appends `v[from..to]` to `out`.
pub fn extend_from_range(out: &mut Vec<char>, v: &Vec<char>, from: usize, to: usize)
    requires
        from <= to <= v.len(),
    ensures
        final(out)@ == old(out)@ + v@.subrange(from as int, to as int),
{
    let mut i = from;
    while i < to
        invariant
            from <= i <= to <= v.len(),
            out@ == old(out)@ + v@.subrange(from as int, i as int),
        decreases to - i,
    {
        out.push(v[i]);
        i = i + 1;
        assert(out@ =~= old(out)@ + v@.subrange(from as int, i as int));
    }
}

/// Whether the UTF-8 encoding of `v[from..to]` takes at most `max_len` bytes.
pub fn utf8_len_at_most(v: &Vec<char>, from: usize, to: usize, max_len: usize) -> (b: bool)
    requires
        from <= to <= v.len(),
    ensures
        b == (encode_utf8(v@.subrange(from as int, to as int)).len() <= max_len),
{
    let mut left = max_len;
    let mut i = from;
    while i < to
        invariant
            from <= i <= to <= v.len(),
            encode_utf8(v@.subrange(from as int, i as int)).len() + left == max_len,
        decreases to - i,
    {
        let n = len_utf8(v[i]);
        proof {
            assert(v@.subrange(from as int, i + 1) =~= v@.subrange(from as int, i as int).push(
                v@[i as int],
            ));
            lemma_encode_utf8_push(v@.subrange(from as int, i as int), v@[i as int]);
        }
        if n > left {
            proof {
                lemma_encode_utf8_prefix_len(v@.subrange(from as int, to as int), i + 1 - from);
                assert(v@.subrange(from as int, to as int).subrange(0, i + 1 - from)
                    =~= v@.subrange(from as int, i + 1));
            }
            return false;
        }
        left = left - n;
        i = i + 1;
    }
    true
}

/// A prefix takes no more bytes than the whole.
pub proof fn lemma_encode_utf8_prefix_len(s: Seq<char>, k: int)
    requires
        0 <= k <= s.len(),
    ensures
        encode_utf8(s.subrange(0, k)).len() <= encode_utf8(s).len(),
{
    assert(s =~= s.subrange(0, k) + s.subrange(k, s.len() as int));
    lemma_encode_utf8_add(s.subrange(0, k), s.subrange(k, s.len() as int));
}

/// The decimal digit for `d < 10`.
pub open spec fn digit(d: nat) -> char {
    seq!['0', '1', '2', '3', '4', '5', '6', '7', '8', '9'][d as int]
}

/// The decimal representation of `n`, without leading zeros.
pub open spec fn decimal(n: nat) -> Seq<char>
    decreases n,
{
    if n < 10 {
        seq![digit(n)]
    } else {
        decimal(n / 10).push(digit(n % 10))
    }
}

fn digit_char(d: usize) -> (c: char)
    requires
        d < 10,
    ensures
        c == digit(d as nat),
{
    if d == 0 {
        '0'
    } else if d == 1 {
        '1'
    } else if d == 2 {
        '2'
    } else if d == 3 {
        '3'
    } else if d == 4 {
        '4'
    } else if d == 5 {
        '5'
    } else if d == 6 {
        '6'
    } else if d == 7 {
        '7'
    } else if d == 8 {
        '8'
    } else {
        '9'
    }
}

/// Appends the decimal representation of `n` to `out`.
pub fn push_decimal(out: &mut String, n: usize)
    ensures
        final(out)@ == old(out)@ + decimal(n as nat),
    decreases n,
{
    if n >= 10 {
        push_decimal(out, n / 10);
    }
    push_char(out, digit_char(n % 10));
    assert(out@ =~= old(out)@ + decimal(n as nat));
}

/// `trim_start(s)` is a suffix of `s` that does not start with whitespace.
pub proof fn lemma_trim_start_suffix(s: Seq<char>) -> (k: int)
    ensures
        0 <= k <= s.len(),
        trim_start(s) == s.subrange(k, s.len() as int),
        k < s.len() ==> !is_white_space(s[k]),
        forall|q: int| 0 <= q < k ==> is_white_space(#[trigger] s[q]),
    decreases s.len(),
{
    if s.len() > 0 && is_white_space(s[0]) {
        let k = lemma_trim_start_suffix(s.drop_first());
        assert(s.drop_first().subrange(k, s.drop_first().len() as int) =~= s.subrange(
            k + 1,
            s.len() as int,
        ));
        if k + 1 < s.len() {
            assert(s.drop_first()[k] == s[k + 1]);
        }
        assert forall|q: int| 0 <= q < k + 1 implies is_white_space(#[trigger] s[q]) by {
            if q > 0 {
                assert(s[q] == s.drop_first()[q - 1]);
            }
        }
        k + 1
    } else {
        assert(s.subrange(0, s.len() as int) =~= s);
        0
    }
}

/// `trim_end(s)` is a prefix of `s` that does not end with whitespace.
pub proof fn lemma_trim_end_prefix(s: Seq<char>) -> (j: int)
    ensures
        0 <= j <= s.len(),
        trim_end(s) == s.subrange(0, j),
        j > 0 ==> !is_white_space(s[j - 1]),
        forall|q: int| j <= q < s.len() ==> is_white_space(#[trigger] s[q]),
    decreases s.len(),
{
    if s.len() > 0 && is_white_space(s.last()) {
        let j = lemma_trim_end_prefix(s.drop_last());
        assert(s.drop_last().subrange(0, j) =~= s.subrange(0, j));
        assert forall|q: int| j <= q < s.len() implies is_white_space(#[trigger] s[q]) by {
            if q < s.len() - 1 {
                assert(s[q] == s.drop_last()[q]);
            }
        }
        j
    } else {
        assert(s.subrange(0, s.len() as int) =~= s);
        s.len() as int
    }
}

/// `p` is a non-empty run of characters of `s` that neither starts nor ends
/// with whitespace.
pub open spec fn is_trimmed_piece(p: Seq<char>, s: Seq<char>) -> bool {
    &&& p.len() > 0
    &&& !is_white_space(p[0])
    &&& !is_white_space(p.last())
    &&& exists|a: int| 0 <= a && a + p.len() <= s.len() && #[trigger] s.subrange(a, a + p.len()) == p
}

/// `trim(s[from..to])`, if not empty, is a trimmed piece of `s` that starts
/// at or after `from` and ends at or before `to`.
pub proof fn lemma_trim_piece(s: Seq<char>, from: int, to: int) -> (a: int)
    requires
        0 <= from <= to <= s.len(),
    ensures
        from <= a,
        a + trim(s.subrange(from, to)).len() <= to,
        s.subrange(a, a + trim(s.subrange(from, to)).len()) == trim(s.subrange(from, to)),
        trim(s.subrange(from, to)).len() > 0 ==> is_trimmed_piece(trim(s.subrange(from, to)), s),
        forall|q: int| from <= q < a ==> is_white_space(#[trigger] s[q]),
        forall|q: int|
            a + trim(s.subrange(from, to)).len() <= q < to ==> is_white_space(#[trigger] s[q]),
{
    let u = s.subrange(from, to);
    let k = lemma_trim_start_suffix(u);
    let v = trim_start(u);
    let j = lemma_trim_end_prefix(v);
    let t = trim(u);
    assert(t =~= s.subrange(from + k, from + k + j));
    if t.len() > 0 {
        assert(t[0] == v[0]);
        assert(v[0] == u[k]);
        assert(t.last() == v[j - 1]);
        assert(s.subrange(from + k, from + k + t.len()) == t);
    }
    assert forall|q: int| from <= q < from + k implies is_white_space(#[trigger] s[q]) by {
        assert(s[q] == u[q - from]);
    }
    assert forall|q: int| from + k + t.len() <= q < to implies is_white_space(#[trigger] s[q]) by {
        assert(s[q] == u[q - from]);
        if q < from + k + j {
        } else {
            assert(u[q - from] == v[q - from - k]);
        }
    }
    from + k
}

/// Trimming twice trims once.
pub proof fn lemma_trim_idempotent(s: Seq<char>)
    ensures
        trim(trim(s)) == trim(s),
{
    let t = trim(s);
    lemma_trim_piece(s, 0, s.len() as int);
    assert(s.subrange(0, s.len() as int) =~= s);
    assert(trim_start(t) == t);
    assert(trim_end(t) == t);
}

/// `find_from` finds the first occurrence at or after `from`.
pub proof fn lemma_find_from_first(s: Seq<char>, pat: Seq<char>, from: int, i: int)
    requires
        0 <= from <= i,
        occurs_at(s, pat, i),
        forall|k: int| from <= k < i ==> !occurs_at(s, pat, k),
    ensures
        find_from(s, pat, from) == Some(i),
    decreases i - from,
{
    if from < i {
        lemma_find_from_first(s, pat, from + 1, i);
    }
}

/// Searching `x + y` from inside `y` is searching `y`.
pub proof fn lemma_find_from_shift(x: Seq<char>, y: Seq<char>, pat: Seq<char>, j: int)
    requires
        0 <= j,
    ensures
        find_from(x + y, pat, x.len() + j) == match find_from(y, pat, j) {
            Some(i) => Some(i + x.len()),
            None => None,
        },
    decreases y.len() + 1 - j,
{
    let s = x + y;
    if j + pat.len() <= y.len() {
        assert(s.subrange(x.len() + j, x.len() + j + pat.len()) =~= y.subrange(j, j + pat.len()));
        assert(occurs_at(s, pat, x.len() + j) == occurs_at(y, pat, j));
        if !occurs_at(y, pat, j) {
            lemma_find_from_shift(x, y, pat, j + 1);
            assert(x.len() + j + 1 == x.len() + (j + 1));
        }
    }
}

/// A pattern whose first character, `<`, appears nowhere else in it, and
/// which does not occur in `x`, first occurs in `x + pat + y` right after
/// `x`.
pub proof fn lemma_first_after(x: Seq<char>, pat: Seq<char>, y: Seq<char>)
    requires
        pat.len() > 0,
        pat[0] == '<',
        forall|d: int| 0 < d < pat.len() ==> pat[d] != '<',
        find_from(x, pat, 0) is None,
    ensures
        find_from(x + pat + y, pat, 0) == Some(x.len() as int),
{
    let s = x + pat + y;
    lemma_find_from(x, pat, 0);
    assert forall|k: int| 0 <= k < x.len() implies !occurs_at(s, pat, k) by {
        if occurs_at(s, pat, k) {
            if k + pat.len() <= x.len() {
                assert(s.subrange(k, k + pat.len()) =~= x.subrange(k, k + pat.len()));
                assert(occurs_at(x, pat, k));
            } else {
                let d = x.len() - k;
                assert(s.subrange(k, k + pat.len())[d] == s[x.len() as int]);
                assert(s[x.len() as int] == pat[0]);
            }
        }
    }
    assert(s.subrange(x.len() as int, (x.len() + pat.len()) as int) =~= pat);
    lemma_find_from_first(s, pat, 0, x.len() as int);
}

/// `pat` stands somewhere in `s`.
pub open spec fn contains_pattern(s: Seq<char>, pat: Seq<char>) -> bool {
    exists|i: int| 0 <= i && i + pat.len() <= s.len() && #[trigger] s.subrange(i, i + pat.len()) == pat
}

/// Where `pat` does not stand, `find_from` finds nothing.
pub proof fn lemma_find_none(s: Seq<char>, pat: Seq<char>, from: int)
    requires
        0 <= from,
        !contains_pattern(s, pat),
    ensures
        find_from(s, pat, from) is None,
    decreases s.len() + 1 - from,
{
    if from + pat.len() <= s.len() {
        assert(!occurs_at(s, pat, from)) by {
            if occurs_at(s, pat, from) {
                assert(s.subrange(from, from + pat.len()) == pat);
            }
        }
        lemma_find_none(s, pat, from + 1);
    }
}

/// The number a string of decimal digits reads as.
pub open spec fn decimal_value(s: Seq<char>) -> int
    decreases s.len(),
{
    if s.len() == 0 {
        0
    } else {
        decimal_value(s.drop_last()) * 10 + (s.last() as int - '0' as int)
    }
}

proof fn lemma_digit(d: nat)
    requires
        d < 10,
    ensures
        '0' <= digit(d) <= '9',
        digit(d) as int - '0' as int == d,
{
    let ds = seq!['0', '1', '2', '3', '4', '5', '6', '7', '8', '9'];
    assert(digit(d) == ds[d as int]);
}

/// `decimal(n)` is a string of digits, without a leading zero unless it is
/// `0`, that reads back as `n`.
pub proof fn decimal_reads_back(n: nat)
    ensures
        decimal(n).len() > 0,
        forall|i: int| 0 <= i < decimal(n).len() ==> '0' <= #[trigger] decimal(n)[i] <= '9',
        decimal(n)[0] == '0' ==> n == 0,
        decimal_value(decimal(n)) == n,
    decreases n,
{
    if n < 10 {
        lemma_digit(n);
        assert(seq![digit(n)].drop_last() =~= Seq::<char>::empty());
        assert(decimal_value(Seq::<char>::empty()) == 0);
        assert(decimal_value(decimal(n)) == decimal_value(Seq::<char>::empty()) * 10 + (digit(n) as int
            - '0' as int));
    } else {
        let q = n / 10;
        let r = n % 10;
        decimal_reads_back(q);
        lemma_digit(r);
        let s = decimal(n);
        assert(s == decimal(q).push(digit(r)));
        assert(s.drop_last() =~= decimal(q));
        assert(n == q * 10 + r);
        assert(decimal_value(s) == decimal_value(decimal(q)) * 10 + (digit(r) as int - '0' as int));
        assert forall|i: int| 0 <= i < s.len() implies '0' <= #[trigger] s[i] <= '9' by {
            if i < s.len() - 1 {
                assert(s[i] == decimal(q)[i]);
            }
        }
        assert(s[0] == decimal(q)[0]);
    }
}

} // verus!
