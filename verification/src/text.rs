//! Character-level text utilities with their mathematical models.
//!
//! Text is modelled as `Seq<char>`, the view vstd gives `str` and `String`.

use vstd::prelude::*;

verus! {

/// Unicode `White_Space` property, which is what `char::is_whitespace`,
/// `str::trim` and `str::split_whitespace` test.
pub open spec fn is_ws(c: char) -> bool {
    let u = c as u32;
    ||| (0x9 <= u && u <= 0xD)
    ||| u == 0x20
    ||| u == 0x85
    ||| u == 0xA0
    ||| u == 0x1680
    ||| (0x2000 <= u && u <= 0x200A)
    ||| u == 0x2028
    ||| u == 0x2029
    ||| u == 0x202F
    ||| u == 0x205F
    ||| u == 0x3000
}

/// Every character of `s` is white space (`str::trim(s).is_empty()`).
pub open spec fn all_ws(s: Seq<char>) -> bool {
    forall|i: int| 0 <= i < s.len() ==> is_ws(#[trigger] s[i])
}

/// `s` with its leading white space removed.
pub open spec fn trim_start(s: Seq<char>) -> Seq<char>
    decreases s.len(),
{
    if s.len() > 0 && is_ws(s[0]) {
        trim_start(s.drop_first())
    } else {
        s
    }
}

/// `s` with its trailing white space removed.
pub open spec fn trim_end(s: Seq<char>) -> Seq<char>
    decreases s.len(),
{
    if s.len() > 0 && is_ws(s.last()) {
        trim_end(s.drop_last())
    } else {
        s
    }
}

/// `str::trim`: `s` without leading and trailing white space.
pub open spec fn trim(s: Seq<char>) -> Seq<char> {
    trim_end(trim_start(s))
}

/// `parts` joined with `sep` between neighbours (`[..].join(sep)`).
pub open spec fn join(parts: Seq<Seq<char>>, sep: Seq<char>) -> Seq<char>
    decreases parts.len(),
{
    if parts.len() == 0 {
        Seq::empty()
    } else if parts.len() == 1 {
        parts[0]
    } else {
        join(parts.drop_last(), sep) + sep + parts.last()
    }
}

/// State of a left-to-right scan that cuts `s` into white-space separated
/// words: the finished words and the word in progress.
pub open spec fn words_scan(s: Seq<char>) -> (Seq<Seq<char>>, Seq<char>)
    decreases s.len(),
{
    if s.len() == 0 {
        (Seq::empty(), Seq::empty())
    } else {
        let (done, cur) = words_scan(s.drop_last());
        if is_ws(s.last()) {
            if cur.len() > 0 {
                (done.push(cur), Seq::empty())
            } else {
                (done, cur)
            }
        } else {
            (done, cur.push(s.last()))
        }
    }
}

/// `str::split_whitespace`: the maximal runs of non-white-space characters.
pub open spec fn words(s: Seq<char>) -> Seq<Seq<char>> {
    let (done, cur) = words_scan(s);
    if cur.len() > 0 {
        done.push(cur)
    } else {
        done
    }
}

/// `s.split_whitespace().collect::<Vec<_>>().join(" ")`.
pub open spec fn normalize_ws(s: Seq<char>) -> Seq<char> {
    join(words(s), seq![' '])
}

/// `line` without one trailing carriage return.
pub open spec fn strip_cr(line: Seq<char>) -> Seq<char> {
    if line.len() > 0 && line.last() == '\r' {
        line.drop_last()
    } else {
        line
    }
}

/// State of a left-to-right scan that cuts `s` into lines: the finished
/// lines and the line in progress.
pub open spec fn lines_scan(s: Seq<char>) -> (Seq<Seq<char>>, Seq<char>)
    decreases s.len(),
{
    if s.len() == 0 {
        (Seq::empty(), Seq::empty())
    } else {
        let (done, cur) = lines_scan(s.drop_last());
        if s.last() == '\n' {
            (done.push(strip_cr(cur)), Seq::empty())
        } else {
            (done, cur.push(s.last()))
        }
    }
}

/// `str::lines`: lines end at `\n` or `\r\n`; the last line needs no ending,
/// and an empty text has no lines.
pub open spec fn lines(s: Seq<char>) -> Seq<Seq<char>> {
    let (done, cur) = lines_scan(s);
    if cur.len() > 0 {
        done.push(cur)
    } else {
        done
    }
}

/// `s` begins with `prefix`.
pub open spec fn starts_with(s: Seq<char>, prefix: Seq<char>) -> bool {
    prefix.len() <= s.len() && s.take(prefix.len() as int) == prefix
}

/// `needle` occurs in `s` at position `i`.
pub open spec fn occurs_at(s: Seq<char>, needle: Seq<char>, i: int) -> bool {
    0 <= i && i + needle.len() <= s.len() && s.subrange(i, i + needle.len()) == needle
}

/// `needle` occurs somewhere in `s` (`str::contains`).
pub open spec fn contains(s: Seq<char>, needle: Seq<char>) -> bool {
    exists|i: int| occurs_at(s, needle, i)
}

/// Whether `c` is a Unicode white-space character.
pub fn is_whitespace(c: char) -> (r: bool)
    ensures
        r == is_ws(c),
{
    let u = c as u32;
    (0x9 <= u && u <= 0xD) || u == 0x20 || u == 0x85 || u == 0xA0 || u == 0x1680 || (0x2000
        <= u && u <= 0x200A) || u == 0x2028 || u == 0x2029 || u == 0x202F || u == 0x205F || u
        == 0x3000
}

/// The characters of `s`, in order.
pub fn chars_of(s: &str) -> (r: Vec<char>)
    ensures
        r@ == s@,
{
    let mut v: Vec<char> = Vec::new();
    for c in it: s.chars()
        invariant
            v@ == it.seq().take(it.index() as int),
    {
        v.push(c);
    }
    v
}

/// Builds a `String` from its characters with std's `FromIterator<&char>`;
/// the string holds exactly those characters, in order.
#[verifier::external_body]
pub fn string_from_chars(v: &Vec<char>) -> (r: String)
    ensures
        r@ == v@,
{
    v.iter().collect()
}

/// A copy of `v[lo..hi]`.
pub fn copy_range(v: &Vec<char>, lo: usize, hi: usize) -> (r: Vec<char>)
    requires
        lo <= hi <= v.len(),
    ensures
        r@ == v@.subrange(lo as int, hi as int),
{
    let mut r: Vec<char> = Vec::new();
    let mut k = lo;
    while k < hi
        invariant
            lo <= k <= hi <= v.len(),
            r@ == v@.subrange(lo as int, k as int),
        decreases hi - k,
    {
        r.push(v[k]);
        k = k + 1;
    }
    r
}

/// Whether two character vectors hold the same characters.
pub fn chars_eq(a: &Vec<char>, b: &Vec<char>) -> (r: bool)
    ensures
        r == (a@ == b@),
{
    if a.len() != b.len() {
        return false;
    }
    let mut i: usize = 0;
    while i < a.len()
        invariant
            a.len() == b.len(),
            i <= a.len(),
            forall|k: int| 0 <= k < i ==> a@[k] == b@[k],
        decreases a.len() - i,
    {
        if a[i] != b[i] {
            return false;
        }
        i = i + 1;
    }
    assert(a@ =~= b@);
    true
}

proof fn lemma_trim_start_skip(s: Seq<char>, i: int)
    requires
        0 <= i < s.len(),
        is_ws(s[i]),
    ensures
        trim_start(s.skip(i)) == trim_start(s.skip(i + 1)),
{
    assert(s.skip(i).drop_first() =~= s.skip(i + 1));
}

proof fn lemma_trim_end_take(s: Seq<char>, lo: int, hi: int)
    requires
        0 <= lo < hi <= s.len(),
        is_ws(s[hi - 1]),
    ensures
        trim_end(s.subrange(lo, hi)) == trim_end(s.subrange(lo, hi - 1)),
{
    assert(s.subrange(lo, hi).drop_last() =~= s.subrange(lo, hi - 1));
}

/// `str::trim` on a character vector.
pub fn trim_chars(v: &Vec<char>) -> (r: Vec<char>)
    ensures
        r@ == trim(v@),
{
    let n = v.len();
    let mut lo: usize = 0;
    assert(v@.skip(0) =~= v@);
    while lo < n && is_whitespace(v[lo])
        invariant
            lo <= n == v.len(),
            trim_start(v@) == trim_start(v@.skip(lo as int)),
        decreases n - lo,
    {
        proof {
            lemma_trim_start_skip(v@, lo as int);
        }
        lo = lo + 1;
    }
    assert(trim_start(v@.skip(lo as int)) == v@.skip(lo as int));
    assert(v@.skip(lo as int) =~= v@.subrange(lo as int, n as int));
    let mut hi: usize = n;
    while hi > lo && is_whitespace(v[hi - 1])
        invariant
            lo <= hi <= n == v.len(),
            trim(v@) == trim_end(v@.subrange(lo as int, hi as int)),
        decreases hi,
    {
        proof {
            lemma_trim_end_take(v@, lo as int, hi as int);
        }
        hi = hi - 1;
    }
    assert(trim_end(v@.subrange(lo as int, hi as int)) == v@.subrange(lo as int, hi as int));
    copy_range(v, lo, hi)
}

/// `str::trim(s).is_empty()`: `s` holds only white space.
pub fn is_blank(v: &Vec<char>) -> (r: bool)
    ensures
        r == all_ws(v@),
{
    let mut i: usize = 0;
    while i < v.len()
        invariant
            i <= v.len(),
            forall|k: int| 0 <= k < i ==> is_ws(#[trigger] v@[k]),
        decreases v.len() - i,
    {
        if !is_whitespace(v[i]) {
            return false;
        }
        i = i + 1;
    }
    true
}

/// Appends all of `src` to `dst`.
pub fn push_all(dst: &mut Vec<char>, src: &Vec<char>)
    ensures
        final(dst)@ == old(dst)@ + src@,
{
    let mut i: usize = 0;
    while i < src.len()
        invariant
            i <= src.len(),
            dst@ == old(dst)@ + src@.take(i as int),
        decreases src.len() - i,
    {
        dst.push(src[i]);
        i = i + 1;
        assert(dst@ =~= old(dst)@ + src@.take(i as int));
    }
    assert(src@.take(i as int) =~= src@);
}

/// `parts` joined with `sep` between neighbours.
pub fn join_chars(parts: &Vec<Vec<char>>, sep: &Vec<char>) -> (r: Vec<char>)
    ensures
        r@ == join(parts.deep_view(), sep@),
{
    let mut out: Vec<char> = Vec::new();
    let mut i: usize = 0;
    while i < parts.len()
        invariant
            i <= parts.len(),
            out@ == join(parts.deep_view().take(i as int), sep@),
        decreases parts.len() - i,
    {
        proof {
            let t = parts.deep_view().take(i + 1);
            assert(t.drop_last() =~= parts.deep_view().take(i as int));
            assert(t.last() == parts[i as int]@);
        }
        if i > 0 {
            push_all(&mut out, sep);
        }
        push_all(&mut out, &parts[i]);
        i = i + 1;
        proof {
            if i == 1 {
                assert(out@ =~= parts.deep_view().take(1)[0]);
            }
        }
    }
    assert(parts.deep_view().take(i as int) =~= parts.deep_view());
    out
}

/// `str::split_whitespace`: the maximal runs of non-white-space characters.
pub fn split_words(v: &Vec<char>) -> (r: Vec<Vec<char>>)
    ensures
        r.deep_view() == words(v@),
{
    let mut done: Vec<Vec<char>> = Vec::new();
    let mut cur: Vec<char> = Vec::new();
    let mut i: usize = 0;
    while i < v.len()
        invariant
            i <= v.len(),
            (done.deep_view(), cur@) == words_scan(v@.take(i as int)),
        decreases v.len() - i,
    {
        proof {
            assert(v@.take(i + 1).drop_last() =~= v@.take(i as int));
        }
        let c = v[i];
        if is_whitespace(c) {
            if cur.len() > 0 {
                let ghost old_done = done.deep_view();
                let finished = cur;
                cur = Vec::new();
                assert(finished.deep_view() =~= finished@);
                done.push(finished);
                assert(done.deep_view() =~= old_done.push(finished@));
            }
        } else {
            cur.push(c);
        }
        i = i + 1;
    }
    assert(v@.take(i as int) =~= v@);
    if cur.len() > 0 {
        let ghost old_done = done.deep_view();
        let finished = cur;
        assert(finished.deep_view() =~= finished@);
        done.push(finished);
        assert(done.deep_view() =~= old_done.push(finished@));
    }
    done
}

/// `str::lines` on a character vector.
pub fn split_lines(v: &Vec<char>) -> (r: Vec<Vec<char>>)
    ensures
        r.deep_view() == lines(v@),
{
    let mut done: Vec<Vec<char>> = Vec::new();
    let mut cur: Vec<char> = Vec::new();
    let mut i: usize = 0;
    while i < v.len()
        invariant
            i <= v.len(),
            (done.deep_view(), cur@) == lines_scan(v@.take(i as int)),
        decreases v.len() - i,
    {
        proof {
            assert(v@.take(i + 1).drop_last() =~= v@.take(i as int));
        }
        let c = v[i];
        if c == '\n' {
            let ghost old_done = done.deep_view();
            let mut finished = cur;
            cur = Vec::new();
            let n = finished.len();
            if n > 0 && finished[n - 1] == '\r' {
                finished.pop();
            }
            assert(finished@ =~= strip_cr(lines_scan(v@.take(i as int)).1));
            assert(finished.deep_view() =~= finished@);
            done.push(finished);
            assert(done.deep_view() =~= old_done.push(finished@));
        } else {
            cur.push(c);
        }
        i = i + 1;
    }
    assert(v@.take(i as int) =~= v@);
    if cur.len() > 0 {
        let ghost old_done = done.deep_view();
        let finished = cur;
        assert(finished.deep_view() =~= finished@);
        done.push(finished);
        assert(done.deep_view() =~= old_done.push(finished@));
    }
    done
}

/// Whether `v` begins with `prefix`.
pub fn has_prefix(v: &Vec<char>, prefix: &str) -> (r: bool)
    ensures
        r == starts_with(v@, prefix@),
{
    let p = chars_of(prefix);
    if p.len() > v.len() {
        return false;
    }
    let mut i: usize = 0;
    while i < p.len()
        invariant
            p@ == prefix@,
            p.len() <= v.len(),
            i <= p.len(),
            forall|k: int| 0 <= k < i ==> v@[k] == p@[k],
        decreases p.len() - i,
    {
        if v[i] != p[i] {
            assert(v@.take(p@.len() as int)[i as int] != p@[i as int]);
            return false;
        }
        i = i + 1;
    }
    assert(v@.take(p@.len() as int) =~= p@);
    true
}

/// Whether `needle` occurs in `v` at position `at`.
fn matches_at(v: &Vec<char>, needle: &Vec<char>, at: usize) -> (r: bool)
    requires
        at + needle.len() <= v.len(),
    ensures
        r == occurs_at(v@, needle@, at as int),
{
    let mut k: usize = 0;
    while k < needle.len()
        invariant
            at + needle.len() <= v.len(),
            k <= needle.len(),
            forall|j: int| 0 <= j < k ==> v@[at + j] == needle@[j],
        decreases needle.len() - k,
    {
        if v[at + k] != needle[k] {
            assert(v@.subrange(at as int, at + needle.len())[k as int] != needle@[k as int]);
            return false;
        }
        k = k + 1;
    }
    assert(v@.subrange(at as int, at + needle.len()) =~= needle@);
    true
}

/// Whether `needle` occurs somewhere in `v`.
pub fn has_substring(v: &Vec<char>, needle: &str) -> (r: bool)
    ensures
        r == contains(v@, needle@),
{
    let p = chars_of(needle);
    if p.len() > v.len() {
        assert forall|i: int| !occurs_at(v@, needle@, i) by {}
        return false;
    }
    let last = v.len() - p.len();
    let mut i: usize = 0;
    while i <= last
        invariant
            p@ == needle@,
            last + p.len() == v.len(),
            forall|j: int| 0 <= j < i ==> !occurs_at(v@, needle@, j),
        decreases last + 1 - i,
    {
        if matches_at(v, &p, i) {
            return true;
        }
        if i == last {
            assert forall|j: int| !occurs_at(v@, needle@, j) by {
                if 0 <= j <= last {
                } 
            }
            return false;
        }
        i = i + 1;
    }
    false
}

/// `a` followed by `b`.
pub fn concat_strs(a: &str, b: &str) -> (r: String)
    ensures
        r@ == a@ + b@,
{
    let mut v = chars_of(a);
    let w = chars_of(b);
    push_all(&mut v, &w);
    string_from_chars(&v)
}

/// `a`, then `b`, then `c`.
pub fn concat3_strs(a: &str, b: &str, c: &str) -> (r: String)
    ensures
        r@ == a@ + b@ + c@,
{
    let mut v = chars_of(a);
    let w = chars_of(b);
    let x = chars_of(c);
    push_all(&mut v, &w);
    push_all(&mut v, &x);
    string_from_chars(&v)
}

/// White space in `s` is single spaces between non-white-space characters:
/// none at either end, no two in a row, no other white-space character.
pub open spec fn is_normalized(s: Seq<char>) -> bool {
    forall|i: int|
        0 <= i < s.len() && is_ws(#[trigger] s[i]) ==> s[i] == ' ' && 0 < i && i + 1 < s.len()
            && !is_ws(s[i + 1])
}

/// A word: non-empty, without white space.
pub open spec fn is_word(w: Seq<char>) -> bool {
    w.len() > 0 && forall|j: int| 0 <= j < w.len() ==> !is_ws(#[trigger] w[j])
}

proof fn lemma_words_scan_words(s: Seq<char>)
    ensures
        forall|k: int| 0 <= k < words_scan(s).0.len() ==> is_word(#[trigger] words_scan(s).0[k]),
        forall|j: int| 0 <= j < words_scan(s).1.len() ==> !is_ws(#[trigger] words_scan(s).1[j]),
    decreases s.len(),
{
    if s.len() > 0 {
        lemma_words_scan_words(s.drop_last());
        let (d0, c0) = words_scan(s.drop_last());
        let c = s.last();
        let (d, cur) = words_scan(s);
        if is_ws(c) {
            if c0.len() > 0 {
                assert(d == d0.push(c0));
                assert forall|k: int| 0 <= k < d.len() implies is_word(#[trigger] d[k]) by {
                    if k < d0.len() {
                        assert(d[k] == d0[k]);
                    } else {
                        assert(d[k] == c0);
                        assert forall|j: int| 0 <= j < c0.len() implies !is_ws(#[trigger] c0[j]) by {}
                    }
                }
            }
        } else {
            assert(cur == c0.push(c));
            assert forall|j: int| 0 <= j < cur.len() implies !is_ws(#[trigger] cur[j]) by {
                if j < c0.len() {
                    assert(cur[j] == c0[j]);
                }
            }
        }
    }
}

/// Every piece of `words(s)` is a word.
pub proof fn lemma_words_are_words(s: Seq<char>)
    ensures
        forall|k: int| 0 <= k < words(s).len() ==> is_word(#[trigger] words(s)[k]),
{
    lemma_words_scan_words(s);
}

/// Words joined by single spaces are normalized.
pub proof fn lemma_join_words_normalized(ws: Seq<Seq<char>>)
    requires
        forall|k: int| 0 <= k < ws.len() ==> is_word(#[trigger] ws[k]),
    ensures
        is_normalized(join(ws, seq![' '])),
        ws.len() > 0 ==> join(ws, seq![' ']).len() > 0,
    decreases ws.len(),
{
    if ws.len() == 1 {
        assert(is_word(ws[0]));
    } else if ws.len() > 1 {
        let front = ws.drop_last();
        assert forall|k: int| 0 <= k < front.len() implies is_word(#[trigger] front[k]) by {
            assert(front[k] == ws[k]);
        }
        lemma_join_words_normalized(front);
        let p = join(front, seq![' ']);
        let l = ws.last();
        assert(is_word(ws[ws.len() - 1]));
        let r = join(ws, seq![' ']);
        assert(r == p + seq![' '] + l);
        assert forall|i: int| 0 <= i < r.len() && is_ws(#[trigger] r[i]) implies r[i] == ' ' && 0
            < i && i + 1 < r.len() && !is_ws(r[i + 1]) by {
            if i < p.len() {
                assert(r[i] == p[i]);
                assert(is_ws(p[i]));
                if i + 1 < p.len() {
                    assert(r[i + 1] == p[i + 1]);
                }
            } else if i == p.len() {
                assert(r[i + 1] == l[0]);
            } else {
                assert(r[i] == l[i - p.len() - 1]);
            }
        }
    }
}

/// `normalize_ws` leaves single spaces between words and nothing else.
pub proof fn lemma_normalize_ws_normalized(s: Seq<char>)
    ensures
        is_normalized(normalize_ws(s)),
{
    lemma_words_are_words(s);
    lemma_join_words_normalized(words(s));
}

/// Trimming never makes a text longer.
pub proof fn lemma_trim_len(s: Seq<char>)
    ensures
        trim(s).len() <= s.len(),
{
    lemma_trim_start_len(s);
    lemma_trim_end_len(trim_start(s));
}

proof fn lemma_trim_start_len(s: Seq<char>)
    ensures
        trim_start(s).len() <= s.len(),
    decreases s.len(),
{
    if s.len() > 0 && is_ws(s[0]) {
        lemma_trim_start_len(s.drop_first());
    }
}

proof fn lemma_trim_end_len(s: Seq<char>)
    ensures
        trim_end(s).len() <= s.len(),
    decreases s.len(),
{
    if s.len() > 0 && is_ws(s.last()) {
        lemma_trim_end_len(s.drop_last());
    }
}

/// Joining two non-empty lists of pieces is joining each and putting a
/// separator between.
pub proof fn lemma_join_concat(p: Seq<Seq<char>>, q: Seq<Seq<char>>, sep: Seq<char>)
    requires
        p.len() > 0,
        q.len() > 0,
    ensures
        join(p + q, sep) == join(p, sep) + sep + join(q, sep),
    decreases q.len(),
{
    assert((p + q).drop_last() =~= p + q.drop_last());
    assert((p + q).last() == q.last());
    if q.len() == 1 {
        assert(p + q.drop_last() =~= p);
    } else {
        lemma_join_concat(p, q.drop_last(), sep);
    }
}

proof fn lemma_words_scan_append(x: Seq<char>, y: Seq<char>)
    requires
        words_scan(x).1.len() == 0,
    ensures
        words_scan(x + y) == (words_scan(x).0 + words_scan(y).0, words_scan(y).1),
    decreases y.len(),
{
    if y.len() == 0 {
        assert(x + y =~= x);
        assert(words_scan(x).0 + Seq::<Seq<char>>::empty() =~= words_scan(x).0);
    } else {
        lemma_words_scan_append(x, y.drop_last());
        assert((x + y).drop_last() =~= x + y.drop_last());
        assert((x + y).last() == y.last());
        let (d, c) = words_scan(y.drop_last());
        let dx = words_scan(x).0;
        if is_ws(y.last()) && c.len() > 0 {
            assert(dx + d.push(c) =~= (dx + d).push(c));
        }
    }
}

/// The words of two texts with a space between are the words of each.
pub proof fn lemma_words_space_concat(x: Seq<char>, y: Seq<char>)
    ensures
        words(x + seq![' '] + y) == words(x) + words(y),
{
    let xs = x + seq![' '];
    assert(xs.drop_last() =~= x);
    assert(xs.last() == ' ');
    assert(words_scan(xs).0 == words(x));
    assert(words_scan(xs).1.len() == 0);
    lemma_words_scan_append(xs, y);
    let (d, c) = words_scan(y);
    if c.len() > 0 {
        assert(words(x) + d.push(c) =~= (words(x) + d).push(c));
    }
}

/// Joining more pieces extends the join of the first ones.
proof fn lemma_starts_with_join(p: Seq<Seq<char>>, q: Seq<Seq<char>>, sep: Seq<char>)
    requires
        p.len() > 0,
    ensures
        starts_with(join(p + q, sep), join(p, sep)),
{
    if q.len() == 0 {
        assert(p + q =~= p);
        assert(join(p, sep).take(join(p, sep).len() as int) =~= join(p, sep));
    } else {
        lemma_join_concat(p, q, sep);
        assert((join(p, sep) + sep + join(q, sep)).take(join(p, sep).len() as int) =~= join(p, sep));
    }
}

/// Normalizing a text with more text after a space extends the normalized
/// first text.
pub proof fn lemma_normalize_ws_prefix(x: Seq<char>, y: Seq<char>)
    ensures
        starts_with(normalize_ws(x + seq![' '] + y), normalize_ws(x)),
{
    lemma_words_space_concat(x, y);
    if words(x).len() == 0 {
        assert(normalize_ws(x).len() == 0);
        assert(normalize_ws(x + seq![' '] + y).take(0) =~= Seq::<char>::empty());
    } else {
        lemma_starts_with_join(words(x), words(y), seq![' ']);
    }
}

proof fn lemma_lines_scan_append(x: Seq<char>, y: Seq<char>)
    requires
        lines_scan(x).1.len() == 0,
    ensures
        lines_scan(x + y) == (lines_scan(x).0 + lines_scan(y).0, lines_scan(y).1),
    decreases y.len(),
{
    if y.len() == 0 {
        assert(x + y =~= x);
        assert(lines_scan(x).0 + Seq::<Seq<char>>::empty() =~= lines_scan(x).0);
    } else {
        lemma_lines_scan_append(x, y.drop_last());
        assert((x + y).drop_last() =~= x + y.drop_last());
        assert((x + y).last() == y.last());
        let (d, c) = lines_scan(y.drop_last());
        let dx = lines_scan(x).0;
        if y.last() == '\n' {
            assert(dx + d.push(strip_cr(c)) =~= (dx + d).push(strip_cr(c)));
        }
    }
}

/// The lines of `a`, a line break and `b`: the lines of `a` as scanned up to
/// the break (its last line closed, even when empty), then the lines of `b`.
pub proof fn lemma_lines_break_concat(a: Seq<char>, b: Seq<char>)
    ensures
        lines(a + seq!['\n'] + b) == lines_scan(a).0.push(strip_cr(lines_scan(a).1)) + lines(b),
{
    let an = a + seq!['\n'];
    assert(an.drop_last() =~= a);
    assert(an.last() == '\n');
    lemma_lines_scan_append(an, b);
    let l = lines_scan(a).0.push(strip_cr(lines_scan(a).1));
    let (d, c) = lines_scan(b);
    if c.len() > 0 {
        assert(l + d.push(c) =~= (l + d).push(c));
    }
}

/// A text without line breaks is one line, or none when it is empty.
pub proof fn lemma_lines_single(s: Seq<char>)
    requires
        forall|i: int| 0 <= i < s.len() ==> s[i] != '\n',
    ensures
        lines_scan(s) == (Seq::<Seq<char>>::empty(), s),
    decreases s.len(),
{
    if s.len() > 0 {
        lemma_lines_single(s.drop_last());
        assert(s.drop_last().push(s.last()) =~= s);
    }
}

/// The lines of a text hold no line break.
pub proof fn lemma_lines_no_break(s: Seq<char>)
    ensures
        forall|k: int, i: int|
            0 <= k < lines(s).len() && 0 <= i < lines(s)[k].len() ==> #[trigger] lines(s)[k][i]
                != '\n',
{
    lemma_lines_scan_no_break(s);
}

proof fn lemma_lines_scan_no_break(s: Seq<char>)
    ensures
        forall|k: int, i: int|
            0 <= k < lines_scan(s).0.len() && 0 <= i < lines_scan(s).0[k].len()
                ==> #[trigger] lines_scan(s).0[k][i] != '\n',
        forall|i: int| 0 <= i < lines_scan(s).1.len() ==> #[trigger] lines_scan(s).1[i] != '\n',
    decreases s.len(),
{
    if s.len() > 0 {
        lemma_lines_scan_no_break(s.drop_last());
        let (d, c) = lines_scan(s.drop_last());
        let (d2, c2) = lines_scan(s);
        if s.last() == '\n' {
            assert forall|k: int, i: int| 0 <= k < d2.len() && 0 <= i < d2[k].len() implies #[trigger] d2[k][i] != '\n' by {
                if k < d.len() {
                    assert(d2[k] == d[k]);
                } else {
                    assert(d2[k] == strip_cr(c));
                    if c.len() > 0 && c.last() == '\r' {
                        assert(strip_cr(c)[i] == c[i]);
                    }
                }
            }
        } else {
            assert forall|i: int| 0 <= i < c2.len() implies #[trigger] c2[i] != '\n' by {
                if i < c.len() {
                    assert(c2[i] == c[i]);
                }
            }
        }
    }
}

proof fn lemma_trim_start_push_ws(s: Seq<char>, w: char)
    requires
        is_ws(w),
    ensures
        trim_start(s.push(w)) == if trim_start(s).len() > 0 {
            trim_start(s).push(w)
        } else {
            Seq::<char>::empty()
        },
    decreases s.len(),
{
    if s.len() == 0 {
        assert(s.push(w).drop_first() =~= Seq::<char>::empty());
        assert(s.push(w)[0] == w);
        assert(trim_start(Seq::<char>::empty()) == Seq::<char>::empty());
    } else if is_ws(s[0]) {
        assert(s.push(w)[0] == s[0]);
        assert(s.push(w).drop_first() =~= s.drop_first().push(w));
        lemma_trim_start_push_ws(s.drop_first(), w);
    } else {
        assert(s.push(w)[0] == s[0]);
    }
}

/// A trailing white-space character does not change the trimmed text.
pub proof fn lemma_trim_push_ws(s: Seq<char>, w: char)
    requires
        is_ws(w),
    ensures
        trim(s.push(w)) == trim(s),
{
    lemma_trim_start_push_ws(s, w);
    let t = trim_start(s);
    if t.len() > 0 {
        assert(t.push(w).drop_last() =~= t);
    }
}

proof fn lemma_trim_start_shape(s: Seq<char>)
    ensures
        trim_start(s).len() == 0 || !is_ws(trim_start(s)[0]),
    decreases s.len(),
{
    if s.len() > 0 && is_ws(s[0]) {
        lemma_trim_start_shape(s.drop_first());
    }
}

/// Trimming the end keeps a prefix, ending in a non-white-space character.
pub proof fn lemma_trim_end_shape(s: Seq<char>)
    ensures
        trim_end(s).len() <= s.len(),
        trim_end(s) =~= s.take(trim_end(s).len() as int),
        trim_end(s).len() == 0 || !is_ws(trim_end(s).last()),
    decreases s.len(),
{
    if s.len() > 0 && is_ws(s.last()) {
        lemma_trim_end_shape(s.drop_last());
        assert(s.drop_last().take(trim_end(s).len() as int) =~= s.take(trim_end(s).len() as int));
    } else {
        assert(s.take(s.len() as int) =~= s);
    }
}

/// Trimming twice is trimming once.
pub proof fn lemma_trim_idempotent(s: Seq<char>)
    ensures
        trim(trim(s)) == trim(s),
{
    let t = trim(s);
    lemma_trim_start_shape(s);
    lemma_trim_end_shape(trim_start(s));
    if t.len() > 0 {
        assert(t[0] == trim_start(s)[0]);
        assert(trim_start(t) == t);
        assert(trim_end(t) == t);
    } else {
        assert(trim_start(t) == t);
    }
}

/// Trimming the start keeps a suffix.
pub proof fn lemma_trim_start_is_suffix(s: Seq<char>)
    ensures
        trim_start(s).len() <= s.len(),
        trim_start(s) =~= s.skip(s.len() - trim_start(s).len()),
    decreases s.len(),
{
    if s.len() > 0 && is_ws(s[0]) {
        lemma_trim_start_is_suffix(s.drop_first());
    }
}

proof fn lemma_trim_start_ws_prefix(s: Seq<char>)
    ensures
        forall|i: int| 0 <= i < s.len() - trim_start(s).len() ==> is_ws(#[trigger] s[i]),
    decreases s.len(),
{
    lemma_trim_start_is_suffix(s);
    if s.len() > 0 && is_ws(s[0]) {
        let t = s.drop_first();
        lemma_trim_start_ws_prefix(t);
        lemma_trim_start_is_suffix(t);
        assert forall|i: int| 0 <= i < s.len() - trim_start(s).len() implies is_ws(#[trigger] s[i]) by {
            if i > 0 {
                assert(s[i] == t[i - 1]);
            }
        }
    }
}

proof fn lemma_trim_end_ws_suffix(s: Seq<char>)
    ensures
        forall|i: int| trim_end(s).len() <= i < s.len() ==> is_ws(#[trigger] s[i]),
    decreases s.len(),
{
    lemma_trim_end_shape(s);
    if s.len() > 0 && is_ws(s.last()) {
        let t = s.drop_last();
        lemma_trim_end_ws_suffix(t);
        assert forall|i: int| trim_end(s).len() <= i < s.len() implies is_ws(#[trigger] s[i]) by {
            if i < s.len() - 1 {
                assert(s[i] == t[i]);
            }
        }
    }
}

/// `trim(s)` is the stretch of `s` between its first and its last character
/// that is not white space; everything outside it is white space.
pub proof fn lemma_trim_bounds(s: Seq<char>) -> (ab: (int, int))
    ensures
        0 <= ab.0 <= ab.1 <= s.len(),
        trim(s) == s.subrange(ab.0, ab.1),
        forall|i: int| 0 <= i < ab.0 ==> is_ws(#[trigger] s[i]),
        forall|i: int| ab.1 <= i < s.len() ==> is_ws(#[trigger] s[i]),
        ab.0 < ab.1 ==> !is_ws(s[ab.0]) && !is_ws(s[ab.1 - 1]),
{
    lemma_trim_start_is_suffix(s);
    lemma_trim_start_ws_prefix(s);
    lemma_trim_start_shape(s);
    let t = trim_start(s);
    let a = s.len() - t.len();
    lemma_trim_end_shape(t);
    lemma_trim_end_ws_suffix(t);
    let m = trim_end(t).len() as int;
    assert(trim(s) =~= s.subrange(a, a + m));
    assert forall|i: int| a + m <= i < s.len() implies is_ws(#[trigger] s[i]) by {
        assert(s[i] == t[i - a]);
    }
    if m > 0 {
        assert(s[a] == t[0]);
        assert(trim_end(t)[0] == t[0]);
        assert(s[a + m - 1] == trim_end(t)[m - 1]);
    }
    (a, a + m)
}

/// A part of a text that is not blank, trimmed, occurs in the text trimmed:
/// trimming the whole only removes white space around it.
pub proof fn lemma_trim_keeps_inner(s: Seq<char>, p: Seq<char>, i: int)
    requires
        occurs_at(s, p, i),
        !all_ws(p),
    ensures
        contains(trim(s), trim(p)),
{
    let (a, b) = lemma_trim_bounds(s);
    let (pa, pb) = lemma_trim_bounds(p);
    assert forall|k: int| 0 <= k < p.len() implies s[i + k] == #[trigger] p[k] by {
        assert(s.subrange(i, i + p.len())[k] == s[i + k]);
    }
    let j = choose|j: int| 0 <= j < p.len() && !is_ws(#[trigger] p[j]);
    assert(pa < pb) by {
        if pa >= pb {
            if j < pa {
                assert(is_ws(p[j]));
            } else {
                assert(is_ws(p[j]));
            }
        }
    }
    assert(s[i + pa] == p[pa]);
    assert(i + pa >= a) by {
        if i + pa < a {
            assert(is_ws(s[i + pa]));
        }
    }
    assert(s[i + pb - 1] == p[pb - 1]);
    assert(i + pb <= b) by {
        if i + pb > b {
            assert(is_ws(s[i + pb - 1]));
        }
    }
    let off = i + pa - a;
    assert(trim(s).subrange(off, off + trim(p).len()) =~= trim(p));
    assert(occurs_at(trim(s), trim(p), off));
}

} // verus!
