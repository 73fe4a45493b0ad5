use vstd::prelude::*;

verus! {

/// Whether `c` has the Unicode `White_Space` property.
pub open spec fn is_ws(c: char) -> bool {
    let u = c as u32;
    (0x09 <= u <= 0x0D) || u == 0x20 || u == 0x85 || u == 0xA0 || u == 0x1680 || (0x2000 <= u
        <= 0x200A) || u == 0x2028 || u == 0x2029 || u == 0x202F || u == 0x205F || u == 0x3000
}

/// The first index from `i` on that holds no whitespace (or the length).
pub open spec fn skip_ws(s: Seq<char>, i: int) -> int
    decreases s.len() - i,
{
    if i >= s.len() || i < 0 || !is_ws(s[i]) {
        i
    } else {
        skip_ws(s, i + 1)
    }
}

/// The first index from `i` on that holds whitespace (or the length).
pub open spec fn token_end(s: Seq<char>, i: int) -> int
    decreases s.len() - i,
{
    if i >= s.len() || i < 0 || is_ws(s[i]) {
        i
    } else {
        token_end(s, i + 1)
    }
}

/// The end of `s.take(e)` once its trailing whitespace is removed.
pub open spec fn trim_back(s: Seq<char>, e: int) -> int
    decreases e,
{
    if e <= 0 || e > s.len() || !is_ws(s[e - 1]) {
        e
    } else {
        trim_back(s, e - 1)
    }
}

/// `s` without leading and trailing whitespace.
pub open spec fn trim(s: Seq<char>) -> Seq<char> {
    let a = skip_ws(s, 0);
    let b = trim_back(s, s.len() as int);
    if a < b {
        s.subrange(a, b)
    } else {
        Seq::empty()
    }
}

/// The first index from `i` on that holds `c` (or the length).
pub open spec fn find_char(s: Seq<char>, c: char, i: int) -> int
    decreases s.len() - i,
{
    if i >= s.len() || i < 0 || s[i] == c {
        i
    } else {
        find_char(s, c, i + 1)
    }
}

/// The end of `s.take(e)` once its trailing `c` characters are removed.
pub open spec fn strip_back(s: Seq<char>, c: char, e: int) -> int
    decreases e,
{
    if e <= 0 || e > s.len() || s[e - 1] != c {
        e
    } else {
        strip_back(s, c, e - 1)
    }
}

/// The first whitespace-separated token of `s`, if any.
pub open spec fn first_token(s: Seq<char>) -> Option<Seq<char>> {
    let a = skip_ws(s, 0);
    if a < s.len() {
        Some(s.subrange(a, token_end(s, a)))
    } else {
        None
    }
}

/// The second whitespace-separated token of `s`, if any.
pub open spec fn second_token(s: Seq<char>) -> Option<Seq<char>> {
    let a = skip_ws(s, 0);
    let b = skip_ws(s, token_end(s, a));
    if a < s.len() && b < s.len() {
        Some(s.subrange(b, token_end(s, b)))
    } else {
        None
    }
}

/// The third whitespace-separated token of `s`, if any.
pub open spec fn third_token(s: Seq<char>) -> Option<Seq<char>> {
    let a = skip_ws(s, 0);
    let b = skip_ws(s, token_end(s, a));
    let c = skip_ws(s, token_end(s, b));
    if a < s.len() && b < s.len() && c < s.len() {
        Some(s.subrange(c, token_end(s, c)))
    } else {
        None
    }
}

pub proof fn lemma_skip_ws_bounds(s: Seq<char>, i: int)
    requires
        0 <= i <= s.len(),
    ensures
        i <= skip_ws(s, i) <= s.len(),
        skip_ws(s, i) < s.len() ==> !is_ws(s[skip_ws(s, i)]),
    decreases s.len() - i,
{
    if i < s.len() && is_ws(s[i]) {
        lemma_skip_ws_bounds(s, i + 1);
    }
}

pub proof fn lemma_token_end_bounds(s: Seq<char>, i: int)
    requires
        0 <= i <= s.len(),
    ensures
        i <= token_end(s, i) <= s.len(),
        forall|k: int| i <= k < token_end(s, i) ==> !is_ws(#[trigger] s[k]),
    decreases s.len() - i,
{
    if i < s.len() && !is_ws(s[i]) {
        lemma_token_end_bounds(s, i + 1);
    }
}

pub proof fn lemma_find_char_bounds(s: Seq<char>, c: char, i: int)
    requires
        0 <= i <= s.len(),
    ensures
        i <= find_char(s, c, i) <= s.len(),
        find_char(s, c, i) < s.len() ==> s[find_char(s, c, i)] == c,
        forall|k: int| i <= k < find_char(s, c, i) ==> #[trigger] s[k] != c,
    decreases s.len() - i,
{
    if i < s.len() && s[i] != c {
        lemma_find_char_bounds(s, c, i + 1);
    }
}

pub proof fn lemma_trim_back_bounds(s: Seq<char>, e: int)
    requires
        0 <= e <= s.len(),
    ensures
        0 <= trim_back(s, e) <= e,
        trim_back(s, e) > 0 ==> !is_ws(s[trim_back(s, e) - 1]),
    decreases e,
{
    if e > 0 && is_ws(s[e - 1]) {
        lemma_trim_back_bounds(s, e - 1);
    }
}

pub proof fn lemma_strip_back_bounds(s: Seq<char>, c: char, e: int)
    requires
        0 <= e <= s.len(),
    ensures
        0 <= strip_back(s, c, e) <= e,
    decreases e,
{
    if e > 0 && s[e - 1] == c {
        lemma_strip_back_bounds(s, c, e - 1);
    }
}

/// Whether every character of `s` is whitespace.
pub open spec fn all_ws(s: Seq<char>) -> bool {
    forall|k: int| 0 <= k < s.len() ==> is_ws(#[trigger] s[k])
}

/// Skipping whitespace in `x + q` from inside `x` stops where it stops in
/// `x`, or goes on into `q`.
pub proof fn lemma_skip_ws_concat(x: Seq<char>, q: Seq<char>, j: int)
    requires
        0 <= j <= x.len(),
    ensures
        skip_ws(x + q, j) == if skip_ws(x, j) < x.len() {
            skip_ws(x, j)
        } else {
            x.len() + skip_ws(q, 0)
        },
    decreases x.len() - j,
{
    if j < x.len() {
        assert((x + q)[j] == x[j]);
        if is_ws(x[j]) {
            lemma_skip_ws_concat(x, q, j + 1);
        }
    } else {
        lemma_skip_ws_shift(x, q, 0);
    }
}

/// Skipping whitespace in `p + y` from inside `y` is skipping it in `y`,
/// shifted.
pub proof fn lemma_skip_ws_shift(p: Seq<char>, y: Seq<char>, j: int)
    requires
        0 <= j <= y.len(),
    ensures
        skip_ws(p + y, p.len() + j) == p.len() + skip_ws(y, j),
    decreases y.len() - j,
{
    if j < y.len() {
        assert((p + y)[p.len() + j] == y[j]);
        if is_ws(y[j]) {
            lemma_skip_ws_shift(p, y, j + 1);
        }
    }
}

/// In text of whitespace only, skipping whitespace reaches the end.
pub proof fn lemma_skip_ws_all(s: Seq<char>, j: int)
    requires
        0 <= j <= s.len(),
        all_ws(s),
    ensures
        skip_ws(s, j) == s.len(),
    decreases s.len() - j,
{
    if j < s.len() {
        lemma_skip_ws_all(s, j + 1);
    }
}

/// Trimming the end of `x + q` from inside `x` is trimming it in `x`.
pub proof fn lemma_trim_back_prefix(x: Seq<char>, q: Seq<char>, e: int)
    requires
        0 <= e <= x.len(),
    ensures
        trim_back(x + q, e) == trim_back(x, e),
    decreases e,
{
    if e > 0 {
        assert((x + q)[e - 1] == x[e - 1]);
        lemma_trim_back_prefix(x, q, e - 1);
    }
}

/// Trimming the end of `x + q` from inside `q` stops where it stops in `q`,
/// or goes on into `x`.
pub proof fn lemma_trim_back_concat(x: Seq<char>, q: Seq<char>, e: int)
    requires
        0 <= e <= q.len(),
    ensures
        trim_back(x + q, x.len() + e) == if trim_back(q, e) > 0 {
            x.len() + trim_back(q, e)
        } else {
            trim_back(x, x.len() as int)
        },
    decreases e,
{
    if e > 0 {
        assert((x + q)[x.len() + e - 1] == q[e - 1]);
        if is_ws(q[e - 1]) {
            lemma_trim_back_concat(x, q, e - 1);
        }
    } else {
        lemma_trim_back_prefix(x, q, x.len() as int);
    }
}

/// In text of whitespace only, trimming the end reaches the start.
pub proof fn lemma_trim_back_all(s: Seq<char>, e: int)
    requires
        0 <= e <= s.len(),
        all_ws(s),
    ensures
        trim_back(s, e) == 0,
    decreases e,
{
    if e > 0 {
        lemma_trim_back_all(s, e - 1);
    }
}

/// Trimming the end stops after the last character that is no whitespace.
pub proof fn lemma_trim_back_past(s: Seq<char>, e: int, k: int)
    requires
        0 <= k < e <= s.len(),
        !is_ws(s[k]),
    ensures
        trim_back(s, e) > k,
    decreases e,
{
    if e - 1 > k && is_ws(s[e - 1]) {
        lemma_trim_back_past(s, e - 1, k);
    }
}

/// Whitespace around a text does not change it once trimmed.
pub proof fn lemma_trim_padded(pre: Seq<char>, x: Seq<char>, post: Seq<char>)
    requires
        all_ws(pre),
        all_ws(post),
    ensures
        trim(pre + x + post) == trim(x),
{
    let w = pre + x + post;
    assert(w =~= pre + (x + post));
    lemma_skip_ws_all(pre, 0);
    lemma_skip_ws_concat(pre, x + post, 0);
    lemma_skip_ws_concat(x, post, 0);
    lemma_skip_ws_all(post, 0);
    lemma_skip_ws_bounds(x, 0);
    lemma_trim_back_all(post, post.len() as int);
    lemma_trim_back_concat(x, post, post.len() as int);
    lemma_trim_back_all(pre, pre.len() as int);
    lemma_trim_back_concat(pre, x + post, (x + post).len() as int);
    lemma_trim_back_bounds(x, x.len() as int);
    let sx = skip_ws(x, 0);
    let bx = trim_back(x, x.len() as int);
    if sx < x.len() {
        lemma_trim_back_past(x, x.len() as int, sx);
        assert(skip_ws(w, 0) == pre.len() + sx);
        assert(trim_back(w, w.len() as int) == pre.len() + bx);
        assert(w.subrange(pre.len() + sx, pre.len() + bx) =~= x.subrange(sx, bx));
    } else {
        assert(skip_ws(w, 0) == w.len());
        lemma_trim_back_bounds(w, w.len() as int);
    }
}

/// Finding `c` in `x + q` from inside `x` stops where it stops in `x`, or
/// goes on into `q`.
pub proof fn lemma_find_char_concat(x: Seq<char>, q: Seq<char>, c: char, j: int)
    requires
        0 <= j <= x.len(),
    ensures
        find_char(x + q, c, j) == if find_char(x, c, j) < x.len() {
            find_char(x, c, j)
        } else {
            x.len() + find_char(q, c, 0)
        },
    decreases x.len() - j,
{
    if j < x.len() {
        assert((x + q)[j] == x[j]);
        if x[j] != c {
            lemma_find_char_concat(x, q, c, j + 1);
        }
    } else {
        lemma_find_char_shift(x, q, c, 0);
    }
}

pub proof fn lemma_find_char_shift(p: Seq<char>, y: Seq<char>, c: char, j: int)
    requires
        0 <= j <= y.len(),
    ensures
        find_char(p + y, c, p.len() + j) == p.len() + find_char(y, c, j),
    decreases y.len() - j,
{
    if j < y.len() {
        assert((p + y)[p.len() + j] == y[j]);
        if y[j] != c {
            lemma_find_char_shift(p, y, c, j + 1);
        }
    }
}

/// The end of a token in `p + y` that starts inside `y` is its end in `y`,
/// shifted.
pub proof fn lemma_token_end_shift(p: Seq<char>, y: Seq<char>, j: int)
    requires
        0 <= j <= y.len(),
    ensures
        token_end(p + y, p.len() + j) == p.len() + token_end(y, j),
    decreases y.len() - j,
{
    if j < y.len() {
        assert((p + y)[p.len() + j] == y[j]);
        if !is_ws(y[j]) {
            lemma_token_end_shift(p, y, j + 1);
        }
    }
}

/// A word without whitespace, followed by nothing or by whitespace, is one
/// token.
pub proof fn lemma_token_end_word(t: Seq<char>, q: Seq<char>, j: int)
    requires
        0 <= j <= t.len(),
        forall|k: int| 0 <= k < t.len() ==> !is_ws(#[trigger] t[k]),
        q.len() == 0 || is_ws(q[0]),
    ensures
        token_end(t + q, j) == t.len(),
    decreases t.len() - j,
{
    if j < t.len() {
        assert((t + q)[j] == t[j]);
        lemma_token_end_word(t, q, j + 1);
    } else if q.len() > 0 {
        assert((t + q)[j] == q[0]);
    }
}

/// Whether `c` is whitespace.
pub fn char_is_ws(c: char) -> (r: bool)
    ensures
        r == is_ws(c),
{
    let u = c as u32;
    (0x09 <= u && u <= 0x0D) || u == 0x20 || u == 0x85 || u == 0xA0 || u == 0x1680 || (0x2000
        <= u && u <= 0x200A) || u == 0x2028 || u == 0x2029 || u == 0x202F || u == 0x205F || u
        == 0x3000
}

/// The first index from `i` on that holds no whitespace.
pub fn next_non_ws(s: &[char], i: usize) -> (r: usize)
    requires
        i <= s@.len(),
    ensures
        r == skip_ws(s@, i as int),
        i <= r <= s@.len(),
{
    proof {
        lemma_skip_ws_bounds(s@, i as int);
    }
    let mut j = i;
    while j < s.len() && char_is_ws(s[j])
        invariant
            i <= j <= s@.len(),
            skip_ws(s@, j as int) == skip_ws(s@, i as int),
        decreases s@.len() - j,
    {
        j = j + 1;
    }
    j
}

/// The first index from `i` on that holds whitespace.
pub fn next_ws(s: &[char], i: usize) -> (r: usize)
    requires
        i <= s@.len(),
    ensures
        r == token_end(s@, i as int),
        i <= r <= s@.len(),
{
    proof {
        lemma_token_end_bounds(s@, i as int);
    }
    let mut j = i;
    while j < s.len() && !char_is_ws(s[j])
        invariant
            i <= j <= s@.len(),
            token_end(s@, j as int) == token_end(s@, i as int),
        decreases s@.len() - j,
    {
        j = j + 1;
    }
    j
}

/// The first index from `i` on that holds `c`.
pub fn find(s: &[char], c: char, i: usize) -> (r: usize)
    requires
        i <= s@.len(),
    ensures
        r == find_char(s@, c, i as int),
        i <= r <= s@.len(),
{
    proof {
        lemma_find_char_bounds(s@, c, i as int);
    }
    let mut j = i;
    while j < s.len() && s[j] != c
        invariant
            i <= j <= s@.len(),
            find_char(s@, c, j as int) == find_char(s@, c, i as int),
        decreases s@.len() - j,
    {
        j = j + 1;
    }
    j
}

/// The characters of `s` from `a` to `b`.
pub fn sub_chars(s: &[char], a: usize, b: usize) -> (r: Vec<char>)
    requires
        a <= b <= s@.len(),
    ensures
        r@ == s@.subrange(a as int, b as int),
{
    let mut r: Vec<char> = Vec::new();
    let mut i = a;
    while i < b
        invariant
            a <= i <= b,
            b <= s@.len(),
            r@ == s@.subrange(a as int, i as int),
        decreases b - i,
    {
        r.push(s[i]);
        i = i + 1;
        assert(r@ =~= s@.subrange(a as int, i as int));
    }
    r
}

/// `s` without leading and trailing whitespace.
pub fn trim_chars(s: &[char]) -> (r: Vec<char>)
    ensures
        r@ == trim(s@),
{
    let a = next_non_ws(s, 0);
    proof {
        lemma_trim_back_bounds(s@, s@.len() as int);
    }
    let mut b = s.len();
    while b > 0 && char_is_ws(s[b - 1])
        invariant
            b <= s@.len(),
            trim_back(s@, b as int) == trim_back(s@, s@.len() as int),
        decreases b,
    {
        b = b - 1;
    }
    if a < b {
        sub_chars(s, a, b)
    } else {
        Vec::new()
    }
}

/// The end of `s.take(e)` once its trailing `c` characters are removed.
pub fn strip_end(s: &[char], c: char) -> (r: usize)
    ensures
        r == strip_back(s@, c, s@.len() as int),
        r <= s@.len(),
{
    proof {
        lemma_strip_back_bounds(s@, c, s@.len() as int);
    }
    let mut b = s.len();
    while b > 0 && s[b - 1] == c
        invariant
            b <= s@.len(),
            strip_back(s@, c, b as int) == strip_back(s@, c, s@.len() as int),
        decreases b,
    {
        b = b - 1;
    }
    b
}

/// The first three whitespace-separated tokens of `s`.
pub fn tokens3(s: &[char]) -> (r: (Option<Vec<char>>, Option<Vec<char>>, Option<Vec<char>>))
    ensures
        r.0 matches Some(t) ==> first_token(s@) == Some(t@),
        r.0 is None ==> first_token(s@) is None,
        r.1 matches Some(t) ==> second_token(s@) == Some(t@),
        r.1 is None ==> second_token(s@) is None,
        r.2 matches Some(t) ==> third_token(s@) == Some(t@),
        r.2 is None ==> third_token(s@) is None,
{
    let a = next_non_ws(s, 0);
    if a >= s.len() {
        return (None, None, None);
    }
    let ae = next_ws(s, a);
    let t0 = sub_chars(s, a, ae);
    let b = next_non_ws(s, ae);
    if b >= s.len() {
        return (Some(t0), None, None);
    }
    let be = next_ws(s, b);
    let t1 = sub_chars(s, b, be);
    let c = next_non_ws(s, be);
    if c >= s.len() {
        return (Some(t0), Some(t1), None);
    }
    let ce = next_ws(s, c);
    let t2 = sub_chars(s, c, ce);
    (Some(t0), Some(t1), Some(t2))
}

} // verus!
