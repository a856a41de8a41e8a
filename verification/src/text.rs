//! Character-level text handling shared by the block parser, the path
//! parser and the command parsers: whitespace, trimming, splitting,
//! ASCII case folding and decimal numbers, each stated over `Seq<char>`.
use vstd::prelude::*;
use vstd::string::*;

verus! {

/// The Unicode `White_Space` property, which `char::is_whitespace` and
/// `str::trim` go by.
pub open spec fn is_ws(c: char) -> bool {
    let n = c as u32;
    ||| 0x9 <= n <= 0xd
    ||| n == 0x20
    ||| n == 0x85
    ||| n == 0xa0
    ||| n == 0x1680
    ||| 0x2000 <= n <= 0x200a
    ||| n == 0x2028
    ||| n == 0x2029
    ||| n == 0x202f
    ||| n == 0x205f
    ||| n == 0x3000
}

/// Whether `c` is a Unicode white-space character.
pub fn is_whitespace(c: char) -> (b: bool)
    ensures
        b == is_ws(c),
{
    let n = c as u32;
    (0x9 <= n && n <= 0xd) || n == 0x20 || n == 0x85 || n == 0xa0 || n == 0x1680 || (0x2000 <= n
        && n <= 0x200a) || n == 0x2028 || n == 0x2029 || n == 0x202f || n == 0x205f || n == 0x3000
}

/// `s` without its leading white space.
pub open spec fn trim_start(s: Seq<char>) -> Seq<char>
    decreases s.len(),
{
    if s.len() > 0 && is_ws(s[0]) {
        trim_start(s.drop_first())
    } else {
        s
    }
}

/// `s` without its trailing white space.
pub open spec fn trim_end(s: Seq<char>) -> Seq<char>
    decreases s.len(),
{
    if s.len() > 0 && is_ws(s.last()) {
        trim_end(s.drop_last())
    } else {
        s
    }
}

/// `s` without leading and trailing white space, as `str::trim` gives it.
pub open spec fn trim(s: Seq<char>) -> Seq<char> {
    trim_end(trim_start(s))
}

/// Lower-cases ASCII letters and leaves every other character alone.
pub open spec fn ascii_lower_char(c: char) -> char {
    if 'A' <= c <= 'Z' {
        ((c as u32) + 32) as char
    } else {
        c
    }
}

/// `s` with its ASCII letters lower-cased, as `str::to_ascii_lowercase` gives it.
pub open spec fn ascii_lower(s: Seq<char>) -> Seq<char> {
    s.map_values(|c: char| ascii_lower_char(c))
}

/// Every character of `s` is ASCII.
pub open spec fn all_ascii(s: Seq<char>) -> bool {
    forall|i: int| 0 <= i < s.len() ==> (s[i] as u32) < 128
}

/// The separators a text is split on.
#[derive(Clone, Copy, PartialEq, Eq, Debug)]
pub enum Sep {
    /// `'\n'` or `'\r'`
    LineBreak,
    /// `'.'`, `'['` or `']'`
    PathPunct,
    /// `'/'`
    Slash,
    /// `'.'`
    Dot,
    /// `','`
    Comma,
    /// Any white space, as `str::split_whitespace` splits on it.
    Whitespace,
}

pub open spec fn is_sep(k: Sep, c: char) -> bool {
    match k {
        Sep::LineBreak => c == '\n' || c == '\r',
        Sep::PathPunct => c == '.' || c == '[' || c == ']',
        Sep::Slash => c == '/',
        Sep::Dot => c == '.',
        Sep::Comma => c == ',',
        Sep::Whitespace => is_ws(c),
    }
}

/// Whether `c` separates pieces under `k`.
pub fn sep_matches(k: Sep, c: char) -> (b: bool)
    ensures
        b == is_sep(k, c),
{
    match k {
        Sep::LineBreak => c == '\n' || c == '\r',
        Sep::PathPunct => c == '.' || c == '[' || c == ']',
        Sep::Slash => c == '/',
        Sep::Dot => c == '.',
        Sep::Comma => c == ',',
        Sep::Whitespace => is_whitespace(c),
    }
}

/// The pieces of `s` that are complete (followed by a separator), and the
/// piece still open at its end.
pub open spec fn split_state(s: Seq<char>, k: Sep) -> (Seq<Seq<char>>, Seq<char>)
    decreases s.len(),
{
    if s.len() == 0 {
        (Seq::empty(), Seq::empty())
    } else {
        let (done, cur) = split_state(s.drop_last(), k);
        if is_sep(k, s.last()) {
            (done.push(cur), Seq::empty())
        } else {
            (done, cur.push(s.last()))
        }
    }
}

/// `s` split at every separator, as `str::split` gives it: one piece more
/// than there are separators, empty pieces included.
pub open spec fn split_all(s: Seq<char>, k: Sep) -> Seq<Seq<char>> {
    split_state(s, k).0.push(split_state(s, k).1)
}

pub open spec fn nonempty(p: Seq<char>) -> bool {
    p.len() > 0
}

/// Lemma: a text without separators is a single open piece.
pub proof fn lemma_split_state_without_sep(s: Seq<char>, k: Sep)
    requires
        forall|i: int| 0 <= i < s.len() ==> !is_sep(k, #[trigger] s[i]),
    ensures
        split_state(s, k) == (Seq::<Seq<char>>::empty(), s),
    decreases s.len(),
{
    if s.len() > 0 {
        lemma_split_state_without_sep(s.drop_last(), k);
        assert(!is_sep(k, s[s.len() - 1]));
        assert(s.drop_last().push(s.last()) =~= s);
    }
}

/// Lemma: a text without separators is a single piece.
pub proof fn lemma_split_without_sep(s: Seq<char>, k: Sep)
    requires
        forall|i: int| 0 <= i < s.len() ==> !is_sep(k, #[trigger] s[i]),
    ensures
        split_all(s, k) == seq![s],
{
    lemma_split_state_without_sep(s, k);
    assert(split_all(s, k) =~= seq![s]);
}

/// Lemma: text without separators added at the end extends the open
/// piece and leaves the complete ones.
pub proof fn lemma_split_state_append_plain(a: Seq<char>, b: Seq<char>, k: Sep)
    requires
        forall|j: int| 0 <= j < b.len() ==> !is_sep(k, #[trigger] b[j]),
    ensures
        split_state(a + b, k) == (split_state(a, k).0, split_state(a, k).1 + b),
    decreases b.len(),
{
    if b.len() == 0 {
        assert(a + b =~= a);
        assert(split_state(a, k).1 + b =~= split_state(a, k).1);
    } else {
        lemma_split_state_append_plain(a, b.drop_last(), k);
        assert((a + b).drop_last() =~= a + b.drop_last());
        assert(!is_sep(k, b[b.len() - 1]));
        assert((split_state(a, k).1 + b.drop_last()).push(b.last()) =~= split_state(a, k).1 + b);
    }
}

/// Lemma: a text, a separator, then text without separators splits into
/// the pieces of the first text and then that last text.
pub proof fn lemma_split_sep_then_plain(a: Seq<char>, c: char, b: Seq<char>, k: Sep)
    requires
        is_sep(k, c),
        forall|j: int| 0 <= j < b.len() ==> !is_sep(k, #[trigger] b[j]),
    ensures
        split_all(a.push(c) + b, k) == split_all(a, k).push(b),
{
    lemma_split_state_append_plain(a.push(c), b, k);
    assert(a.push(c).drop_last() =~= a);
    assert(Seq::<char>::empty() + b =~= b);
}

/// The non-empty pieces of `s` split at every separator.
pub open spec fn split_nonempty(s: Seq<char>, k: Sep) -> Seq<Seq<char>> {
    split_all(s, k).filter(|p: Seq<char>| nonempty(p))
}

/// The views of a sequence of character vectors.
pub open spec fn views(s: Seq<Vec<char>>) -> Seq<Seq<char>> {
    s.map_values(|v: Vec<char>| v@)
}

/// The views of a sequence of strings.
pub open spec fn string_views(s: Seq<String>) -> Seq<Seq<char>> {
    s.map_values(|v: String| v@)
}

/// The first position `i >= from` where `a` is directly followed by `b`.
pub open spec fn find_pair_from(s: Seq<char>, a: char, b: char, from: int) -> Option<int>
    decreases s.len() - from,
{
    if from < 0 || from + 1 >= s.len() {
        None
    } else if s[from] == a && s[from + 1] == b {
        Some(from)
    } else {
        find_pair_from(s, a, b, from + 1)
    }
}

/// Lemma: a found pair lies within the text, at or after `from`.
pub proof fn lemma_find_pair_from(s: Seq<char>, a: char, b: char, from: int)
    ensures
        find_pair_from(s, a, b, from) matches Some(i) ==> from <= i && i + 1 < s.len()
            && s[i] == a && s[i + 1] == b,
    decreases s.len() - from,
{
    if !(from < 0 || from + 1 >= s.len()) && !(s[from] == a && s[from + 1] == b) {
        lemma_find_pair_from(s, a, b, from + 1);
    }
}

pub open spec fn is_digit(c: char) -> bool {
    '0' <= c <= '9'
}

pub open spec fn all_digits(s: Seq<char>) -> bool {
    forall|i: int| 0 <= i < s.len() ==> is_digit(s[i])
}

/// The number that a sequence of decimal digits writes.
pub open spec fn digits_value(s: Seq<char>) -> nat
    decreases s.len(),
{
    if s.len() == 0 {
        0
    } else {
        digits_value(s.drop_last()) * 10 + ((s.last() as u32) - ('0' as u32)) as nat
    }
}

/// What `str::parse::<usize>` gives: an optional `'+'`, then one or more
/// decimal digits whose value fits in a `usize`.
pub open spec fn parse_usize_spec(s: Seq<char>) -> Option<usize> {
    let d = if s.len() > 0 && s[0] == '+' {
        s.drop_first()
    } else {
        s
    };
    if d.len() > 0 && all_digits(d) && digits_value(d) <= usize::MAX {
        Some(digits_value(d) as usize)
    } else {
        None
    }
}

pub open spec fn digit_char(d: nat) -> char {
    (('0' as u32) + d) as char
}

/// The decimal form of `n`, as `usize`'s `Display` writes it.
pub open spec fn decimal(n: nat) -> Seq<char>
    decreases n,
{
    if n < 10 {
        seq![digit_char(n)]
    } else {
        decimal(n / 10).push(digit_char(n % 10))
    }
}

/// Appends `c` to `s`, by `String::push`.
#[verifier::external_body]
pub(crate) fn push_char(s: &mut String, c: char)
    ensures
        final(s)@ == old(s)@.push(c),
{
    s.push(c);
}

/// The characters of `s`.
pub fn chars_of(s: &str) -> (v: Vec<char>)
    ensures
        v@ == s@,
{
    let mut v: Vec<char> = Vec::new();
    for c in it: s.chars()
        invariant
            v@ == it.seq().take(it.index() as int),
    {
        v.push(c);
    }
    v
}

/// The string made of `v[lo..hi]`.
pub fn string_of(v: &Vec<char>, lo: usize, hi: usize) -> (s: String)
    requires
        lo <= hi <= v.len(),
    ensures
        s@ == v@.subrange(lo as int, hi as int),
{
    let mut s = String::new();
    let mut i = lo;
    while i < hi
        invariant
            lo <= i <= hi <= v.len(),
            s@ == v@.subrange(lo as int, i as int),
        decreases hi - i,
    {
        push_char(&mut s, v[i]);
        i = i + 1;
        assert(s@ =~= v@.subrange(lo as int, i as int));
    }
    s
}

/// The string made of all of `v`.
pub fn string_of_all(v: &Vec<char>) -> (s: String)
    ensures
        s@ == v@,
{
    let s = string_of(v, 0, v.len());
    assert(v@.subrange(0, v@.len() as int) =~= v@);
    s
}

/// Whether `a[lo..hi]` is the sequence `b`.
pub fn range_eq(a: &Vec<char>, lo: usize, hi: usize, b: &Vec<char>) -> (r: bool)
    requires
        lo <= hi <= a.len(),
    ensures
        r == (a@.subrange(lo as int, hi as int) == b@),
{
    if hi - lo != b.len() {
        return false;
    }
    let mut i: usize = 0;
    while i < b.len()
        invariant
            lo <= hi <= a.len(),
            hi - lo == b.len(),
            i <= b.len(),
            forall|j: int| 0 <= j < i ==> a@[lo + j] == b@[j],
        decreases b.len() - i,
    {
        if a[lo + i] != b[i] {
            assert(a@.subrange(lo as int, hi as int)[i as int] != b@[i as int]);
            return false;
        }
        i = i + 1;
    }
    assert(a@.subrange(lo as int, hi as int) =~= b@);
    true
}

/// Whether two character sequences are equal.
pub fn chars_eq(a: &Vec<char>, b: &Vec<char>) -> (r: bool)
    ensures
        r == (a@ == b@),
{
    let r = range_eq(a, 0, a.len(), b);
    assert(a@.subrange(0, a@.len() as int) =~= a@);
    r
}

/// Whether the string `a` equals the text `b`.
pub fn str_eq(a: &str, b: &str) -> (r: bool)
    ensures
        r == (a@ == b@),
{
    let x = chars_of(a);
    let y = chars_of(b);
    chars_eq(&x, &y)
}

/// Whether `v` holds `c` at position `i`.
pub fn char_at_is(v: &Vec<char>, i: usize, c: char) -> (r: bool)
    ensures
        r == (i < v@.len() && v@[i as int] == c),
{
    i < v.len() && v[i] == c
}

proof fn lemma_trim_start_step(v: Seq<char>, i: int, hi: int)
    requires
        0 <= i < hi <= v.len(),
        is_ws(v[i]),
    ensures
        trim_start(v.subrange(i, hi)) == trim_start(v.subrange(i + 1, hi)),
{
    assert(v.subrange(i, hi).drop_first() =~= v.subrange(i + 1, hi));
}

proof fn lemma_trim_end_step(v: Seq<char>, lo: int, j: int)
    requires
        0 <= lo < j <= v.len(),
        is_ws(v[j - 1]),
    ensures
        trim_end(v.subrange(lo, j)) == trim_end(v.subrange(lo, j - 1)),
{
    assert(v.subrange(lo, j).drop_last() =~= v.subrange(lo, j - 1));
}

/// The bounds of `v[lo..hi]` once white space is trimmed from both ends.
pub fn trim_bounds(v: &Vec<char>, lo: usize, hi: usize) -> (r: (usize, usize))
    requires
        lo <= hi <= v.len(),
    ensures
        lo <= r.0 <= r.1 <= hi,
        v@.subrange(r.0 as int, r.1 as int) == trim(v@.subrange(lo as int, hi as int)),
{
    let mut i = lo;
    while i < hi && is_whitespace(v[i])
        invariant
            lo <= i <= hi <= v.len(),
            trim_start(v@.subrange(lo as int, hi as int)) == trim_start(
                v@.subrange(i as int, hi as int),
            ),
        decreases hi - i,
    {
        proof {
            lemma_trim_start_step(v@, i as int, hi as int);
        }
        i = i + 1;
    }
    let ghost ts = v@.subrange(i as int, hi as int);
    assert(trim_start(ts) == ts);
    let mut j = hi;
    while j > i && is_whitespace(v[j - 1])
        invariant
            lo <= i <= j <= hi <= v.len(),
            trim_end(ts) == trim_end(v@.subrange(i as int, j as int)),
        decreases j - i,
    {
        proof {
            lemma_trim_end_step(v@, i as int, j as int);
        }
        j = j - 1;
    }
    assert(trim_end(v@.subrange(i as int, j as int)) == v@.subrange(i as int, j as int));
    (i, j)
}

/// The trimmed text of `v[lo..hi]` as a string.
pub fn trimmed_string(v: &Vec<char>, lo: usize, hi: usize) -> (s: String)
    requires
        lo <= hi <= v.len(),
    ensures
        s@ == trim(v@.subrange(lo as int, hi as int)),
{
    let (a, b) = trim_bounds(v, lo, hi);
    string_of(v, a, b)
}

proof fn lemma_split_state_step(s: Seq<char>, i: int, k: Sep)
    requires
        0 <= i < s.len(),
    ensures
        split_state(s.take(i + 1), k) == (if is_sep(k, s[i]) {
            (split_state(s.take(i), k).0.push(split_state(s.take(i), k).1), Seq::<char>::empty())
        } else {
            (split_state(s.take(i), k).0, split_state(s.take(i), k).1.push(s[i]))
        }),
{
    assert(s.take(i + 1).drop_last() =~= s.take(i));
}

/// Lemma: filtering keeps the last element exactly when it qualifies.
pub proof fn lemma_filter_push(s: Seq<Seq<char>>, x: Seq<char>)
    ensures
        s.push(x).filter(|p: Seq<char>| nonempty(p)) == (if nonempty(x) {
            s.filter(|p: Seq<char>| nonempty(p)).push(x)
        } else {
            s.filter(|p: Seq<char>| nonempty(p))
        }),
{
    reveal(Seq::filter);
    assert(s.push(x).drop_last() =~= s);
}

/// `v` split at every separator of kind `k`.
pub fn split_chars(v: &Vec<char>, k: Sep) -> (r: Vec<Vec<char>>)
    ensures
        views(r@) == split_all(v@, k),
{
    let mut done: Vec<Vec<char>> = Vec::new();
    let mut cur: Vec<char> = Vec::new();
    let mut i: usize = 0;
    while i < v.len()
        invariant
            i <= v.len(),
            views(done@) == split_state(v@.take(i as int), k).0,
            cur@ == split_state(v@.take(i as int), k).1,
        decreases v.len() - i,
    {
        proof {
            lemma_split_state_step(v@, i as int, k);
        }
        let c = v[i];
        if sep_matches(k, c) {
            let piece = cur;
            done.push(piece);
            cur = Vec::new();
            assert(views(done@) =~= split_state(v@.take(i as int), k).0.push(
                split_state(v@.take(i as int), k).1,
            ));
        } else {
            cur.push(c);
        }
        i = i + 1;
    }
    assert(v@.take(v@.len() as int) =~= v@);
    done.push(cur);
    assert(views(done@) =~= split_all(v@, k));
    done
}

/// The non-empty pieces of `v` split at every separator of kind `k`.
pub fn split_chars_nonempty(v: &Vec<char>, k: Sep) -> (r: Vec<Vec<char>>)
    ensures
        views(r@) == split_nonempty(v@, k),
{
    let mut out: Vec<Vec<char>> = Vec::new();
    let mut cur: Vec<char> = Vec::new();
    let mut i: usize = 0;
    while i < v.len()
        invariant
            i <= v.len(),
            views(out@) == split_state(v@.take(i as int), k).0.filter(
                |p: Seq<char>| nonempty(p),
            ),
            cur@ == split_state(v@.take(i as int), k).1,
        decreases v.len() - i,
    {
        proof {
            lemma_split_state_step(v@, i as int, k);
            lemma_filter_push(split_state(v@.take(i as int), k).0, cur@);
        }
        let c = v[i];
        if sep_matches(k, c) {
            if cur.len() > 0 {
                let piece = cur;
                out.push(piece);
                assert(views(out@) =~= views(out@).drop_last().push(piece@));
            }
            cur = Vec::new();
        } else {
            cur.push(c);
        }
        i = i + 1;
    }
    assert(v@.take(v@.len() as int) =~= v@);
    proof {
        lemma_filter_push(split_state(v@, k).0, cur@);
    }
    if cur.len() > 0 {
        let ghost before = views(out@);
        out.push(cur);
        assert(views(out@) =~= before.push(cur@));
    }
    out
}

/// `v` with its ASCII letters lower-cased.
pub fn lower_ascii(v: &Vec<char>) -> (r: Vec<char>)
    ensures
        r@ == ascii_lower(v@),
{
    let mut r: Vec<char> = Vec::new();
    let mut i: usize = 0;
    while i < v.len()
        invariant
            i <= v.len(),
            r@ == ascii_lower(v@.take(i as int)),
        decreases v.len() - i,
    {
        let c = v[i];
        let d = if 'A' <= c && c <= 'Z' {
            ((c as u32) + 32) as u8 as char
        } else {
            c
        };
        assert(d == ascii_lower_char(c)) by {
            if 'A' <= c && c <= 'Z' {
                assert(((c as u32) + 32) < 128);
            }
        }
        r.push(d);
        i = i + 1;
        assert(r@ =~= ascii_lower(v@.take(i as int)));
    }
    assert(v@.take(v@.len() as int) =~= v@);
    r
}

/// Whether every character of `v` is ASCII.
pub fn chars_ascii(v: &Vec<char>) -> (r: bool)
    ensures
        r == all_ascii(v@),
{
    let mut i: usize = 0;
    while i < v.len()
        invariant
            i <= v.len(),
            forall|j: int| 0 <= j < i ==> (v@[j] as u32) < 128,
        decreases v.len() - i,
    {
        if (v[i] as u32) >= 128 {
            return false;
        }
        i = i + 1;
    }
    true
}

/// The first position at or after `from` where `a` is directly followed by `b`.
pub fn find_pair(v: &Vec<char>, a: char, b: char, from: usize) -> (r: Option<usize>)
    ensures
        r matches Some(i) ==> find_pair_from(v@, a, b, from as int) == Some(i as int),
        r is None ==> find_pair_from(v@, a, b, from as int) is None,
    decreases v.len() - from,
{
    if from >= v.len() || from + 1 >= v.len() {
        None
    } else if v[from] == a && v[from + 1] == b {
        Some(from)
    } else {
        find_pair(v, a, b, from + 1)
    }
}

proof fn lemma_digits_value_monotone(s: Seq<char>, n: int)
    requires
        0 <= n <= s.len(),
        all_digits(s),
    ensures
        digits_value(s.take(n)) <= digits_value(s),
    decreases s.len() - n,
{
    if n < s.len() {
        lemma_digits_value_monotone(s, n + 1);
        let t = s.take(n + 1);
        assert(t.drop_last() =~= s.take(n));
        assert(is_digit(t.last()));
        assert(digits_value(t) == digits_value(s.take(n)) * 10 + ((t.last() as u32) - ('0' as u32)) as nat);
        let x = digits_value(s.take(n));
        assert(x <= x * 10) by (nonlinear_arith);
    } else {
        assert(s.take(n) =~= s);
    }
}

/// Parses `v[lo..hi]` as `str::parse::<usize>` does.
pub fn parse_usize(v: &Vec<char>, lo: usize, hi: usize) -> (r: Option<usize>)
    requires
        lo <= hi <= v.len(),
    ensures
        r == parse_usize_spec(v@.subrange(lo as int, hi as int)),
{
    let ghost s = v@.subrange(lo as int, hi as int);
    let start = if hi > lo && v[lo] == '+' {
        lo + 1
    } else {
        lo
    };
    let ghost d = v@.subrange(start as int, hi as int);
    assert(d =~= (if s.len() > 0 && s[0] == '+' {
        s.drop_first()
    } else {
        s
    }));
    if start >= hi {
        return None;
    }
    let mut acc: usize = 0;
    let mut i = start;
    while i < hi
        invariant
            lo <= start <= i <= hi <= v.len(),
            d == v@.subrange(start as int, hi as int),
            parse_usize_spec(v@.subrange(lo as int, hi as int)) == (if d.len() > 0 && all_digits(d)
                && digits_value(d) <= usize::MAX {
                Some(digits_value(d) as usize)
            } else {
                None
            }),
            all_digits(d.take(i - start)),
            acc as nat == digits_value(d.take(i - start)),
        decreases hi - i,
    {
        let c = v[i];
        assert(d.take(i + 1 - start).drop_last() =~= d.take(i - start));
        if !('0' <= c && c <= '9') {
            assert(!all_digits(d)) by {
                assert(d[i - start] == c);
                assert(!is_digit(d[i - start]));
            }
            return None;
        }
        let digit = (c as u32 - '0' as u32) as usize;
        let m = acc.checked_mul(10);
        match m {
            None => {
                proof {
                    let t = d.take(i + 1 - start);
                    assert(t.last() == c);
                    assert(all_digits(t));
                    assert(digits_value(t) == acc * 10 + ((c as u32) - ('0' as u32)) as nat);
                    assert(digits_value(t) > usize::MAX);
                    if all_digits(d) {
                        lemma_digits_value_monotone(d, i + 1 - start);
                    }
                }
                return None;
            },
            Some(m) => {
                let nv = m.checked_add(digit);
                match nv {
                    None => {
                        proof {
                            assert(all_digits(d.take(i + 1 - start)));
                            if all_digits(d) {
                                lemma_digits_value_monotone(d, i + 1 - start);
                            }
                        }
                        return None;
                    },
                    Some(nv) => {
                        acc = nv;
                    },
                }
            },
        }
        i = i + 1;
    }
    assert(d.take(hi - start) =~= d);
    Some(acc)
}

/// Appends the decimal form of `n` to `s`.
pub fn push_decimal(s: &mut String, n: usize)
    ensures
        final(s)@ == old(s)@ + decimal(n as nat),
    decreases n,
{
    let ghost s0 = s@;
    if n >= 10 {
        push_decimal(s, n / 10);
    }
    let d = (n % 10) as u32;
    let c = ((('0' as u32) + d) as u8) as char;
    assert(c == digit_char((n % 10) as nat));
    push_char(s, c);
    if n < 10 {
        assert(n % 10 == n);
        assert(s@ =~= s0 + decimal(n as nat));
    } else {
        assert(s@ =~= s0 + decimal(n as nat));
    }
}

/// A fresh string holding the text of `lit`.
pub fn owned(lit: &str) -> (s: String)
    ensures
        s@ == lit@,
{
    String::from_str(lit)
}

} // verus!
