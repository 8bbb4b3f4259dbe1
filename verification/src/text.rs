//! Character-level text handling: the string operations that the task sources
//! and the renderer's bookkeeping are built from, each with its mathematical
//! meaning over `Seq<char>`.
use vstd::prelude::*;

verus! {

/// Unicode `White_Space` (the set that `char::is_whitespace` tests).
pub open spec fn is_whitespace(c: char) -> bool {
    let n = c as u32;
    ||| 0x9 <= n <= 0xd
    ||| n == 0x20
    ||| n == 0x85
    ||| n == 0xa0
    ||| n == 0x1680
    ||| 0x2000 <= n <= 0x200a
    ||| n == 0x2028
    ||| n == 0x2029
    ||| n == 0x202f
    ||| n == 0x205f
    ||| n == 0x3000
}

/// ASCII lower-casing of one character: `A`..=`Z` map to `a`..=`z`, all else is kept.
pub open spec fn lower_char(c: char) -> char {
    if 'A' <= c && c <= 'Z' {
        ((c as u32) + 32) as char
    } else {
        c
    }
}

/// ASCII lower-casing of a whole text.
pub open spec fn lower_seq(s: Seq<char>) -> Seq<char> {
    s.map_values(|c: char| lower_char(c))
}

/// Number of whitespace characters at the front of `s`.
pub open spec fn leading_ws(s: Seq<char>) -> nat
    decreases s.len(),
{
    if s.len() > 0 && is_whitespace(s[0]) {
        1 + leading_ws(s.drop_first())
    } else {
        0
    }
}

/// Number of whitespace characters at the end of `s`.
pub open spec fn trailing_ws(s: Seq<char>) -> nat
    decreases s.len(),
{
    if s.len() > 0 && is_whitespace(s.last()) {
        1 + trailing_ws(s.drop_last())
    } else {
        0
    }
}

/// `s` without its leading whitespace (`str::trim_start`).
pub open spec fn trim_start_seq(s: Seq<char>) -> Seq<char> {
    s.skip(leading_ws(s) as int)
}

/// `s` without its trailing whitespace (`str::trim_end`).
pub open spec fn trim_end_seq(s: Seq<char>) -> Seq<char> {
    s.take(s.len() - trailing_ws(s))
}

/// `s` without leading and trailing whitespace (`str::trim`).
pub open spec fn trim_seq(s: Seq<char>) -> Seq<char> {
    trim_end_seq(trim_start_seq(s))
}

/// `p` is a prefix of `s`.
pub open spec fn starts_with_seq(s: Seq<char>, p: Seq<char>) -> bool {
    p.len() <= s.len() && s.take(p.len() as int) == p
}

/// `needle` occurs somewhere in `hay`.
pub open spec fn contains_seq(hay: Seq<char>, needle: Seq<char>) -> bool {
    exists|i: int|
        0 <= i && i + needle.len() <= hay.len() && #[trigger] hay.subrange(i, i + needle.len())
            == needle
}

/// The texts held by a sequence of character vectors.
pub open spec fn char_rows(v: Seq<Vec<char>>) -> Seq<Seq<char>> {
    v.map_values(|x: Vec<char>| x@)
}

/// Index of the first `'\n'` in `s`, or `s.len()` when there is none.
pub open spec fn first_newline(s: Seq<char>) -> nat
    decreases s.len(),
{
    if s.len() == 0 {
        0
    } else if s[0] == '\n' {
        0
    } else {
        1 + first_newline(s.drop_first())
    }
}

/// A line as `str::lines` yields it when a `'\n'` ended it: one `'\r'` before the
/// `'\n'` is dropped too.
pub open spec fn strip_cr(s: Seq<char>) -> Seq<char> {
    if s.len() > 0 && s.last() == '\r' {
        s.drop_last()
    } else {
        s
    }
}

/// The lines of `s` as `str::lines` yields them: split at `'\n'`, a `'\r'` right
/// before a `'\n'` belongs to the line ending, and a final line ending adds no
/// empty line.
pub open spec fn lines_seq(s: Seq<char>) -> Seq<Seq<char>>
    decreases s.len(),
{
    if s.len() == 0 {
        seq![]
    } else {
        let i = first_newline(s);
        if i >= s.len() {
            seq![s]
        } else {
            seq![strip_cr(s.take(i as int))] + lines_seq(s.skip(i + 1 as int))
        }
    }
}

/// Strict lexicographic order of texts by code point, which is the order of
/// `String`'s `<` (UTF-8 byte order agrees with code point order).
pub open spec fn text_lt(a: Seq<char>, b: Seq<char>) -> bool
    decreases a.len(),
{
    if a.len() == 0 {
        b.len() > 0
    } else if b.len() == 0 {
        false
    } else if a[0] != b[0] {
        (a[0] as u32) < (b[0] as u32)
    } else {
        text_lt(a.drop_first(), b.drop_first())
    }
}

/// The decimal digit for `d < 10`.
pub open spec fn digit_char(d: nat) -> char {
    (('0' as u32) + d) as char
}

/// The decimal notation of `n`, without leading zeros (`"0"` for zero).
pub open spec fn decimal(n: nat) -> Seq<char>
    decreases n,
{
    if n < 10 {
        seq![digit_char(n)]
    } else {
        decimal(n / 10).push(digit_char(n % 10))
    }
}

/// `root` joined with the relative component `name`, as `Path::join` does on
/// Unix: a `'/'` goes between them unless `root` is empty or already ends in one.
pub open spec fn join_path(root: Seq<char>, name: Seq<char>) -> Seq<char> {
    if root.len() == 0 || root.last() == '/' {
        root + name
    } else {
        root + seq!['/'] + name
    }
}

// ---------------------------------------------------------------------------
// Lemmas
// ---------------------------------------------------------------------------

proof fn lemma_leading_ws_is(s: Seq<char>, k: int)
    requires
        0 <= k <= s.len(),
        forall|j: int| 0 <= j < k ==> is_whitespace(#[trigger] s[j]),
        k == s.len() || !is_whitespace(s[k]),
    ensures
        leading_ws(s) == k,
    decreases k,
{
    if k > 0 {
        let t = s.drop_first();
        assert forall|j: int| 0 <= j < k - 1 implies is_whitespace(#[trigger] t[j]) by {
            assert(t[j] == s[j + 1]);
        }
        if k - 1 < t.len() {
            assert(t[k - 1] == s[k]);
        }
        lemma_leading_ws_is(t, k - 1);
    }
}

proof fn lemma_trailing_ws_is(s: Seq<char>, k: int)
    requires
        0 <= k <= s.len(),
        forall|j: int| s.len() - k <= j < s.len() ==> is_whitespace(#[trigger] s[j]),
        k == s.len() || !is_whitespace(s[s.len() - k - 1]),
    ensures
        trailing_ws(s) == k,
    decreases k,
{
    if k > 0 {
        let t = s.drop_last();
        assert forall|j: int| t.len() - (k - 1) <= j < t.len() implies is_whitespace(
            #[trigger] t[j],
        ) by {
            assert(t[j] == s[j]);
        }
        if k - 1 < t.len() {
            assert(t[t.len() - (k - 1) - 1] == s[s.len() - k - 1]);
        }
        lemma_trailing_ws_is(t, k - 1);
    }
}

proof fn lemma_first_newline_is(s: Seq<char>, k: int)
    requires
        0 <= k <= s.len(),
        forall|j: int| 0 <= j < k ==> #[trigger] s[j] != '\n',
        k == s.len() || s[k] == '\n',
    ensures
        first_newline(s) == k,
    decreases k,
{
    if k > 0 {
        let t = s.drop_first();
        assert forall|j: int| 0 <= j < k - 1 implies #[trigger] t[j] != '\n' by {
            assert(t[j] == s[j + 1]);
        }
        if k - 1 < t.len() {
            assert(t[k - 1] == s[k]);
        }
        lemma_first_newline_is(t, k - 1);
    }
}

/// Distinct characters have distinct code points.
pub proof fn lemma_char_code_injective(a: char, b: char)
    ensures
        (a as u32) == (b as u32) ==> a == b,
{
    vstd::utf8::char_u32_cast(a, a as u32);
    vstd::utf8::char_u32_cast(b, b as u32);
}

/// `text_lt` is irreflexive.
pub proof fn lemma_text_lt_irreflexive(a: Seq<char>)
    ensures
        !text_lt(a, a),
    decreases a.len(),
{
    if a.len() > 0 {
        lemma_text_lt_irreflexive(a.drop_first());
    }
}

/// `text_lt` is transitive.
pub proof fn lemma_text_lt_transitive(a: Seq<char>, b: Seq<char>, c: Seq<char>)
    requires
        text_lt(a, b),
        text_lt(b, c),
    ensures
        text_lt(a, c),
    decreases a.len(),
{
    if a.len() > 0 && b.len() > 0 && c.len() > 0 {
        if a[0] == b[0] && b[0] == c[0] {
            lemma_text_lt_transitive(a.drop_first(), b.drop_first(), c.drop_first());
        }
    }
}

/// Any two texts are ordered one way or the other, or are equal.
pub proof fn lemma_text_lt_total(a: Seq<char>, b: Seq<char>)
    ensures
        text_lt(a, b) || text_lt(b, a) || a == b,
    decreases a.len(),
{
    if a.len() > 0 && b.len() > 0 {
        if a[0] == b[0] {
            lemma_text_lt_total(a.drop_first(), b.drop_first());
            if a.drop_first() == b.drop_first() {
                assert(a =~= seq![a[0]] + a.drop_first());
                assert(b =~= seq![b[0]] + b.drop_first());
            }
        } else {
            lemma_char_code_injective(a[0], b[0]);
        }
    } else if a.len() == 0 && b.len() == 0 {
        assert(a =~= b);
    }
}

proof fn lemma_first_newline_props(s: Seq<char>)
    ensures
        first_newline(s) <= s.len(),
        forall|j: int| 0 <= j < first_newline(s) ==> #[trigger] s[j] != '\n',
        first_newline(s) < s.len() ==> s[first_newline(s) as int] == '\n',
    decreases s.len(),
{
    if s.len() > 0 && s[0] != '\n' {
        let t = s.drop_first();
        lemma_first_newline_props(t);
        assert forall|j: int| 0 <= j < first_newline(s) implies #[trigger] s[j] != '\n' by {
            if j > 0 {
                assert(s[j] == t[j - 1]);
            }
        }
        if first_newline(s) < s.len() {
            assert(s[first_newline(s) as int] == t[first_newline(t) as int]);
        }
    }
}

/// No line that `lines_seq` yields holds a `'\n'`.
pub proof fn lemma_lines_have_no_newline(s: Seq<char>)
    ensures
        forall|i: int, j: int|
            0 <= i < lines_seq(s).len() && 0 <= j < lines_seq(s)[i].len() ==> #[trigger] lines_seq(
                s,
            )[i][j] != '\n',
    decreases s.len(),
{
    if s.len() > 0 {
        lemma_first_newline_props(s);
        let k = first_newline(s);
        if k < s.len() {
            let rest = s.skip(k + 1 as int);
            lemma_lines_have_no_newline(rest);
            let first = strip_cr(s.take(k as int));
            assert forall|i: int, j: int|
                0 <= i < lines_seq(s).len() && 0 <= j < lines_seq(s)[i].len() implies #[trigger] lines_seq(
                s,
            )[i][j] != '\n' by {
                if i == 0 {
                    assert(lines_seq(s)[0] == first);
                    assert(first[j] == s[j]);
                } else {
                    assert(lines_seq(s)[i] == lines_seq(rest)[i - 1]);
                }
            }
        }
    }
}

proof fn lemma_digit_char_injective(a: nat, b: nat)
    requires
        a < 10,
        b < 10,
        digit_char(a) == digit_char(b),
    ensures
        a == b,
{
    let x: u32 = (('0' as u32) + a) as u32;
    let y: u32 = (('0' as u32) + b) as u32;
    assert(x < 0xD800 && y < 0xD800);
    vstd::utf8::char_u32_cast(digit_char(a), (digit_char(a) as u32));
    assert((x as char) as u32 == x);
    assert((y as char) as u32 == y);
}

proof fn lemma_decimal_len(n: nat)
    ensures
        decimal(n).len() >= 1,
        n >= 10 ==> decimal(n).len() >= 2,
    decreases n,
{
    if n >= 10 {
        lemma_decimal_len(n / 10);
    }
}

/// Distinct numbers have distinct decimal notations.
pub proof fn lemma_decimal_injective(a: nat, b: nat)
    requires
        decimal(a) == decimal(b),
    ensures
        a == b,
    decreases a,
{
    lemma_decimal_len(a);
    lemma_decimal_len(b);
    if a < 10 && b < 10 {
        assert(decimal(a)[0] == digit_char(a));
        assert(decimal(b)[0] == digit_char(b));
        lemma_digit_char_injective(a, b);
    } else if a >= 10 && b >= 10 {
        assert(decimal(a).last() == digit_char(a % 10));
        assert(decimal(b).last() == digit_char(b % 10));
        lemma_digit_char_injective(a % 10, b % 10);
        assert(decimal(a).drop_last() =~= decimal(a / 10));
        assert(decimal(b).drop_last() =~= decimal(b / 10));
        lemma_decimal_injective(a / 10, b / 10);
    }
}

// ---------------------------------------------------------------------------
// Executable operations
// ---------------------------------------------------------------------------

/// `String::push`: appends one character at the end of the text.
#[verifier::external_body]
fn push_char(s: &mut String, c: char)
    ensures
        final(s)@ == old(s)@.push(c),
{
    s.push(c);
}

/// The characters of `s`, one per element.
pub fn chars_of(s: &str) -> (out: Vec<char>)
    ensures
        out@ == s@,
{
    let mut out: Vec<char> = Vec::new();
    for c in it: s.chars()
        invariant
            out@ == it.seq().take(it.index() as int),
    {
        out.push(c);
    }
    out
}

/// The text made of the characters `cs[from..to]`.
pub fn string_from_range(cs: &Vec<char>, from: usize, to: usize) -> (out: String)
    requires
        from <= to <= cs.len(),
    ensures
        out@ == cs@.subrange(from as int, to as int),
{
    let mut out = String::new();
    let mut i = from;
    while i < to
        invariant
            from <= i <= to <= cs.len(),
            out@ == cs@.subrange(from as int, i as int),
        decreases to - i,
    {
        push_char(&mut out, cs[i]);
        i += 1;
        assert(out@ =~= cs@.subrange(from as int, i as int));
    }
    out
}

/// The text made of all the characters of `cs`.
pub fn string_from_chars(cs: &Vec<char>) -> (out: String)
    ensures
        out@ == cs@,
{
    let out = string_from_range(cs, 0, cs.len());
    assert(cs@.subrange(0, cs@.len() as int) =~= cs@);
    out
}

/// `a` followed by `b`, as a new text.
pub fn concat(a: &str, b: &str) -> (out: String)
    ensures
        out@ == a@ + b@,
{
    let mut out = String::from_str(a);
    out.append(b);
    out
}

/// `char::is_whitespace`: whether `c` has the Unicode `White_Space` property.
pub fn char_is_whitespace(c: char) -> (b: bool)
    ensures
        b == is_whitespace(c),
{
    let n = c as u32;
    (0x9 <= n && n <= 0xd) || n == 0x20 || n == 0x85 || n == 0xa0 || n == 0x1680 || (0x2000 <= n
        && n <= 0x200a) || n == 0x2028 || n == 0x2029 || n == 0x202f || n == 0x205f || n
        == 0x3000
}

/// `char::to_ascii_lowercase`.
pub fn char_to_ascii_lowercase(c: char) -> (out: char)
    ensures
        out == lower_char(c),
{
    if 'A' <= c && c <= 'Z' {
        let n: u32 = (c as u32) + 32;
        assert(n < 0xD800);
        let b: u8 = n as u8;
        b as char
    } else {
        c
    }
}

/// `str::to_ascii_lowercase`.
pub fn to_ascii_lowercase(s: &str) -> (out: String)
    ensures
        out@ == lower_seq(s@),
{
    let cs = chars_of(s);
    let mut out = String::new();
    let mut i: usize = 0;
    while i < cs.len()
        invariant
            i <= cs.len(),
            cs@ == s@,
            out@ == lower_seq(cs@.take(i as int)),
        decreases cs.len() - i,
    {
        let c = char_to_ascii_lowercase(cs[i]);
        push_char(&mut out, c);
        i += 1;
        assert(out@ =~= lower_seq(cs@.take(i as int)));
    }
    assert(cs@.take(cs.len() as int) =~= cs@);
    out
}

/// Whether `a` and `b` are equal once both are ASCII lower-cased
/// (`str::eq_ignore_ascii_case`).
pub fn eq_ignore_ascii_case(a: &str, b: &str) -> (r: bool)
    ensures
        r == (lower_seq(a@) == lower_seq(b@)),
{
    let x = chars_of(a);
    let y = chars_of(b);
    if x.len() != y.len() {
        assert(lower_seq(a@).len() != lower_seq(b@).len());
        return false;
    }
    let mut i: usize = 0;
    while i < x.len()
        invariant
            i <= x.len() == y.len(),
            x@ == a@,
            y@ == b@,
            forall|j: int| 0 <= j < i ==> lower_char(#[trigger] x@[j]) == lower_char(y@[j]),
        decreases x.len() - i,
    {
        if char_to_ascii_lowercase(x[i]) != char_to_ascii_lowercase(y[i]) {
            assert(lower_seq(a@)[i as int] != lower_seq(b@)[i as int]);
            return false;
        }
        i += 1;
    }
    assert(lower_seq(a@) =~= lower_seq(b@));
    true
}

/// Whether the characters `cs[at..]` begin with `p` (a character-level
/// `str::starts_with`).
pub fn chars_start_with(cs: &Vec<char>, at: usize, p: &Vec<char>) -> (r: bool)
    requires
        at <= cs.len(),
    ensures
        r == starts_with_seq(cs@.skip(at as int), p@),
{
    if cs.len() - at < p.len() {
        return false;
    }
    let mut i: usize = 0;
    while i < p.len()
        invariant
            i <= p.len(),
            at + p.len() <= cs.len(),
            forall|j: int| 0 <= j < i ==> #[trigger] cs@[at + j] == p@[j],
        decreases p.len() - i,
    {
        if cs[at + i] != p[i] {
            assert(cs@.skip(at as int).take(p.len() as int)[i as int] != p@[i as int]);
            return false;
        }
        i += 1;
    }
    assert forall|k: int| 0 <= k < p.len() implies #[trigger] cs@.skip(at as int).take(
        p.len() as int,
    )[k] == p@[k] by {
        assert(cs@[at + k] == p@[k]);
    }
    assert(cs@.skip(at as int).take(p.len() as int) =~= p@);
    true
}

/// Whether `s` begins with `p` (`str::starts_with`).
pub fn starts_with(s: &str, p: &str) -> (r: bool)
    ensures
        r == starts_with_seq(s@, p@),
{
    let cs = chars_of(s);
    let ps = chars_of(p);
    let r = chars_start_with(&cs, 0, &ps);
    assert(cs@.skip(0) =~= cs@);
    r
}

/// Whether `needle` occurs in `hay` (`str::contains` with a text pattern).
pub fn contains(hay: &str, needle: &str) -> (r: bool)
    ensures
        r == contains_seq(hay@, needle@),
{
    let h = chars_of(hay);
    let n = chars_of(needle);
    if h.len() < n.len() {
        return false;
    }
    let last = h.len() - n.len();
    let mut i: usize = 0;
    loop
        invariant
            i <= last,
            last + n.len() == h.len(),
            h@ == hay@,
            n@ == needle@,
            forall|k: int| 0 <= k < i ==> #[trigger] hay@.subrange(k, k + needle@.len()) != needle@,
        decreases last - i,
    {
        assert(h@.skip(i as int).take(n@.len() as int) =~= hay@.subrange(
            i as int,
            i + needle@.len(),
        ));
        if chars_start_with(&h, i, &n) {
            return true;
        }
        if i == last {
            assert forall|k: int|
                0 <= k && k + needle@.len() <= hay@.len() implies #[trigger] hay@.subrange(
                k,
                k + needle@.len(),
            ) != needle@ by {}
            return false;
        }
        i += 1;
    }
}

/// Whether the two texts are equal.
pub fn text_eq(a: &str, b: &str) -> (r: bool)
    ensures
        r == (a@ == b@),
{
    let x = chars_of(a);
    let y = chars_of(b);
    if x.len() != y.len() {
        return false;
    }
    let mut i: usize = 0;
    while i < x.len()
        invariant
            i <= x.len() == y.len(),
            x@ == a@,
            y@ == b@,
            forall|j: int| 0 <= j < i ==> #[trigger] x@[j] == y@[j],
        decreases x.len() - i,
    {
        if x[i] != y[i] {
            return false;
        }
        i += 1;
    }
    assert(x@ =~= y@);
    true
}

/// Index range `[start, end)` of `cs` that remains after trimming whitespace
/// from both ends.
fn trim_bounds(cs: &Vec<char>) -> (r: (usize, usize))
    ensures
        r.0 <= r.1 <= cs.len(),
        cs@.subrange(r.0 as int, r.1 as int) == trim_seq(cs@),
        cs@.skip(r.0 as int) == trim_start_seq(cs@),
{
    let mut i: usize = 0;
    while i < cs.len() && char_is_whitespace(cs[i])
        invariant
            i <= cs.len(),
            forall|j: int| 0 <= j < i ==> is_whitespace(#[trigger] cs@[j]),
        decreases cs.len() - i,
    {
        i += 1;
    }
    proof {
        lemma_leading_ws_is(cs@, i as int);
    }
    let ghost t = cs@.skip(i as int);
    let mut j: usize = cs.len();
    while j > i && char_is_whitespace(cs[j - 1])
        invariant
            i <= j <= cs.len(),
            t == cs@.skip(i as int),
            forall|k: int| j <= k < cs.len() ==> is_whitespace(#[trigger] cs@[k]),
        decreases j,
    {
        j -= 1;
    }
    proof {
        let k = cs.len() - j;
        assert forall|m: int| t.len() - k <= m < t.len() implies is_whitespace(#[trigger] t[m]) by {
            assert(t[m] == cs@[m + i]);
        }
        if k < t.len() {
            assert(t[t.len() - k - 1] == cs@[j - 1]);
        }
        lemma_trailing_ws_is(t, k as int);
        assert(t.take(t.len() - k) =~= cs@.subrange(i as int, j as int));
    }
    (i, j)
}

/// `str::trim`: `s` without leading and trailing whitespace.
pub fn trim(s: &str) -> (out: String)
    ensures
        out@ == trim_seq(s@),
{
    let cs = chars_of(s);
    let (i, j) = trim_bounds(&cs);
    string_from_range(&cs, i, j)
}

/// `str::trim` on characters already split out.
pub fn trim_chars(cs: &Vec<char>) -> (out: Vec<char>)
    ensures
        out@ == trim_seq(cs@),
{
    let (i, j) = trim_bounds(cs);
    let mut out: Vec<char> = Vec::new();
    let mut k = i;
    while k < j
        invariant
            i <= k <= j <= cs.len(),
            out@ == cs@.subrange(i as int, k as int),
        decreases j - k,
    {
        out.push(cs[k]);
        k += 1;
        assert(out@ =~= cs@.subrange(i as int, k as int));
    }
    out
}

/// `str::trim_start` on characters already split out: the index at which the
/// text without its leading whitespace begins.
pub fn trim_start_index(cs: &Vec<char>) -> (i: usize)
    ensures
        i <= cs.len(),
        cs@.skip(i as int) == trim_start_seq(cs@),
{
    let (i, _) = trim_bounds(cs);
    i
}

/// `str::lines` on characters already split out.
pub fn lines_of(cs: &Vec<char>) -> (out: Vec<Vec<char>>)
    ensures
        char_rows(out@) == lines_seq(cs@),
{
    let mut out: Vec<Vec<char>> = Vec::new();
    let mut start: usize = 0;
    let mut cur: Vec<char> = Vec::new();
    let mut i: usize = 0;
    assert(cs@.skip(0) =~= cs@);
    assert(char_rows(out@) + lines_seq(cs@) =~= lines_seq(cs@));
    while i < cs.len()
        invariant
            start <= i <= cs.len(),
            cur@ == cs@.subrange(start as int, i as int),
            forall|j: int| start <= j < i ==> #[trigger] cs@[j] != '\n',
            lines_seq(cs@) == char_rows(out@) + lines_seq(cs@.skip(start as int)),
        decreases cs.len() - i,
    {
        if cs[i] == '\n' {
            let ghost rest = cs@.skip(start as int);
            proof {
                assert forall|j: int| 0 <= j < i - start implies #[trigger] rest[j] != '\n' by {
                    assert(rest[j] == cs@[j + start]);
                }
                assert(rest[i - start] == cs@[i as int]);
                lemma_first_newline_is(rest, i - start);
                assert(rest.take(i - start) =~= cur@);
                assert(rest.skip(i - start + 1) =~= cs@.skip(i + 1));
            }
            let line = if cur.len() > 0 && cur[cur.len() - 1] == '\r' {
                let mut l = cur;
                l.pop();
                l
            } else {
                cur
            };
            assert(line@ == strip_cr(rest.take(i - start)));
            let ghost before = char_rows(out@);
            out.push(line);
            proof {
                assert(char_rows(out@) =~= before.push(line@));
                assert(lines_seq(rest) == seq![line@] + lines_seq(cs@.skip(i + 1)));
                assert(before.push(line@) + lines_seq(cs@.skip(i + 1)) =~= before + (seq![
                    line@,
                ] + lines_seq(cs@.skip(i + 1))));
            }
            cur = Vec::new();
            start = i + 1;
            i += 1;
            assert(cur@ =~= cs@.subrange(start as int, i as int));
        } else {
            cur.push(cs[i]);
            i += 1;
            assert(cur@ =~= cs@.subrange(start as int, i as int));
        }
    }
    let ghost rest = cs@.skip(start as int);
    if start < cs.len() {
        proof {
            assert forall|j: int| 0 <= j < rest.len() implies #[trigger] rest[j] != '\n' by {
                assert(rest[j] == cs@[j + start]);
            }
            lemma_first_newline_is(rest, rest.len() as int);
            assert(rest =~= cur@);
        }
        let ghost before = char_rows(out@);
        out.push(cur);
        assert(char_rows(out@) =~= before + lines_seq(rest));
    } else {
        assert(rest.len() == 0);
        assert(char_rows(out@) =~= char_rows(out@) + lines_seq(rest));
    }
    out
}

/// Appends the decimal notation of `n` to `out`.
pub fn push_decimal(out: &mut String, n: usize)
    ensures
        final(out)@ == old(out)@ + decimal(n as nat),
    decreases n,
{
    if n >= 10 {
        push_decimal(out, n / 10);
    }
    let d: u8 = (n % 10) as u8;
    let c: char = (48u8 + d) as char;
    assert(c == digit_char((n % 10) as nat));
    push_char(out, c);
    proof {
        if n >= 10 {
            assert(decimal(n as nat) == decimal((n / 10) as nat).push(digit_char((n % 10) as nat)));
        }
    }
    assert(out@ =~= old(out)@ + decimal(n as nat));
}

/// `Path::join` of a relative component, displayed (Unix separators).
pub fn join_path_text(root: &str, name: &str) -> (out: String)
    ensures
        out@ == join_path(root@, name@),
{
    let cs = chars_of(root);
    if cs.len() == 0 || cs[cs.len() - 1] == '/' {
        concat(root, name)
    } else {
        let mut out = String::from_str(root);
        push_char(&mut out, '/');
        out.append(name);
        out
    }
}

/// Strict lexicographic order of two texts by code point (`String`'s `<`).
pub fn text_less(a: &str, b: &str) -> (r: bool)
    ensures
        r == text_lt(a@, b@),
{
    let x = chars_of(a);
    let y = chars_of(b);
    let mut i: usize = 0;
    assert(a@.skip(0) =~= a@);
    assert(b@.skip(0) =~= b@);
    while i < x.len() && i < y.len() && x[i] == y[i]
        invariant
            i <= x.len(),
            i <= y.len(),
            x@ == a@,
            y@ == b@,
            text_lt(a@, b@) == text_lt(a@.skip(i as int), b@.skip(i as int)),
        decreases x.len() - i,
    {
        proof {
            let s = a@.skip(i as int);
            let t = b@.skip(i as int);
            assert(s.drop_first() =~= a@.skip(i + 1));
            assert(t.drop_first() =~= b@.skip(i + 1));
        }
        i += 1;
    }
    if i == x.len() {
        i < y.len()
    } else if i == y.len() {
        false
    } else {
        assert(a@.skip(i as int)[0] == x@[i as int]);
        assert(b@.skip(i as int)[0] == y@[i as int]);
        (x[i] as u32) < (y[i] as u32)
    }
}

} // verus!
