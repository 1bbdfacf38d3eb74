//! Text as sequences of characters.
//!
//! The rest of the library is written against these few operations, each of
//! which says exactly which characters it returns.

use vstd::prelude::*;

verus! {

broadcast use vstd::string::group_string_axioms;

/// Appending one character.
///
/// Trusted: `String::push` appends the given character to the end of the
/// string and changes nothing else.
pub assume_specification[ String::push ](s: &mut String, c: char)
    ensures
        final(s)@ == old(s)@.push(c),
;

// ---------------------------------------------------------------------------
// Characters
// ---------------------------------------------------------------------------

/// The `White_Space` property of the Unicode character database.
pub open spec fn is_white(c: char) -> bool {
    let n = c as u32;
    ||| 0x09 <= n <= 0x0d
    ||| n == 0x20
    ||| n == 0x85
    ||| n == 0xa0
    ||| n == 0x1680
    ||| 0x2000 <= n <= 0x200a
    ||| n == 0x2028
    ||| n == 0x2029
    ||| n == 0x202f
    ||| n == 0x205f
    ||| n == 0x3000
}

pub open spec fn is_digit(c: char) -> bool {
    '0' <= c <= '9'
}

/// Whether a character counts as blank space, wherever text is trimmed or
/// split into words.
pub fn is_whitespace(c: char) -> (r: bool)
    ensures
        r == is_white(c),
{
    let n: u32 = c as u32;
    (0x09 <= n && n <= 0x0d) || n == 0x20 || n == 0x85 || n == 0xa0 || n == 0x1680 || (0x2000 <= n
        && n <= 0x200a) || n == 0x2028 || n == 0x2029 || n == 0x202f || n == 0x205f || n == 0x3000
}

pub fn is_ascii_digit(c: char) -> (r: bool)
    ensures
        r == is_digit(c),
{
    '0' <= c && c <= '9'
}

/// The lower-case form of an ASCII capital; every other character unchanged.
pub open spec fn lower_char(c: char) -> char {
    if 'A' <= c <= 'Z' {
        ((c as u32 + 32) as u32) as char
    } else {
        c
    }
}

pub open spec fn lower_ascii(s: Seq<char>) -> Seq<char> {
    Seq::new(s.len(), |i: int| lower_char(s[i]))
}

/// A string in double quotes with its special characters escaped, as
/// `format!("{:?}", s)` writes it.
pub uninterp spec fn debug_quoted(s: Seq<char>) -> Seq<char>;

/// A string in double quotes, for showing input back to whoever typed it.
///
/// Trusted: formatting a `str` with `{:?}` depends on its characters alone.
/// Which characters are escaped, and how, is not stated.
#[verifier::external_body]
pub(crate) fn quoted(s: &str) -> (r: String)
    ensures
        r@ == debug_quoted(s@),
{
    format!("{:?}", s)
}

/// The lower-case form of a string, by the rules of Unicode.
pub uninterp spec fn lowercase(s: Seq<char>) -> Seq<char>;

/// A string in lower case.
///
/// Trusted: what `str::to_lowercase` gives depends on the string's characters
/// alone, and on an ASCII string it changes the capital letters and nothing
/// else. What it makes of other characters is not stated.
#[verifier::external_body]
pub(crate) fn to_lower(s: &str) -> (r: String)
    ensures
        r@ == lowercase(s@),
        (forall|i: int| 0 <= i < s@.len() ==> (#[trigger] s@[i] as u32) < 128) ==> r@
            == lower_ascii(s@),
{
    s.to_lowercase()
}

/// Whether Unicode counts a character among the letters and numbers.
pub uninterp spec fn is_alnum(c: char) -> bool;

/// Whether a character is a letter or a number.
///
/// Trusted: what `char::is_alphanumeric` answers depends on the character
/// alone, and of the ASCII characters it accepts the letters and the digits.
/// Which others it accepts is not stated.
#[verifier::external_body]
pub(crate) fn is_alphanumeric(c: char) -> (r: bool)
    ensures
        r == is_alnum(c),
        (c as u32) < 128 ==> r == ('0' <= c <= '9' || 'a' <= c <= 'z' || 'A' <= c <= 'Z'),
{
    c.is_alphanumeric()
}

// ---------------------------------------------------------------------------
// Moving between strings and characters
// ---------------------------------------------------------------------------

pub fn chars_of(s: &str) -> (v: Vec<char>)
    ensures
        v@ == s@,
{
    let mut out: Vec<char> = Vec::new();
    for c in it: s.chars()
        invariant
            it.seq() == s@,
            out@ == s@.take(it.index() as int),
    {
        out.push(c);
    }
    out
}

/// The characters of `v` in `from..to`, as a string.
pub fn string_of(v: &Vec<char>, from: usize, to: usize) -> (s: String)
    requires
        from <= to <= v@.len(),
    ensures
        s@ == v@.subrange(from as int, to as int),
{
    let mut out = String::new();
    let mut i: usize = from;
    while i < to
        invariant
            from <= i <= to <= v@.len(),
            out@ == v@.subrange(from as int, i as int),
        decreases to - i,
    {
        out.push(v[i]);
        i += 1;
    }
    out
}

/// Whether two strings hold the same characters.
pub fn same(a: &str, b: &str) -> (r: bool)
    ensures
        r == (a@ == b@),
{
    let x = chars_of(a);
    let y = chars_of(b);
    if x.len() != y.len() {
        return false;
    }
    let mut i: usize = 0;
    while i < x.len()
        invariant
            i <= x@.len() == y@.len(),
            x@.take(i as int) == y@.take(i as int),
            x@ == a@,
            y@ == b@,
        decreases x@.len() - i,
    {
        if x[i] != y[i] {
            assert(x@[i as int] != y@[i as int]);
            return false;
        }
        assert(x@.take(i + 1) =~= x@.take(i as int).push(x@[i as int]));
        assert(y@.take(i + 1) =~= y@.take(i as int).push(y@[i as int]));
        i += 1;
    }
    assert(x@.take(i as int) =~= x@);
    assert(y@.take(i as int) =~= y@);
    true
}

/// Appends a copy of `b` to `a`.
pub fn append(a: &mut String, b: &str)
    ensures
        final(a)@ == old(a)@ + b@,
{
    a.append(b);
}

/// Two pieces of text, one after the other.
pub fn cat(a: &str, b: &str) -> (r: String)
    ensures
        r@ == a@ + b@,
{
    let mut out = a.to_owned();
    out.append(b);
    out
}

// ---------------------------------------------------------------------------
// Runs of characters
// ---------------------------------------------------------------------------

/// The end of the run of characters satisfying `p` that starts at `i`.
pub open spec fn run_end(s: Seq<char>, i: int, p: spec_fn(char) -> bool) -> int
    decreases s.len() - i,
{
    if i < 0 || i >= s.len() || !p(s[i]) {
        i
    } else {
        run_end(s, i + 1, p)
    }
}

/// The start of the run of characters satisfying `p` that ends at `i`,
/// looking no further back than `lo`.
pub open spec fn run_start(s: Seq<char>, lo: int, i: int, p: spec_fn(char) -> bool) -> int
    decreases i - lo,
{
    if i <= lo || i > s.len() || !p(s[i - 1]) {
        i
    } else {
        run_start(s, lo, i - 1, p)
    }
}

pub proof fn lemma_run_end(s: Seq<char>, i: int, p: spec_fn(char) -> bool)
    requires
        0 <= i <= s.len(),
    ensures
        i <= run_end(s, i, p) <= s.len(),
        forall|k: int| i <= k < run_end(s, i, p) ==> p(s[k]),
        run_end(s, i, p) < s.len() ==> !p(s[run_end(s, i, p)]),
    decreases s.len() - i,
{
    if i < s.len() && p(s[i]) {
        lemma_run_end(s, i + 1, p);
    }
}

pub proof fn lemma_run_start(s: Seq<char>, lo: int, i: int, p: spec_fn(char) -> bool)
    requires
        0 <= lo <= i <= s.len(),
    ensures
        lo <= run_start(s, lo, i, p) <= i,
        forall|k: int| run_start(s, lo, i, p) <= k < i ==> p(s[k]),
        run_start(s, lo, i, p) > lo ==> !p(s[run_start(s, lo, i, p) - 1]),
    decreases i - lo,
{
    if i > lo && p(s[i - 1]) {
        lemma_run_start(s, lo, i - 1, p);
    }
}

pub open spec fn white() -> spec_fn(char) -> bool {
    |c: char| is_white(c)
}

pub open spec fn black() -> spec_fn(char) -> bool {
    |c: char| !is_white(c)
}

pub open spec fn other_than(d: char) -> spec_fn(char) -> bool {
    |c: char| c != d
}

pub open spec fn exactly(d: char) -> spec_fn(char) -> bool {
    |c: char| c == d
}

pub fn skip_white(v: &Vec<char>, from: usize) -> (r: usize)
    requires
        from <= v@.len(),
    ensures
        r == run_end(v@, from as int, white()),
        from <= r <= v@.len(),
{
    let mut i: usize = from;
    while i < v.len() && is_whitespace(v[i])
        invariant
            from <= i <= v@.len(),
            run_end(v@, from as int, white()) == run_end(v@, i as int, white()),
        decreases v@.len() - i,
    {
        i += 1;
    }
    i
}

pub fn skip_black(v: &Vec<char>, from: usize) -> (r: usize)
    requires
        from <= v@.len(),
    ensures
        r == run_end(v@, from as int, black()),
        from <= r <= v@.len(),
{
    let mut i: usize = from;
    while i < v.len() && !is_whitespace(v[i])
        invariant
            from <= i <= v@.len(),
            run_end(v@, from as int, black()) == run_end(v@, i as int, black()),
        decreases v@.len() - i,
    {
        i += 1;
    }
    i
}

/// The first `d` at or after `from`, or the end.
pub fn seek(v: &Vec<char>, from: usize, d: char) -> (r: usize)
    requires
        from <= v@.len(),
    ensures
        r == run_end(v@, from as int, other_than(d)),
        from <= r <= v@.len(),
{
    let mut i: usize = from;
    while i < v.len() && v[i] != d
        invariant
            from <= i <= v@.len(),
            run_end(v@, from as int, other_than(d)) == run_end(v@, i as int, other_than(d)),
        decreases v@.len() - i,
    {
        i += 1;
    }
    i
}

fn skip_white_back(v: &Vec<char>, lo: usize, from: usize) -> (r: usize)
    requires
        lo <= from <= v@.len(),
    ensures
        r == run_start(v@, lo as int, from as int, white()),
        lo <= r <= from,
{
    let mut i: usize = from;
    while i > lo && is_whitespace(v[i - 1])
        invariant
            lo <= i <= from <= v@.len(),
            run_start(v@, lo as int, from as int, white()) == run_start(
                v@,
                lo as int,
                i as int,
                white(),
            ),
        decreases i,
    {
        i -= 1;
    }
    i
}

// ---------------------------------------------------------------------------
// Trimming
// ---------------------------------------------------------------------------

/// `s` without the blank space before its first and after its last other
/// character.
pub open spec fn trimmed(s: Seq<char>) -> Seq<char> {
    let a = run_end(s, 0, white());
    s.subrange(a, run_start(s, a, s.len() as int, white()))
}

pub open spec fn trimmed_end(s: Seq<char>) -> Seq<char> {
    s.take(run_start(s, 0, s.len() as int, white()))
}

/// Whether nothing is left of `s` once it is trimmed.
pub open spec fn is_blank(s: Seq<char>) -> bool {
    forall|i: int| 0 <= i < s.len() ==> is_white(#[trigger] s[i])
}

pub fn trim(s: &str) -> (r: String)
    ensures
        r@ == trimmed(s@),
{
    let v = chars_of(s);
    let a: usize = skip_white(&v, 0);
    let n: usize = v.len();
    let b: usize = skip_white_back(&v, a, n);
    string_of(&v, a, b)
}

pub fn trim_end(s: &str) -> (r: String)
    ensures
        r@ == trimmed_end(s@),
{
    let v = chars_of(s);
    let n: usize = v.len();
    let b: usize = skip_white_back(&v, 0, n);
    string_of(&v, 0, b)
}

pub proof fn lemma_blank_is_trimmed_away(s: Seq<char>)
    ensures
        is_blank(s) <==> trimmed(s).len() == 0,
{
    let a = run_end(s, 0, white());
    lemma_run_end(s, 0, white());
    lemma_run_start(s, a, s.len() as int, white());
    if a < s.len() {
        assert(!is_white(s[a]));
    }
}

pub fn blank(s: &str) -> (r: bool)
    ensures
        r == is_blank(s@),
        r == (trimmed(s@).len() == 0),
{
    let v = chars_of(s);
    let a: usize = skip_white(&v, 0);
    proof {
        lemma_run_end(v@, 0, white());
        lemma_blank_is_trimmed_away(s@);
    }
    a == v.len()
}

// ---------------------------------------------------------------------------
// Splitting and joining
// ---------------------------------------------------------------------------

/// The words of `s` from position `i` on: the longest runs without blank space.
pub open spec fn words_from(s: Seq<char>, i: int) -> Seq<Seq<char>>
    decreases s.len() - i,
    when 0 <= i <= s.len()
    via words_from_decreases
{
    let a = run_end(s, i, white());
    if a >= s.len() {
        Seq::empty()
    } else {
        let b = run_end(s, a, black());
        seq![s.subrange(a, b)] + words_from(s, b)
    }
}

#[via_fn]
proof fn words_from_decreases(s: Seq<char>, i: int) {
    lemma_run_end(s, i, white());
    let a = run_end(s, i, white());
    if a < s.len() {
        lemma_run_end(s, a + 1, black());
    }
}

pub open spec fn words_of(s: Seq<char>) -> Seq<Seq<char>> {
    words_from(s, 0)
}

/// The views of a list of strings.
pub open spec fn views(v: Seq<String>) -> Seq<Seq<char>> {
    Seq::new(v.len(), |i: int| v[i]@)
}

pub fn words(s: &str) -> (r: Vec<String>)
    ensures
        views(r@) == words_of(s@),
{
    let v = chars_of(s);
    let mut out: Vec<String> = Vec::new();
    let mut i: usize = skip_white(&v, 0);
    proof {
        lemma_run_end(v@, 0, white());
    }
    while i < v.len()
        invariant
            i <= v@.len(),
            v@ == s@,
            run_end(v@, i as int, white()) == i,
            words_of(s@) == views(out@) + words_from(v@, i as int),
        decreases v@.len() - i,
    {
        proof {
            lemma_run_end(v@, i as int + 1, black());
        }
        let b: usize = skip_black(&v, i);
        let w = string_of(&v, i, b);
        let ghost before = out@;
        out.push(w);
        assert(views(out@) =~= views(before).push(w@));
        let next: usize = skip_white(&v, b);
        proof {
            lemma_words_skip(v@, b as int);
            lemma_run_end(v@, b as int, white());
            lemma_run_end_twice(v@, b as int, white());
            assert(words_from(v@, i as int) == seq![w@] + words_from(v@, b as int));
            assert(views(before) + (seq![w@] + words_from(v@, b as int)) =~= views(before).push(w@)
                + words_from(v@, b as int));
        }
        i = next;
    }
    proof {
        assert(words_from(v@, i as int) =~= Seq::empty());
        assert(views(out@) + Seq::<Seq<char>>::empty() =~= views(out@));
    }
    out
}

pub proof fn lemma_run_end_twice(s: Seq<char>, i: int, p: spec_fn(char) -> bool)
    requires
        0 <= i <= s.len(),
    ensures
        run_end(s, run_end(s, i, p), p) == run_end(s, i, p),
{
    lemma_run_end(s, i, p);
}

/// Leading blank space does not change the words.
pub proof fn lemma_words_skip(s: Seq<char>, i: int)
    requires
        0 <= i <= s.len(),
    ensures
        words_from(s, run_end(s, i, white())) == words_from(s, i),
{
    lemma_run_end(s, i, white());
    lemma_run_end_twice(s, i, white());
}

/// The pieces with `sep` between each two.
pub open spec fn joined(parts: Seq<Seq<char>>, sep: Seq<char>) -> Seq<char>
    decreases parts.len(),
{
    if parts.len() == 0 {
        Seq::empty()
    } else if parts.len() == 1 {
        parts[0]
    } else {
        joined(parts.drop_last(), sep) + sep + parts.last()
    }
}

pub fn join(parts: &Vec<String>, sep: &str) -> (r: String)
    ensures
        r@ == joined(views(parts@), sep@),
{
    let mut out = String::new();
    let mut i: usize = 0;
    while i < parts.len()
        invariant
            i <= parts@.len(),
            out@ == joined(views(parts@).take(i as int), sep@),
        decreases parts@.len() - i,
    {
        proof {
            let t = views(parts@).take(i + 1);
            assert(t.drop_last() =~= views(parts@).take(i as int));
            assert(t.last() == parts@[i as int]@);
        }
        if i > 0 {
            out.append(sep);
        }
        out.append(parts[i].as_str());
        proof {
            assert(Seq::<char>::empty() + parts@[i as int]@ =~= parts@[i as int]@);
        }
        i += 1;
    }
    assert(views(parts@).take(i as int) =~= views(parts@));
    out
}

/// The lines of `s` from position `i` on. A line ends at a line feed, which
/// together with a carriage return directly before it is not part of the line;
/// nothing follows the last line feed unless there are characters after it.
pub open spec fn lines_from(s: Seq<char>, i: int) -> Seq<Seq<char>>
    decreases s.len() - i,
    when 0 <= i
    via lines_from_decreases
{
    if i >= s.len() {
        Seq::empty()
    } else {
        let n = run_end(s, i, other_than('\n'));
        if n >= s.len() {
            seq![s.subrange(i, s.len() as int)]
        } else {
            let e = if n > i && s[n - 1] == '\r' {
                n - 1
            } else {
                n
            };
            seq![s.subrange(i, e)] + lines_from(s, n + 1)
        }
    }
}

#[via_fn]
proof fn lines_from_decreases(s: Seq<char>, i: int) {
    if i < s.len() {
        lemma_run_end(s, i, other_than('\n'));
    }
}

pub open spec fn lines_of(s: Seq<char>) -> Seq<Seq<char>> {
    lines_from(s, 0)
}

/// The lines of a text made of two, the first of which ends with a line, are
/// those of the one and those of the other.
pub proof fn lemma_lines_of_two(a: Seq<char>, b: Seq<char>)
    requires
        a.len() == 0 || a.last() == '\n',
    ensures
        lines_of(a + b) == lines_of(a) + lines_of(b),
{
    lemma_lines_of_first(a, b, 0);
    lemma_lines_of_second(a, b, 0);
}

proof fn lemma_lines_of_first(a: Seq<char>, b: Seq<char>, i: int)
    requires
        0 <= i <= a.len(),
        a.len() == 0 || a.last() == '\n',
    ensures
        lines_from(a + b, i) == lines_from(a, i) + lines_from(a + b, a.len() as int),
    decreases a.len() - i,
{
    let s = a + b;
    let p = other_than('\n');
    if i < a.len() {
        let n = run_end(a, i, p);
        let m = run_end(s, i, p);
        lemma_run_end(a, i, p);
        lemma_run_end(s, i, p);
        assert(n < a.len()) by {
            if n == a.len() {
                assert(p(a[a.len() - 1]));
            }
        }
        assert(s[n] == a[n]);
        assert(m == n) by {
            if m < n {
                assert(p(a[m]));
                assert(s[m] == a[m]);
            }
            if n < m {
                assert(p(s[n]));
            }
        }
        let e = if n > i && a[n - 1] == '\r' {
            n - 1
        } else {
            n
        };
        assert(n > i ==> s[n - 1] == a[n - 1]);
        assert(s.subrange(i, e) =~= a.subrange(i, e));
        lemma_lines_of_first(a, b, n + 1);
        assert(lines_from(s, i) =~= lines_from(a, i) + lines_from(s, a.len() as int));
    } else {
        assert(lines_from(a, i) =~= Seq::empty());
        assert(lines_from(s, i) =~= lines_from(a, i) + lines_from(s, a.len() as int));
    }
}

proof fn lemma_lines_of_second(a: Seq<char>, b: Seq<char>, j: int)
    requires
        0 <= j <= b.len(),
    ensures
        lines_from(a + b, a.len() + j) == lines_from(b, j),
    decreases b.len() - j,
{
    let s = a + b;
    let k = a.len() as int;
    let p = other_than('\n');
    if j < b.len() {
        let n = run_end(b, j, p);
        let m = run_end(s, k + j, p);
        lemma_run_end(b, j, p);
        lemma_run_end(s, k + j, p);
        assert(m == k + n) by {
            if m < k + n {
                assert(p(b[m - k]));
                assert(s[m] == b[m - k]);
            }
            if k + n < m {
                assert(p(s[k + n]));
                assert(s[k + n] == b[n]);
            }
        }
        if n < b.len() {
            let e = if n > j && b[n - 1] == '\r' {
                n - 1
            } else {
                n
            };
            assert(n > j ==> s[k + n - 1] == b[n - 1]);
            assert(s.subrange(k + j, k + e) =~= b.subrange(j, e));
            lemma_lines_of_second(a, b, n + 1);
        } else {
            assert(s.subrange(k + j, s.len() as int) =~= b.subrange(j, b.len() as int));
        }
    }
}

/// A line of its own.
pub proof fn lemma_one_line(l: Seq<char>)
    requires
        forall|k: int| 0 <= k < l.len() ==> l[k] != '\n',
        l.len() == 0 || l.last() != '\r',
    ensures
        lines_of(l + seq!['\n']) == seq![l],
{
    let s = l + seq!['\n'];
    let p = other_than('\n');
    let n = run_end(s, 0, p);
    lemma_run_end(s, 0, p);
    assert(s[l.len() as int] == '\n');
    assert(n == l.len()) by {
        if n < l.len() {
            assert(s[n] == l[n]);
        }
    }
    assert(n > 0 ==> s[n - 1] == l.last());
    assert(s.subrange(0, n) =~= l);
    assert(lines_from(s, n + 1) =~= Seq::empty());
    assert(lines_of(s) =~= seq![l]);
}

/// Text without blanks at its ends is trimmed already.
pub proof fn lemma_tight(s: Seq<char>)
    requires
        s.len() > 0,
        !is_white(s[0]),
        !is_white(s.last()),
    ensures
        trimmed(s) == s,
{
    assert(run_end(s, 0, white()) == 0);
    assert(run_start(s, 0, s.len() as int, white()) == s.len());
    assert(s.subrange(0, s.len() as int) =~= s);
}

/// Joining starts with the first part.
pub proof fn lemma_joined_first(w: Seq<char>, rest: Seq<Seq<char>>, sep: Seq<char>)
    requires
        rest.len() > 0,
    ensures
        joined(seq![w] + rest, sep) == w + sep + joined(rest, sep),
    decreases rest.len(),
{
    let all = seq![w] + rest;
    assert(all.last() == rest.last());
    if rest.len() == 1 {
        assert(all.drop_last() =~= seq![w]);
        assert(joined(seq![w], sep) == w);
        assert(joined(rest, sep) == rest.last());
        assert(joined(all, sep) == joined(seq![w], sep) + sep + rest.last());
        assert(joined(all, sep) =~= w + sep + joined(rest, sep));
    } else {
        let r = rest.drop_last();
        assert(all.drop_last() =~= seq![w] + r);
        lemma_joined_first(w, r, sep);
        assert(joined(all, sep) =~= w + sep + joined(rest, sep));
    }
}

/// The lines of a text that ends with a line, joined, are the text, so long as
/// no line feed follows a carriage return.
pub proof fn lemma_lines_joined(s: Seq<char>, i: int)
    requires
        0 <= i < s.len(),
        s.last() == '\n',
        forall|k: int| 0 < k < s.len() && (#[trigger] s[k]) == '\n' ==> s[k - 1] != '\r',
    ensures
        lines_from(s, i).len() > 0,
        joined(lines_from(s, i), seq!['\n']) + seq!['\n'] == s.skip(i),
    decreases s.len() - i,
{
    let p = other_than('\n');
    let n = run_end(s, i, p);
    lemma_run_end(s, i, p);
    assert(n < s.len()) by {
        if n == s.len() {
            assert(p(s[s.len() - 1]));
        }
    }
    let w = s.subrange(i, n);
    let rest = lines_from(s, n + 1);
    assert(lines_from(s, i) == seq![w] + rest);
    assert(s[n] == '\n');
    if n + 1 < s.len() {
        lemma_lines_joined(s, n + 1);
        lemma_joined_first(w, rest, seq!['\n']);
        let tail = joined(rest, seq!['\n']) + seq!['\n'];
        assert(joined(seq![w] + rest, seq!['\n']) + seq!['\n'] =~= w + seq!['\n'] + tail);
        assert(w + seq!['\n'] + s.skip(n + 1) =~= s.skip(i));
    } else {
        assert(rest =~= Seq::empty());
        assert(seq![w] + rest =~= seq![w]);
        assert(w + seq!['\n'] =~= s.skip(i));
    }
}

pub fn lines(s: &str) -> (r: Vec<String>)
    ensures
        views(r@) == lines_of(s@),
{
    let v = chars_of(s);
    let mut out: Vec<String> = Vec::new();
    let mut i: usize = 0;
    while i < v.len()
        invariant
            i <= v@.len(),
            v@ == s@,
            lines_of(s@) == views(out@) + lines_from(v@, i as int),
        decreases v@.len() - i,
    {
        proof {
            lemma_run_end(v@, i as int, other_than('\n'));
        }
        let n: usize = seek(&v, i, '\n');
        let e: usize = if n < v.len() && n > i && v[n - 1] == '\r' {
            n - 1
        } else {
            n
        };
        let w = string_of(&v, i, e);
        let ghost before = out@;
        out.push(w);
        assert(views(out@) =~= views(before).push(w@));
        if n < v.len() {
            proof {
                assert(views(before) + (seq![w@] + lines_from(v@, n + 1)) =~= views(out@)
                    + lines_from(v@, n + 1));
            }
            i = n + 1;
        } else {
            assert(views(before) + seq![w@] =~= views(out@) + Seq::<Seq<char>>::empty());
            i = n;
        }
    }
    proof {
        assert(views(out@) + Seq::<Seq<char>>::empty() =~= views(out@));
    }
    out
}

/// The pieces of `s` from position `i` on, cut at every `d`. There is always
/// one piece more than there are cuts.
pub open spec fn pieces_from(s: Seq<char>, i: int, d: char) -> Seq<Seq<char>>
    decreases s.len() - i,
    when 0 <= i <= s.len()
    via pieces_from_decreases
{
    let n = run_end(s, i, other_than(d));
    if n >= s.len() {
        seq![s.subrange(i, s.len() as int)]
    } else {
        seq![s.subrange(i, n)] + pieces_from(s, n + 1, d)
    }
}

#[via_fn]
proof fn pieces_from_decreases(s: Seq<char>, i: int, d: char) {
    lemma_run_end(s, i, other_than(d));
}

pub open spec fn pieces_of(s: Seq<char>, d: char) -> Seq<Seq<char>> {
    pieces_from(s, 0, d)
}

/// Cuts `s` at every `d`.
pub fn split(s: &str, d: char) -> (r: Vec<String>)
    ensures
        views(r@) == pieces_of(s@, d),
{
    let v = chars_of(s);
    let mut out: Vec<String> = Vec::new();
    let mut i: usize = 0;
    loop
        invariant
            i <= v@.len(),
            v@ == s@,
            pieces_of(s@, d) == views(out@) + pieces_from(v@, i as int, d),
        decreases v@.len() - i,
    {
        proof {
            lemma_run_end(v@, i as int, other_than(d));
        }
        let n: usize = seek(&v, i, d);
        let w = string_of(&v, i, n);
        let ghost before = out@;
        out.push(w);
        assert(views(out@) =~= views(before).push(w@));
        if n >= v.len() {
            assert(views(before) + seq![w@] =~= views(out@));
            return out;
        }
        proof {
            assert(views(before) + (seq![w@] + pieces_from(v@, n + 1, d)) =~= views(out@)
                + pieces_from(v@, n + 1, d));
        }
        i = n + 1;
    }
}

/// What `s` holds, or nothing.
pub open spec fn opt_view(s: Option<String>) -> Option<Seq<char>> {
    match s {
        Some(t) => Some(t@),
        None => None,
    }
}

pub open spec fn opt_str_view(s: Option<&str>) -> Option<Seq<char>> {
    match s {
        Some(t) => Some(t@),
        None => None,
    }
}

pub fn copy_opt(s: &Option<String>) -> (r: Option<String>)
    ensures
        r == *s,
{
    match s {
        Some(t) => Some(t.clone()),
        None => None,
    }
}

pub fn own_opt(s: Option<&str>) -> (r: Option<String>)
    ensures
        opt_view(r) == opt_str_view(s),
{
    match s {
        Some(t) => Some(t.to_owned()),
        None => None,
    }
}

pub fn as_opt(s: &Option<String>) -> (r: Option<&str>)
    ensures
        opt_str_view(r) == opt_view(*s),
{
    match s {
        Some(t) => Some(t.as_str()),
        None => None,
    }
}

pub fn same_opt(a: Option<&str>, b: Option<&str>) -> (r: bool)
    ensures
        r == (opt_str_view(a) == opt_str_view(b)),
{
    match (a, b) {
        (Some(x), Some(y)) => same(x, y),
        (None, None) => true,
        _ => false,
    }
}

// ---------------------------------------------------------------------------
// Looking inside
// ---------------------------------------------------------------------------

/// Whether `pat` stands in `s` at position `i`.
pub open spec fn occurs_at(s: Seq<char>, pat: Seq<char>, i: int) -> bool {
    0 <= i && i + pat.len() <= s.len() && s.subrange(i, i + pat.len()) == pat
}

pub open spec fn has(s: Seq<char>, pat: Seq<char>) -> bool {
    exists|i: int| occurs_at(s, pat, i)
}

pub open spec fn begins(s: Seq<char>, pat: Seq<char>) -> bool {
    occurs_at(s, pat, 0)
}

pub open spec fn ends(s: Seq<char>, pat: Seq<char>) -> bool {
    occurs_at(s, pat, s.len() - pat.len())
}

pub fn at(v: &Vec<char>, i: usize, pat: &Vec<char>) -> (r: bool)
    requires
        i <= v@.len(),
    ensures
        r == occurs_at(v@, pat@, i as int),
{
    if pat.len() > v.len() - i {
        return false;
    }
    let mut k: usize = 0;
    while k < pat.len()
        invariant
            k <= pat@.len(),
            i + pat@.len() <= v@.len() <= usize::MAX,
            forall|j: int| 0 <= j < k ==> v@[i + j] == #[trigger] pat@[j],
        decreases pat@.len() - k,
    {
        if v[i + k] != pat[k] {
            assert(v@.subrange(i as int, i + pat@.len())[k as int] == v@[i + k]);
            return false;
        }
        k += 1;
    }
    assert(v@.subrange(i as int, i + pat@.len()) =~= pat@);
    true
}

/// The first position at or after `from` where `pat` occurs.
pub fn find_from(v: &Vec<char>, pat: &Vec<char>, from: usize) -> (r: Option<usize>)
    requires
        from <= v@.len(),
    ensures
        match r {
            Some(i) => from <= i <= v@.len() && occurs_at(v@, pat@, i as int) && forall|j: int|
                from <= j < i ==> !#[trigger] occurs_at(v@, pat@, j),
            None => forall|j: int| from <= j ==> !#[trigger] occurs_at(v@, pat@, j),
        },
{
    let mut i: usize = from;
    while i < v.len()
        invariant
            from <= i <= v@.len(),
            forall|j: int| from <= j < i ==> !#[trigger] occurs_at(v@, pat@, j),
        decreases v@.len() - i,
    {
        if at(v, i, pat) {
            return Some(i);
        }
        i += 1;
    }
    if at(v, i, pat) {
        return Some(i);
    }
    assert forall|j: int| from <= j implies !#[trigger] occurs_at(v@, pat@, j) by {}
    None
}

/// The first position at or after `i` where `pat` occurs.
pub open spec fn first_at(s: Seq<char>, pat: Seq<char>, i: int) -> Option<int>
    decreases s.len() - i + 1,
{
    if i < 0 || i > s.len() {
        None
    } else if occurs_at(s, pat, i) {
        Some(i)
    } else {
        first_at(s, pat, i + 1)
    }
}

pub proof fn lemma_first_at(s: Seq<char>, pat: Seq<char>, i: int, k: int)
    requires
        0 <= i <= k <= s.len(),
        occurs_at(s, pat, k),
        forall|j: int| i <= j < k ==> !#[trigger] occurs_at(s, pat, j),
    ensures
        first_at(s, pat, i) == Some(k),
    decreases k - i,
{
    if i < k {
        assert(!occurs_at(s, pat, i));
        lemma_first_at(s, pat, i + 1, k);
    }
}

pub proof fn lemma_never_at(s: Seq<char>, pat: Seq<char>, i: int)
    requires
        0 <= i,
        forall|j: int| i <= j ==> !#[trigger] occurs_at(s, pat, j),
    ensures
        first_at(s, pat, i) is None,
    decreases s.len() - i + 1,
{
    if i <= s.len() {
        assert(!occurs_at(s, pat, i));
        lemma_never_at(s, pat, i + 1);
    }
}

/// The first position where `pat` occurs.
pub fn find(v: &Vec<char>, pat: &Vec<char>) -> (r: Option<usize>)
    ensures
        match r {
            Some(i) => first_at(v@, pat@, 0) == Some(i as int) && i + pat@.len() <= v@.len(),
            None => first_at(v@, pat@, 0) is None,
        },
{
    let r = find_from(v, pat, 0);
    proof {
        match r {
            Some(i) => lemma_first_at(v@, pat@, 0, i as int),
            None => lemma_never_at(v@, pat@, 0),
        }
    }
    r
}

pub fn contains(s: &str, pat: &str) -> (r: bool)
    ensures
        r == has(s@, pat@),
{
    let v = chars_of(s);
    let p = chars_of(pat);
    match find_from(&v, &p, 0) {
        Some(i) => true,
        None => {
            assert forall|j: int| !#[trigger] occurs_at(s@, pat@, j) by {}
            false
        },
    }
}

pub fn starts_with(s: &str, pat: &str) -> (r: bool)
    ensures
        r == begins(s@, pat@),
{
    let v = chars_of(s);
    let p = chars_of(pat);
    at(&v, 0, &p)
}

pub fn ends_with(s: &str, pat: &str) -> (r: bool)
    ensures
        r == ends(s@, pat@),
{
    let v = chars_of(s);
    let p = chars_of(pat);
    if p.len() > v.len() {
        return false;
    }
    let i: usize = v.len() - p.len();
    at(&v, i, &p)
}

/// What follows `pat`, where `s` begins with it.
pub fn strip_prefix(s: &str, pat: &str) -> (r: Option<String>)
    ensures
        match r {
            Some(t) => begins(s@, pat@) && t@ == s@.skip(pat@.len() as int),
            None => !begins(s@, pat@),
        },
{
    let v = chars_of(s);
    let p = chars_of(pat);
    if at(&v, 0, &p) {
        let n: usize = v.len();
        let from: usize = p.len();
        let t = string_of(&v, from, n);
        assert(t@ =~= s@.skip(pat@.len() as int));
        Some(t)
    } else {
        None
    }
}

pub open spec fn swapped(s: Seq<char>, from: char, to: char) -> Seq<char> {
    Seq::new(
        s.len(),
        |i: int|
            if s[i] == from {
                to
            } else {
                s[i]
            },
    )
}

/// `s` with every `from` replaced by `to`.
pub fn swap_char(s: &str, from: char, to: char) -> (r: String)
    ensures
        r@ == swapped(s@, from, to),
{
    let v = chars_of(s);
    let mut out = String::new();
    let mut i: usize = 0;
    while i < v.len()
        invariant
            i <= v@.len(),
            v@ == s@,
            out@ == swapped(s@, from, to).take(i as int),
        decreases v@.len() - i,
    {
        let c = if v[i] == from {
            to
        } else {
            v[i]
        };
        out.push(c);
        assert(out@ =~= swapped(s@, from, to).take(i + 1));
        i += 1;
    }
    assert(out@ =~= swapped(s@, from, to));
    out
}

/// `s` with its ASCII capitals in lower case.
pub fn to_ascii_lower(s: &str) -> (r: String)
    ensures
        r@ == lower_ascii(s@),
{
    let v = chars_of(s);
    let mut out = String::new();
    let mut i: usize = 0;
    while i < v.len()
        invariant
            i <= v@.len(),
            v@ == s@,
            out@ == lower_ascii(s@).take(i as int),
        decreases v@.len() - i,
    {
        let c: char = v[i];
        if 'A' <= c && c <= 'Z' {
            let n: u8 = c as u8;
            let d: char = (n + 32) as char;
            out.push(d);
        } else {
            out.push(c);
        }
        assert(out@ =~= lower_ascii(s@).take(i + 1));
        i += 1;
    }
    assert(out@ =~= lower_ascii(s@));
    out
}

// ---------------------------------------------------------------------------
// Numbers
// ---------------------------------------------------------------------------

pub open spec fn digit(d: nat) -> char {
    (48 + d) as char
}

/// A number as decimal digits, without leading zeros.
pub open spec fn decimal(n: nat) -> Seq<char>
    decreases n,
{
    if n < 10 {
        seq![digit(n)]
    } else {
        decimal(n / 10).push(digit(n % 10))
    }
}

/// The number that a string of decimal digits stands for.
pub open spec fn decimal_value(s: Seq<char>) -> nat
    decreases s.len(),
{
    if s.len() == 0 {
        0
    } else {
        decimal_value(s.drop_last()) * 10 + (s.last() as nat - 48) as nat
    }
}

pub open spec fn all_digits(s: Seq<char>) -> bool {
    forall|i: int| 0 <= i < s.len() ==> is_digit(#[trigger] s[i])
}

pub fn to_decimal(n: u64) -> (r: String)
    ensures
        r@ == decimal(n as nat),
    decreases n,
{
    if n < 10 {
        let mut out = String::new();
        let d: u8 = n as u8;
        out.push((48 + d) as char);
        assert(out@ =~= decimal(n as nat));
        out
    } else {
        let mut out = to_decimal(n / 10);
        let d: u8 = (n % 10) as u8;
        out.push((48 + d) as char);
        out
    }
}

/// A signed number in decimal digits.
pub open spec fn signed(n: int) -> Seq<char> {
    if n < 0 {
        "-"@ + decimal((-n) as nat)
    } else {
        decimal(n as nat)
    }
}

pub fn to_signed(n: i32) -> (r: String)
    ensures
        r@ == signed(n as int),
{
    let wide: i64 = n as i64;
    if wide < 0 {
        let d = to_decimal((-wide) as u64);
        cat("-", d.as_str())
    } else {
        to_decimal(wide as u64)
    }
}

/// Writing a number down and reading it back gives the number.
pub proof fn lemma_decimal_round_trip(n: nat)
    ensures
        decimal(n).len() > 0,
        all_digits(decimal(n)),
        decimal_value(decimal(n)) == n,
    decreases n,
{
    if n < 10 {
        assert(decimal(n).drop_last() =~= Seq::empty());
        reveal_with_fuel(decimal_value, 2);
    } else {
        lemma_decimal_round_trip(n / 10);
        assert(decimal(n).drop_last() =~= decimal(n / 10));
    }
}

proof fn lemma_decimal_value_grows(s: Seq<char>, i: int)
    requires
        0 <= i <= s.len(),
        all_digits(s),
    ensures
        decimal_value(s.take(i)) <= decimal_value(s),
    decreases s.len() - i,
{
    if i == s.len() {
        assert(s.take(i) =~= s);
    } else {
        lemma_decimal_value_grows(s, i + 1);
        assert(s.take(i + 1).drop_last() =~= s.take(i));
        assert(is_digit(s[i]));
    }
}

/// Reads a string of decimal digits, unless the number does not fit.
pub fn parse_u32(s: &str) -> (r: Option<u32>)
    requires
        all_digits(s@),
    ensures
        match r {
            Some(n) => n == decimal_value(s@),
            None => decimal_value(s@) > u32::MAX,
        },
{
    let v = chars_of(s);
    let mut n: u32 = 0;
    let mut i: usize = 0;
    while i < v.len()
        invariant
            i <= v@.len(),
            v@ == s@,
            all_digits(s@),
            n == decimal_value(s@.take(i as int)),
        decreases v@.len() - i,
    {
        assert(is_digit(s@[i as int]));
        let d: u64 = v[i] as u64 - 48;
        proof {
            assert(s@.take(i + 1).drop_last() =~= s@.take(i as int));
            lemma_decimal_value_grows(s@, i + 1);
        }
        let next: u64 = n as u64 * 10 + d;
        if next > 0xffff_ffff {
            return None;
        }
        n = next as u32;
        i += 1;
    }
    assert(s@.take(i as int) =~= s@);
    Some(n)
}

pub fn only_digits(s: &str) -> (r: bool)
    ensures
        r == all_digits(s@),
{
    let v = chars_of(s);
    let mut i: usize = 0;
    while i < v.len()
        invariant
            i <= v@.len(),
            v@ == s@,
            all_digits(s@.take(i as int)),
        decreases v@.len() - i,
    {
        if !is_ascii_digit(v[i]) {
            assert(!is_digit(s@[i as int]));
            return false;
        }
        assert forall|k: int| 0 <= k < i + 1 implies is_digit(#[trigger] s@.take(i + 1)[k]) by {
            if k < i {
                assert(is_digit(s@.take(i as int)[k]));
            }
        }
        i += 1;
    }
    assert(s@.take(i as int) =~= s@);
    true
}

/// The sixteen hexadecimal digits of a 64-bit number, most significant first.
pub open spec fn hex16(n: u64) -> Seq<char> {
    Seq::new(16, |i: int| hex_digit(nibble(n as nat, (15 - i) as nat)))
}

/// The `k`-th hexadecimal digit of `n`, counted from the least significant.
pub open spec fn nibble(n: nat, k: nat) -> nat
    decreases k,
{
    if k == 0 {
        n % 16
    } else {
        nibble(n / 16, (k - 1) as nat)
    }
}

pub open spec fn hex_digit(d: nat) -> char {
    if d < 10 {
        (48 + d) as char
    } else {
        (87 + d) as char
    }
}

pub fn to_hex16(n: u64) -> (r: String)
    ensures
        r@ == hex16(n),
{
    let mut low_first: Vec<char> = Vec::new();
    let mut rest: u64 = n;
    let mut k: usize = 0;
    while k < 16
        invariant
            k <= 16,
            low_first@.len() == k,
            forall|j: int| 0 <= j < k ==> #[trigger] low_first@[j] == hex_digit(nibble(n as nat, j as nat)),
            forall|j: nat| #[trigger] nibble(rest as nat, j) == nibble(n as nat, j + k as nat),
        decreases 16 - k,
    {
        let d: u8 = (rest % 16) as u8;
        let c: char = if d < 10 {
            (48 + d) as char
        } else {
            (87 + d) as char
        };
        proof {
            assert(nibble(rest as nat, 0) == nibble(n as nat, k as nat));
        }
        low_first.push(c);
        let ghost was = rest;
        rest = rest / 16;
        proof {
            assert forall|j: nat| #[trigger] nibble(rest as nat, j) == nibble(n as nat, j + (k + 1) as nat) by {
                assert(nibble(was as nat, j + 1) == nibble(n as nat, (j + 1) + k as nat));
            }
        }
        k += 1;
    }
    let mut out = String::new();
    let mut i: usize = 16;
    while i > 0
        invariant
            i <= 16,
            low_first@.len() == 16,
            forall|j: int| 0 <= j < 16 ==> #[trigger] low_first@[j] == hex_digit(nibble(n as nat, j as nat)),
            out@ == hex16(n).take(16 - i),
        decreases i,
    {
        i -= 1;
        out.push(low_first[i]);
        assert(out@ =~= hex16(n).take(16 - i));
    }
    assert(out@ =~= hex16(n));
    out
}

// ---------------------------------------------------------------------------
// Order
// ---------------------------------------------------------------------------

/// Whether `a` sorts before `b` or is `b`, character by character.
pub open spec fn text_le(a: Seq<char>, b: Seq<char>) -> bool
    decreases a.len(),
{
    if a.len() == 0 {
        true
    } else if b.len() == 0 {
        false
    } else if a[0] != b[0] {
        a[0] < b[0]
    } else {
        text_le(a.drop_first(), b.drop_first())
    }
}

pub fn sorts_before_or_same(a: &str, b: &str) -> (r: bool)
    ensures
        r == text_le(a@, b@),
{
    let x = chars_of(a);
    let y = chars_of(b);
    let mut i: usize = 0;
    assert(x@.skip(0) =~= x@);
    assert(y@.skip(0) =~= y@);
    loop
        invariant
            i <= x@.len(),
            i <= y@.len(),
            x@ == a@,
            y@ == b@,
            text_le(a@, b@) == text_le(x@.skip(i as int), y@.skip(i as int)),
        decreases x@.len() - i,
    {
        if i == x.len() {
            return true;
        }
        if i == y.len() {
            return false;
        }
        assert(x@.skip(i as int)[0] == x@[i as int]);
        assert(y@.skip(i as int)[0] == y@[i as int]);
        if x[i] != y[i] {
            return x[i] < y[i];
        }
        assert(x@.skip(i as int).drop_first() =~= x@.skip(i + 1));
        assert(y@.skip(i as int).drop_first() =~= y@.skip(i + 1));
        i += 1;
    }
}

/// The words of two texts with blank space between them are those of the one
/// and those of the other.
pub proof fn law_blank_space_separates_words(a: Seq<char>, c: char, b: Seq<char>)
    requires
        is_white(c),
    ensures
        words_of(a.push(c) + b) == words_of(a) + words_of(b),
{
    let s = a.push(c) + b;
    let k = a.len() as int;
    lemma_words_of_first(a, s, 0);
    assert(s[k] == c);
    assert(white()(s[k]));
    assert(run_end(s, k, white()) == run_end(s, k + 1, white()));
    assert(words_from(s, k) == words_from(s, k + 1));
    assert(a.push(c).len() == k + 1);
    lemma_words_of_second(a.push(c), b, 0);
}

proof fn lemma_words_of_first(a: Seq<char>, s: Seq<char>, i: int)
    requires
        0 <= i <= a.len() < s.len(),
        forall|k: int| 0 <= k < a.len() ==> s[k] == a[k],
        is_white(s[a.len() as int]),
    ensures
        words_from(s, i) == words_from(a, i) + words_from(s, a.len() as int),
    decreases a.len() - i,
{
    let n = a.len() as int;
    let x = run_end(a, i, white());
    let u = run_end(s, i, white());
    lemma_run_end(a, i, white());
    lemma_run_end(s, i, white());
    assert(white()(s[n]));
    if x >= n {
        assert(u > n) by {
            if u <= n {
                assert(!white()(s[u]));
                if u < n {
                    assert(white()(a[u]));
                }
            }
        }
        let v = run_end(s, n, white());
        lemma_run_end(s, n, white());
        assert(u == v) by {
            if u < v {
                assert(white()(s[u]));
            }
            if v < u {
                assert(white()(s[v]));
            }
        }
        assert(words_from(a, i) =~= Seq::empty());
        assert(words_from(s, i) =~= words_from(a, i) + words_from(s, n));
    } else {
        assert(u == x) by {
            if u < x {
                assert(white()(a[u]));
            }
            if x < u {
                assert(white()(s[x]));
            }
        }
        let y = run_end(a, x, black());
        let z = run_end(s, x, black());
        lemma_run_end(a, x, black());
        lemma_run_end(s, x, black());
        lemma_run_end(a, x + 1, black());
        assert(y == z) by {
            if z < y {
                assert(black()(a[z]));
            }
            if y < z {
                assert(black()(s[y]));
            }
        }
        assert(s.subrange(x, y) =~= a.subrange(x, y));
        lemma_words_of_first(a, s, y);
        assert(words_from(s, i) =~= words_from(a, i) + words_from(s, n));
    }
}

proof fn lemma_words_of_second(a: Seq<char>, b: Seq<char>, j: int)
    requires
        0 <= j <= b.len(),
    ensures
        words_from(a + b, a.len() + j) == words_from(b, j),
    decreases b.len() - j,
{
    let s = a + b;
    let k = a.len() as int;
    let x = run_end(b, j, white());
    let u = run_end(s, k + j, white());
    lemma_run_end(b, j, white());
    lemma_run_end(s, k + j, white());
    assert(u == k + x) by {
        if u < k + x {
            assert(white()(b[u - k]));
        }
        if k + x < u {
            assert(white()(s[k + x]));
        }
    }
    if x < b.len() {
        let y = run_end(b, x, black());
        let z = run_end(s, u, black());
        lemma_run_end(b, x, black());
        lemma_run_end(s, u, black());
        lemma_run_end(b, x + 1, black());
        assert(z == k + y) by {
            if z < k + y {
                assert(black()(b[z - k]));
            }
            if k + y < z {
                assert(black()(s[k + y]));
            }
        }
        assert(s.subrange(u, z) =~= b.subrange(x, y));
        lemma_words_of_second(a, b, y);
    }
}

/// Every word holds something, and no blank space, and only blank text has none.
pub proof fn law_words_hold_what_is_not_blank(s: Seq<char>)
    ensures
        forall|k: int|
            0 <= k < words_of(s).len() ==> (#[trigger] words_of(s)[k]).len() > 0 && forall|j: int|
                0 <= j < words_of(s)[k].len() ==> !is_white(#[trigger] words_of(s)[k][j]),
        words_of(s).len() == 0 <==> forall|i: int| 0 <= i < s.len() ==> is_white(#[trigger] s[i]),
{
    lemma_words_black(s, 0);
    if words_of(s).len() == 0 {
        lemma_run_end(s, 0, white());
        assert forall|i: int| 0 <= i < s.len() implies is_white(#[trigger] s[i]) by {
            assert(white()(s[i]));
        }
    } else {
        let a = run_end(s, 0, white());
        lemma_run_end(s, 0, white());
        assert(!white()(s[a]));
        assert(!is_white(s[a]));
    }
}

proof fn lemma_words_black(s: Seq<char>, i: int)
    requires
        0 <= i <= s.len(),
    ensures
        forall|k: int|
            0 <= k < words_from(s, i).len() ==> (#[trigger] words_from(s, i)[k]).len() > 0
                && forall|j: int|
                0 <= j < words_from(s, i)[k].len() ==> !is_white(#[trigger] words_from(s, i)[k][j]),
    decreases s.len() - i,
{
    let a = run_end(s, i, white());
    lemma_run_end(s, i, white());
    if a < s.len() {
        let b = run_end(s, a, black());
        lemma_run_end(s, a, black());
        lemma_run_end(s, a + 1, black());
        lemma_words_black(s, b);
        let w = s.subrange(a, b);
        assert forall|j: int| 0 <= j < w.len() implies !is_white(#[trigger] w[j]) by {
            assert(black()(s[a + j]));
        }
        let all = words_from(s, i);
        assert forall|k: int| 0 <= k < all.len() implies (#[trigger] all[k]).len() > 0 && forall|
            j: int,
        |
            0 <= j < all[k].len() ==> !is_white(#[trigger] all[k][j]) by {
            if k > 0 {
                assert(all[k] == words_from(s, b)[k - 1]);
            }
        }
    }
}

/// What a filter keeps was there and passes.
pub proof fn lemma_filter_contains<A>(s: Seq<A>, p: spec_fn(A) -> bool)
    ensures
        forall|x: A| #[trigger] s.filter(p).contains(x) <==> s.contains(x) && p(x),
    decreases s.len(),
{
    reveal(Seq::filter);
    if s.len() > 0 {
        let r = s.drop_last();
        let last = s.last();
        lemma_filter_contains(r, p);
        assert forall|x: A| #[trigger] s.filter(p).contains(x) <==> s.contains(x) && p(x) by {
            assert(s.contains(x) <==> r.contains(x) || x == last) by {
                if r.contains(x) {
                    let k = choose|k: int| 0 <= k < r.len() && r[k] == x;
                    assert(s[k] == x);
                }
                assert(s[s.len() - 1] == last);
                if s.contains(x) && x != last {
                    let k = choose|k: int| 0 <= k < s.len() && s[k] == x;
                    assert(r[k] == x);
                }
            }
            let before = r.filter(p);
            let kept = s.filter(p);
            if p(last) {
                assert(kept == before.push(last));
                if before.contains(x) {
                    let k = choose|k: int| 0 <= k < before.len() && before[k] == x;
                    assert(kept[k] == x);
                }
                assert(kept[kept.len() - 1] == last);
                if kept.contains(x) && x != last {
                    let k = choose|k: int| 0 <= k < kept.len() && kept[k] == x;
                    assert(before[k] == x);
                }
            } else {
                assert(kept == before);
            }
        }
    }
}

/// Blank text has no words.
proof fn lemma_blank_has_no_words(s: Seq<char>)
    requires
        is_blank(s),
    ensures
        words_of(s).len() == 0,
{
    law_words_hold_what_is_not_blank(s);
}

/// Blank space at either end does not change the words.
pub proof fn law_trimming_keeps_the_words(s: Seq<char>)
    ensures
        words_of(trimmed(s)) == words_of(s),
{
    let a = run_end(s, 0, white());
    lemma_run_end(s, 0, white());
    let b = run_start(s, a, s.len() as int, white());
    lemma_run_start(s, a, s.len() as int, white());
    let m = s.subrange(a, b);
    let u = s.take(a);
    let v = s.skip(b);
    assert forall|i: int| 0 <= i < u.len() implies is_white(#[trigger] u[i]) by {
        assert(white()(s[i]));
    }
    assert forall|i: int| 0 <= i < v.len() implies is_white(#[trigger] v[i]) by {
        assert(white()(s[b + i]));
    }
    lemma_blank_has_no_words(u);
    if v.len() == 0 {
        assert(m + v =~= m);
    } else {
        let w = v.drop_first();
        assert(m + v =~= m.push(v[0]) + w);
        law_blank_space_separates_words(m, v[0], w);
        assert forall|i: int| 0 <= i < w.len() implies is_white(#[trigger] w[i]) by {
            assert(w[i] == v[i + 1]);
        }
        lemma_blank_has_no_words(w);
        assert(words_of(m) + words_of(w) =~= words_of(m));
    }
    assert(words_of(m + v) == words_of(m));
    if u.len() == 0 {
        assert(s =~= m + v);
    } else {
        let t = u.drop_last();
        assert(s =~= t.push(u.last()) + (m + v));
        law_blank_space_separates_words(t, u.last(), m + v);
        assert forall|i: int| 0 <= i < t.len() implies is_white(#[trigger] t[i]) by {
            assert(t[i] == u[i]);
        }
        lemma_blank_has_no_words(t);
        assert(words_of(t) + words_of(m + v) =~= words_of(m + v));
    }
}

/// What is trimmed begins and ends with no blank space, and only blank space was
/// taken off.
pub proof fn law_trimming_takes_blank_space_off(s: Seq<char>)
    ensures
        exists|a: int, b: int|
            0 <= a <= b <= s.len() && trimmed(s) == #[trigger] s.subrange(a, b) && (forall|i: int|
                0 <= i < s.len() && !(a <= i < b) ==> is_white(#[trigger] s[i])),
        trimmed(s).len() > 0 ==> !is_white(trimmed(s)[0]) && !is_white(trimmed(s).last()),
        exists|b: int|
            0 <= b <= s.len() && trimmed_end(s) == #[trigger] s.take(b) && (forall|i: int|
                b <= i < s.len() ==> is_white(#[trigger] s[i])),
        trimmed_end(s).len() > 0 ==> !is_white(trimmed_end(s).last()),
{
    let a = run_end(s, 0, white());
    lemma_run_end(s, 0, white());
    let b = run_start(s, a, s.len() as int, white());
    lemma_run_start(s, a, s.len() as int, white());
    let c = run_start(s, 0, s.len() as int, white());
    lemma_run_start(s, 0, s.len() as int, white());
    assert(trimmed(s) == s.subrange(a, b));
    assert forall|i: int| 0 <= i < s.len() && !(a <= i < b) implies is_white(#[trigger] s[i]) by {
        assert(white()(s[i]));
    }
    if a < b {
        assert(!white()(s[a]));
        assert(!white()(s[b - 1]));
    }
    assert(trimmed_end(s) == s.take(c));
    assert forall|i: int| c <= i < s.len() implies is_white(#[trigger] s[i]) by {
        assert(white()(s[i]));
    }
    if c > 0 {
        assert(!white()(s[c - 1]));
    }
}

/// Trimmed text is told by what is around it: blank space alone.
pub proof fn lemma_trimmed_is(u: Seq<char>, m: Seq<char>, v: Seq<char>)
    requires
        is_blank(u),
        is_blank(v),
        m.len() > 0,
        !is_white(m[0]),
        !is_white(m.last()),
    ensures
        trimmed(u + m + v) == m,
        u.len() == 0 ==> trimmed_end(m + v) == m,
{
    let s = u + m + v;
    let a = run_end(s, 0, white());
    lemma_run_end(s, 0, white());
    let n = u.len() as int;
    let e = n + m.len();
    assert(s[n] == m[0]);
    assert(a == n) by {
        if a < n {
            assert(s[a] == u[a]);
            assert(is_white(u[a]));
        }
        if n < a {
            assert(white()(s[n]));
        }
    }
    let b = run_start(s, a, s.len() as int, white());
    lemma_run_start(s, a, s.len() as int, white());
    assert(s[e - 1] == m.last());
    assert(b == e) by {
        if e < b {
            assert(s[b - 1] == v[b - 1 - e]);
            assert(is_white(v[b - 1 - e]));
            assert(!white()(s[b - 1]));
        }
        if b < e {
            assert(white()(s[e - 1]));
        }
    }
    assert(s.subrange(n, e) =~= m);
    if u.len() == 0 {
        assert(s =~= m + v);
        assert(s.take(e) =~= m);
    }
}

/// A text without the separator is one piece; what stands before the first
/// separator is a piece, and the rest is split in the same way.
pub proof fn law_pieces_end_at_the_separator(a: Seq<char>, d: char, b: Seq<char>)
    requires
        !a.contains(d),
    ensures
        pieces_of(a, d) == seq![a],
        pieces_of(a.push(d) + b, d) == seq![a] + pieces_of(b, d),
{
    let p = other_than(d);
    let n = run_end(a, 0, p);
    lemma_run_end(a, 0, p);
    if n < a.len() {
        assert(!p(a[n]));
        assert(a.contains(a[n]));
    }
    assert(a.subrange(0, a.len() as int) =~= a);
    let s = a.push(d) + b;
    let k = a.len() as int;
    let m = run_end(s, 0, p);
    lemma_run_end(s, 0, p);
    assert(s[k] == d);
    assert(m == k) by {
        if m < k {
            assert(s[m] == a[m]);
            assert(!p(s[m]));
            assert(a.contains(a[m]));
        }
        if k < m {
            assert(p(s[k]));
        }
    }
    assert(s.subrange(0, k) =~= a);
    lemma_pieces_of_second(a.push(d), b, d, 0);
}

proof fn lemma_pieces_of_second(a: Seq<char>, b: Seq<char>, d: char, j: int)
    requires
        0 <= j <= b.len(),
    ensures
        pieces_from(a + b, a.len() + j, d) == pieces_from(b, j, d),
    decreases b.len() - j,
{
    let s = a + b;
    let k = a.len() as int;
    let p = other_than(d);
    let n = run_end(b, j, p);
    let m = run_end(s, k + j, p);
    lemma_run_end(b, j, p);
    lemma_run_end(s, k + j, p);
    assert(m == k + n) by {
        if m < k + n {
            assert(p(b[m - k]));
            assert(s[m] == b[m - k]);
        }
        if k + n < m {
            assert(p(s[k + n]));
            assert(s[k + n] == b[n]);
        }
    }
    if n < b.len() {
        assert(s.subrange(k + j, k + n) =~= b.subrange(j, n));
        lemma_pieces_of_second(a, b, d, n + 1);
    } else {
        assert(s.subrange(k + j, s.len() as int) =~= b.subrange(j, b.len() as int));
    }
}

/// A line ends at its line feed, and loses one carriage return before that; the
/// rest is read in the same way. A last line need not be ended.
pub proof fn law_lines_end_at_the_line_feed(a: Seq<char>, b: Seq<char>)
    requires
        !a.contains('\n'),
    ensures
        a.len() == 0 ==> lines_of(a).len() == 0,
        a.len() > 0 ==> lines_of(a) == seq![a],
        lines_of(a.push('\n') + b) == seq![
            if a.len() > 0 && a.last() == '\r' {
                a.drop_last()
            } else {
                a
            },
        ] + lines_of(b),
{
    let p = other_than('\n');
    if a.len() > 0 {
        let n = run_end(a, 0, p);
        lemma_run_end(a, 0, p);
        if n < a.len() {
            assert(!p(a[n]));
            assert(a.contains(a[n]));
        }
        assert(a.subrange(0, a.len() as int) =~= a);
    }
    let s = a.push('\n');
    let k = a.len() as int;
    let m = run_end(s, 0, p);
    lemma_run_end(s, 0, p);
    assert(s[k] == '\n');
    assert(m == k) by {
        if m < k {
            assert(s[m] == a[m]);
            assert(!p(s[m]));
            assert(a.contains(a[m]));
        }
        if k < m {
            assert(p(s[k]));
        }
    }
    let e = if a.len() > 0 && a.last() == '\r' {
        a.drop_last()
    } else {
        a
    };
    if k > 0 {
        assert(s[k - 1] == a.last());
    }
    assert(s.subrange(0, e.len() as int) =~= e);
    assert(lines_from(s, k + 1) =~= Seq::empty());
    assert(lines_of(s) =~= seq![e]);
    lemma_lines_of_two(s, b);
}

/// Filters that agree on what is there keep the same.
pub proof fn lemma_same_filter<A>(s: Seq<A>, p: spec_fn(A) -> bool, q: spec_fn(A) -> bool)
    requires
        forall|i: int| 0 <= i < s.len() ==> p(#[trigger] s[i]) == q(s[i]),
    ensures
        s.filter(p) == s.filter(q),
    decreases s.len(),
{
    reveal(Seq::filter);
    if s.len() > 0 {
        let r = s.drop_last();
        assert forall|i: int| 0 <= i < r.len() implies p(#[trigger] r[i]) == q(r[i]) by {
            assert(r[i] == s[i]);
        }
        lemma_same_filter(r, p, q);
        assert(p(s[s.len() - 1]) == q(s[s.len() - 1]));
    }
}

/// What counts as blank space: the blank, the tab, the breaks of lines and
/// pages, and the other spaces of Unicode.
pub proof fn law_what_is_blank_space(c: char)
    ensures
        is_white(c) <==> ({
            ||| c == ' ' || c == '\t' || c == '\n' || c == '\r' || c == '\u{b}' || c == '\u{c}'
            ||| c == '\u{85}' || c == '\u{a0}' || c == '\u{1680}'
            ||| c == '\u{2000}' || c == '\u{2001}' || c == '\u{2002}' || c == '\u{2003}'
            ||| c == '\u{2004}' || c == '\u{2005}' || c == '\u{2006}' || c == '\u{2007}'
            ||| c == '\u{2008}' || c == '\u{2009}' || c == '\u{200a}'
            ||| c == '\u{2028}' || c == '\u{2029}' || c == '\u{202f}' || c == '\u{205f}'
            ||| c == '\u{3000}'
        }),
{
}

/// In lower case the capitals of ASCII become small, and nothing else changes.
pub proof fn law_capitals_become_small(s: Seq<char>, i: int)
    requires
        0 <= i < s.len(),
    ensures
        lower_ascii(s).len() == s.len(),
        'A' <= s[i] <= 'Z' ==> 'a' <= lower_ascii(s)[i] <= 'z' && lower_ascii(s)[i] as int - 'a' as int
            == s[i] as int - 'A' as int,
        !('A' <= s[i] <= 'Z') ==> lower_ascii(s)[i] == s[i],
{
}

/// Swapping puts one character for another, and leaves the rest.
pub proof fn law_swapping_leaves_the_rest(s: Seq<char>, from: char, to: char, i: int)
    requires
        0 <= i < s.len(),
    ensures
        swapped(s, from, to).len() == s.len(),
        s[i] == from ==> swapped(s, from, to)[i] == to,
        s[i] != from ==> swapped(s, from, to)[i] == s[i],
{
}

/// Parts are joined with the separator between each two, and only there.
pub proof fn law_joining_separates(parts: Seq<Seq<char>>, part: Seq<char>, sep: Seq<char>)
    ensures
        joined(Seq::empty(), sep).len() == 0,
        joined(seq![part], sep) == part,
        parts.len() > 0 ==> joined(parts.push(part), sep) == joined(parts, sep) + sep + part,
{
    assert(parts.push(part).drop_last() =~= parts);
}

/// A number is written with the digits it is read from, and begins with a zero
/// only where it is nothing else.
pub proof fn law_numbers_are_written_as_they_are_read(n: nat)
    ensures
        decimal_value(decimal(n)) == n,
        decimal(n).len() > 0,
        forall|i: int| 0 <= i < decimal(n).len() ==> '0' <= #[trigger] decimal(n)[i] <= '9',
        n > 0 ==> decimal(n)[0] != '0',
        n < 10 ==> decimal(n).len() == 1,
    decreases n,
{
    lemma_decimal_round_trip(n);
    assert forall|i: int| 0 <= i < decimal(n).len() implies '0' <= #[trigger] decimal(n)[i]
        <= '9' by {
        assert(is_digit(decimal(n)[i]));
    }
    if n >= 10 {
        law_numbers_are_written_as_they_are_read(n / 10);
        assert(decimal(n)[0] == decimal(n / 10)[0]);
    }
}

/// Texts are ordered by their first character that differs; a text comes before
/// one that it begins.
pub proof fn law_texts_are_ordered(a: Seq<char>, x: char, b: Seq<char>, y: char, c: Seq<char>)
    ensures
        text_le(a, a + b),
        b.len() > 0 ==> !text_le(a + b, a),
        x < y ==> text_le(a.push(x) + b, a.push(y) + c) && !text_le(a.push(y) + c, a.push(x) + b),
    decreases a.len(),
{
    let u = a.push(x) + b;
    let v = a.push(y) + c;
    if a.len() == 0 {
        assert(u[0] == x);
        assert(v[0] == y);
    } else {
        let r = a.drop_first();
        law_texts_are_ordered(r, x, b, y, c);
        assert((a + b).drop_first() =~= r + b);
        assert((a + b)[0] == a[0]);
        assert(u.drop_first() =~= r.push(x) + b);
        assert(v.drop_first() =~= r.push(y) + c);
        assert(u[0] == a[0] && v[0] == a[0]);
    }
}

} // verus!
