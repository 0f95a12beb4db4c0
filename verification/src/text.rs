//! Character-level helpers shared by the parsers: Unicode white space,
//! trimming, line splitting, token splitting, decimal numbers.

use vstd::prelude::*;

verus! {

/// Unicode `White_Space`, as `char::is_whitespace` defines it.
pub open spec fn is_ws(c: char) -> bool {
    ||| c == ' '
    ||| ('\t' <= c && c <= '\r')
    ||| c == '\u{85}'
    ||| c == '\u{a0}'
    ||| c == '\u{1680}'
    ||| ('\u{2000}' <= c && c <= '\u{200a}')
    ||| c == '\u{2028}'
    ||| c == '\u{2029}'
    ||| c == '\u{202f}'
    ||| c == '\u{205f}'
    ||| c == '\u{3000}'
}

pub fn is_whitespace(c: char) -> (r: bool)
    ensures
        r == is_ws(c),
{
    c == ' ' || ('\t' <= c && c <= '\r') || c == '\u{85}' || c == '\u{a0}' || c == '\u{1680}'
        || ('\u{2000}' <= c && c <= '\u{200a}') || c == '\u{2028}' || c == '\u{2029}'
        || c == '\u{202f}' || c == '\u{205f}' || c == '\u{3000}'
}

/// The characters of a string slice, in order.
pub fn chars_of(s: &str) -> (v: Vec<char>)
    ensures
        v@ == s@,
{
    let mut v: Vec<char> = Vec::new();
    for c in it: s.chars()
        invariant
            v@ == it.seq().take(it.index() as int),
            it.seq() == s@,
    {
        v.push(c);
    }
    v
}

/// A `String` holding exactly the given characters.
#[verifier::external_body]
pub(crate) fn string_from_chars(v: &[char]) -> (s: String)
    ensures
        s@ == v@,
{
    v.iter().collect()
}

/// A copy of `v[lo..hi]`.
pub fn copy_range(v: &[char], lo: usize, hi: usize) -> (r: Vec<char>)
    requires
        lo <= hi <= v@.len(),
    ensures
        r@ == v@.subrange(lo as int, hi as int),
{
    let mut r: Vec<char> = Vec::new();
    let mut i = lo;
    while i < hi
        invariant
            lo <= i <= hi,
            hi <= v@.len(),
            r@ == v@.subrange(lo as int, i as int),
        decreases hi - i,
    {
        r.push(v[i]);
        i = i + 1;
        assert(r@ =~= v@.subrange(lo as int, i as int));
    }
    r
}

/// Whether `v[lo..hi]` spells exactly `w`.
pub fn range_eq(v: &[char], lo: usize, hi: usize, w: &[char]) -> (r: bool)
    requires
        lo <= hi <= v@.len(),
    ensures
        r == (v@.subrange(lo as int, hi as int) == w@),
{
    if hi - lo != w.len() {
        return false;
    }
    let mut i: usize = 0;
    while i < w.len()
        invariant
            lo <= hi <= v@.len(),
            hi - lo == w@.len(),
            i <= w@.len(),
            forall|j: int| 0 <= j < i ==> v@[lo + j] == w@[j],
        decreases w@.len() - i,
    {
        if v[lo + i] != w[i] {
            assert(v@.subrange(lo as int, hi as int)[i as int] != w@[i as int]);
            return false;
        }
        i = i + 1;
    }
    assert(v@.subrange(lo as int, hi as int) =~= w@);
    true
}

/// What `str::to_lowercase` gives for a text (full Unicode lower-casing).
pub uninterp spec fn lowercase(s: Seq<char>) -> Seq<char>;

/// Lower-cases a text.
///
/// Calls `str::to_lowercase`; the result is named `lowercase` of the input,
/// which its Unicode tables define and nothing here states further.
#[verifier::external_body]
pub(crate) fn to_lowercase(s: &str) -> (r: String)
    ensures
        r@ == lowercase(s@),
{
    s.to_lowercase()
}

/// Whether `c` occurs in `v`.
pub fn has_char(v: &[char], c: char) -> (r: bool)
    ensures
        r == v@.contains(c),
{
    let mut i: usize = 0;
    while i < v.len()
        invariant
            i <= v@.len(),
            forall|j: int| 0 <= j < i ==> v@[j] != c,
        decreases v@.len() - i,
    {
        if v[i] == c {
            return true;
        }
        i = i + 1;
    }
    false
}

// ---------------------------------------------------------------- searching

/// The character classes that the parsers split on.
#[derive(Clone, Copy)]
pub enum CharClass {
    /// `'\n'`
    Newline,
    /// `' '`
    Space,
    /// Unicode white space.
    Whitespace,
    /// White space or `'='`, between a key and its value.
    KeySep,
    /// `','`
    Comma,
}

pub open spec fn in_class(cls: CharClass, c: char) -> bool {
    match cls {
        CharClass::Newline => c == '\n',
        CharClass::Space => c == ' ',
        CharClass::Whitespace => is_ws(c),
        CharClass::KeySep => is_ws(c) || c == '=',
        CharClass::Comma => c == ',',
    }
}

pub fn is_in_class(cls: CharClass, c: char) -> (r: bool)
    ensures
        r == in_class(cls, c),
{
    match cls {
        CharClass::Newline => c == '\n',
        CharClass::Space => c == ' ',
        CharClass::Whitespace => is_whitespace(c),
        CharClass::KeySep => is_whitespace(c) || c == '=',
        CharClass::Comma => c == ',',
    }
}

/// Index of the first character of `s` in `cls`, or `s.len()` when there is none.
pub open spec fn first_in(s: Seq<char>, cls: CharClass) -> int
    decreases s.len(),
{
    if s.len() == 0 {
        0
    } else if in_class(cls, s[0]) {
        0
    } else {
        1 + first_in(s.drop_first(), cls)
    }
}

/// `first_in` is the least index in the class, or the length.
pub proof fn lemma_first_in(s: Seq<char>, cls: CharClass)
    ensures
        0 <= first_in(s, cls) <= s.len(),
        forall|j: int| 0 <= j < first_in(s, cls) ==> !in_class(cls, #[trigger] s[j]),
        first_in(s, cls) < s.len() ==> in_class(cls, s[first_in(s, cls)]),
    decreases s.len(),
{
    if s.len() > 0 && !in_class(cls, s[0]) {
        let t = s.drop_first();
        lemma_first_in(t, cls);
        assert forall|j: int| 0 <= j < first_in(s, cls) implies !in_class(cls, #[trigger] s[j]) by {
            if j > 0 {
                assert(s[j] == t[j - 1]);
            }
        }
    }
}

/// Any index with no class member before it, that is in the class or the
/// length, is `first_in`.
pub proof fn lemma_first_in_unique(s: Seq<char>, cls: CharClass, k: int)
    requires
        0 <= k <= s.len(),
        forall|j: int| 0 <= j < k ==> !in_class(cls, #[trigger] s[j]),
        k < s.len() ==> in_class(cls, s[k]),
    ensures
        first_in(s, cls) == k,
{
    lemma_first_in(s, cls);
    let f = first_in(s, cls);
    if f < k {
        assert(!in_class(cls, s[f]));
    }
    if k < f {
        assert(!in_class(cls, s[k]));
    }
}

/// The first index in `lo..hi` whose character is in `cls`, or `hi`.
pub fn find_in(v: &[char], lo: usize, hi: usize, cls: CharClass) -> (k: usize)
    requires
        lo <= hi <= v@.len(),
    ensures
        lo <= k <= hi,
        k - lo == first_in(v@.subrange(lo as int, hi as int), cls),
{
    let ghost s = v@.subrange(lo as int, hi as int);
    let mut k = lo;
    while k < hi && !is_in_class(cls, v[k])
        invariant
            lo <= k <= hi,
            hi <= v@.len(),
            s == v@.subrange(lo as int, hi as int),
            forall|j: int| 0 <= j < k - lo ==> !in_class(cls, #[trigger] s[j]),
        decreases hi - k,
    {
        assert(s[k - lo] == v@[k as int]);
        k = k + 1;
    }
    proof {
        if k < hi {
            assert(s[k - lo] == v@[k as int]);
        }
        lemma_first_in_unique(s, cls, k - lo);
    }
    k
}

// ---------------------------------------------------------------- trimming

/// `s` without its leading white space.
pub open spec fn trim_start(s: Seq<char>) -> Seq<char>
    decreases s.len(),
{
    if s.len() > 0 && is_ws(s[0]) {
        trim_start(s.drop_first())
    } else {
        s
    }
}

/// `s` without its trailing white space.
pub open spec fn trim_end(s: Seq<char>) -> Seq<char>
    decreases s.len(),
{
    if s.len() > 0 && is_ws(s.last()) {
        trim_end(s.drop_last())
    } else {
        s
    }
}

/// `s` without leading and trailing white space, as `str::trim`.
pub open spec fn trim(s: Seq<char>) -> Seq<char> {
    trim_end(trim_start(s))
}

/// Bounds `(a, b)` with `v[a..b]` the trimmed `v[lo..hi]`.
pub fn trim_range(v: &[char], lo: usize, hi: usize) -> (r: (usize, usize))
    requires
        lo <= hi <= v@.len(),
    ensures
        lo <= r.0 <= r.1 <= hi,
        v@.subrange(r.0 as int, r.1 as int) == trim(v@.subrange(lo as int, hi as int)),
{
    let mut a = lo;
    while a < hi && is_whitespace(v[a])
        invariant
            lo <= a <= hi,
            hi <= v@.len(),
            trim_start(v@.subrange(lo as int, hi as int)) == trim_start(
                v@.subrange(a as int, hi as int),
            ),
        decreases hi - a,
    {
        assert(v@.subrange(a as int, hi as int).drop_first() =~= v@.subrange(a + 1, hi as int));
        a = a + 1;
    }
    let ghost ts = v@.subrange(a as int, hi as int);
    assert(trim_start(ts) == ts);
    let mut b = hi;
    while b > a && is_whitespace(v[b - 1])
        invariant
            lo <= a <= b <= hi,
            hi <= v@.len(),
            trim_end(ts) == trim_end(v@.subrange(a as int, b as int)),
            ts == v@.subrange(a as int, hi as int),
        decreases b - a,
    {
        assert(v@.subrange(a as int, b as int).drop_last() =~= v@.subrange(a as int, b - 1));
        b = b - 1;
    }
    assert(trim_end(v@.subrange(a as int, b as int)) == v@.subrange(a as int, b as int));
    (a, b)
}

/// A text that starts and ends with a non-space character is its own trim.
pub proof fn lemma_trim_noop(x: Seq<char>)
    requires
        x.len() > 0,
        !is_ws(x[0]),
        !is_ws(x.last()),
    ensures
        trim(x) == x,
{
    assert(trim_start(x) == x);
    assert(trim_end(x) == x);
}

/// With no member of `cls` in `x`, the first one in `x + y` is where `y` starts
/// when `y` starts with one.
pub proof fn lemma_first_in_concat(x: Seq<char>, y: Seq<char>, cls: CharClass)
    requires
        forall|i: int| 0 <= i < x.len() ==> !in_class(cls, #[trigger] x[i]),
        y.len() > 0,
        in_class(cls, y[0]),
    ensures
        first_in(x + y, cls) == x.len(),
{
    let s = x + y;
    assert forall|j: int| 0 <= j < x.len() implies !in_class(cls, #[trigger] s[j]) by {
        assert(s[j] == x[j]);
    }
    assert(s[x.len() as int] == y[0]);
    lemma_first_in_unique(s, cls, x.len() as int);
}

/// With no member of `cls` in `x`, `x` has none.
pub proof fn lemma_first_in_none(x: Seq<char>, cls: CharClass)
    requires
        forall|i: int| 0 <= i < x.len() ==> !in_class(cls, #[trigger] x[i]),
    ensures
        first_in(x, cls) == x.len(),
{
    lemma_first_in_unique(x, cls, x.len() as int);
}

// ---------------------------------------------------------------- lines

/// The lines of `s`, as `str::lines` splits them (a final `'\n'` ends the
/// last line rather than starting an empty one). A carriage return before
/// the newline stays in the line; every caller trims lines, which removes it.
pub open spec fn lines(s: Seq<char>) -> Seq<Seq<char>>
    decreases s.len(),
{
    if s.len() == 0 {
        seq![]
    } else {
        let e = first_in(s, CharClass::Newline);
        if e < s.len() {
            proof {
                lemma_first_in(s, CharClass::Newline);
            }
            seq![s.take(e)] + lines(s.skip(e + 1))
        } else {
            seq![s]
        }
    }
}

/// Lines of a text that ends with a newline, followed by more text.
pub proof fn lemma_lines_append(a: Seq<char>, b: Seq<char>)
    requires
        a.len() == 0 || a.last() == '\n',
    ensures
        lines(a + b) == lines(a) + lines(b),
    decreases a.len(),
{
    if a.len() == 0 {
        assert(a + b =~= b);
    } else {
        let s = a + b;
        lemma_first_in(a, CharClass::Newline);
        let e = first_in(a, CharClass::Newline);
        assert(e < a.len());
        assert forall|j: int| 0 <= j < e implies !in_class(CharClass::Newline, #[trigger] s[j]) by {
            assert(s[j] == a[j]);
        }
        lemma_first_in_unique(s, CharClass::Newline, e);
        assert(s.take(e) =~= a.take(e));
        assert(s.skip(e + 1) =~= a.skip(e + 1) + b);
        lemma_lines_append(a.skip(e + 1), b);
    }
}

// ---------------------------------------------------------------- tokens

/// The white-space separated words of `s`, as `str::split_whitespace`.
pub open spec fn words(s: Seq<char>) -> Seq<Seq<char>>
    decreases s.len(),
{
    let t = trim_start(s);
    if t.len() == 0 {
        seq![]
    } else {
        let k = first_in(t, CharClass::Whitespace);
        proof {
            lemma_trim_start_len(s);
            lemma_first_in(t, CharClass::Whitespace);
            assert(!is_ws(t[0]));
        }
        seq![t.take(k)] + words(t.skip(k))
    }
}

pub proof fn lemma_trim_start_len(s: Seq<char>)
    ensures
        trim_start(s).len() <= s.len(),
        trim_start(s).len() > 0 ==> !is_ws(trim_start(s)[0]),
    decreases s.len(),
{
    if s.len() > 0 && is_ws(s[0]) {
        lemma_trim_start_len(s.drop_first());
    }
}

/// Words are non-empty and hold no white space.
pub proof fn lemma_words(s: Seq<char>)
    ensures
        forall|i: int|
            0 <= i < words(s).len() ==> (#[trigger] words(s)[i]).len() > 0 && forall|j: int|
                0 <= j < words(s)[i].len() ==> !is_ws(words(s)[i][j]),
    decreases s.len(),
{
    let t = trim_start(s);
    lemma_trim_start_len(s);
    if t.len() > 0 {
        let k = first_in(t, CharClass::Whitespace);
        lemma_first_in(t, CharClass::Whitespace);
        lemma_words(t.skip(k));
        let ws = words(s);
        assert(ws == seq![t.take(k)] + words(t.skip(k)));
        assert(k > 0);
        assert forall|i: int| 0 <= i < ws.len() implies (#[trigger] ws[i]).len() > 0 && forall|
            j: int,
        | 0 <= j < ws[i].len() ==> !is_ws(ws[i][j]) by {
            if i == 0 {
                assert forall|j: int| 0 <= j < ws[0].len() implies !is_ws(ws[0][j]) by {
                    assert(ws[0][j] == t[j]);
                    assert(!in_class(CharClass::Whitespace, t[j]));
                }
            } else {
                assert(ws[i] == words(t.skip(k))[i - 1]);
            }
        }
    }
}

/// The pieces of `s` between occurrences of `cls`, as `str::split`
/// (an empty text is one empty piece).
pub open spec fn split_on(s: Seq<char>, cls: CharClass) -> Seq<Seq<char>>
    decreases s.len(),
{
    let k = first_in(s, cls);
    if k < s.len() {
        proof {
            lemma_first_in(s, cls);
        }
        seq![s.take(k)] + split_on(s.skip(k + 1), cls)
    } else {
        seq![s]
    }
}

// ---------------------------------------------------------------- numbers

pub open spec fn is_digit(c: char) -> bool {
    '0' <= c && c <= '9'
}

/// The number that a string of decimal digits spells.
pub open spec fn digits_value(s: Seq<char>) -> nat
    decreases s.len(),
{
    if s.len() == 0 {
        0
    } else {
        digits_value(s.drop_last()) * 10 + (s.last() as nat - 48) as nat
    }
}

/// Every character is an ASCII digit.
pub open spec fn all_digits(d: Seq<char>) -> bool {
    forall|i: int| 0 <= i < d.len() ==> is_digit(#[trigger] d[i])
}

/// `s` without one leading `+`.
pub open spec fn unsigned_part(s: Seq<char>) -> Seq<char> {
    if s.len() > 0 && s[0] == '+' {
        s.drop_first()
    } else {
        s
    }
}

/// `u16::from_str`: an optional `+`, then one or more ASCII digits whose
/// value fits in 16 bits.
pub open spec fn parse_u16(s: Seq<char>) -> Option<u16> {
    let d = unsigned_part(s);
    if d.len() > 0 && all_digits(d) && digits_value(d) <= 65535 {
        Some(digits_value(d) as u16)
    } else {
        None
    }
}

proof fn lemma_digits_value_mono(s: Seq<char>, i: int)
    requires
        0 <= i <= s.len(),
        forall|j: int| 0 <= j < s.len() ==> is_digit(#[trigger] s[j]),
    ensures
        digits_value(s.take(i)) <= digits_value(s),
    decreases s.len() - i,
{
    if i < s.len() {
        lemma_digits_value_mono(s, i + 1);
        assert(s.take(i + 1).drop_last() =~= s.take(i));
    } else {
        assert(s.take(i) =~= s);
    }
}

/// Parses `v[lo..hi]` as `u16::from_str` does.
pub fn parse_u16_range(v: &[char], lo: usize, hi: usize) -> (r: Option<u16>)
    requires
        lo <= hi <= v@.len(),
    ensures
        r == parse_u16(v@.subrange(lo as int, hi as int)),
{
    let ghost s = v@.subrange(lo as int, hi as int);
    let mut start = lo;
    if lo < hi && v[lo] == '+' {
        start = lo + 1;
        assert(s.drop_first() =~= v@.subrange(start as int, hi as int));
    }
    let ghost d = v@.subrange(start as int, hi as int);
    assert(d == unsigned_part(s));
    if start == hi {
        return None;
    }
    let mut acc: u32 = 0;
    let mut i = start;
    while i < hi
        invariant
            lo <= start <= i <= hi,
            hi <= v@.len(),
            d == v@.subrange(start as int, hi as int),
            s == v@.subrange(lo as int, hi as int),
            d == unsigned_part(s),
            d.len() > 0,
            forall|j: int| 0 <= j < i - start ==> is_digit(#[trigger] d[j]),
            acc == digits_value(d.take(i - start)),
            acc <= 65535,
        decreases hi - i,
    {
        let c = v[i];
        assert(d[i - start] == c);
        if !('0' <= c && c <= '9') {
            assert(!is_digit(d[i - start]));
            assert(!all_digits(d));
            return None;
        }
        let dg = (c as u32) - 48;
        assert(d.take(i + 1 - start).drop_last() =~= d.take(i - start));
        let next = acc * 10 + dg;
        if next > 65535 {
            proof {
                assert forall|j: int| 0 <= j < i + 1 - start implies is_digit(
                    #[trigger] d.take(i + 1 - start)[j],
                ) by {}
                if all_digits(d) {
                    lemma_digits_value_mono(d, i + 1 - start);
                    assert(digits_value(d.take(i + 1 - start)) == acc * 10 + dg);
                }
            }
            return None;
        }
        acc = next;
        i = i + 1;
    }
    assert(d.take(hi - start) =~= d);
    Some(acc as u16)
}

/// Decimal digits of `n`, without leading zeros (`"0"` for zero).
pub open spec fn decimal(n: nat) -> Seq<char>
    decreases n,
{
    if n < 10 {
        seq![(48 + n) as char]
    } else {
        decimal(n / 10) + seq![(48 + n % 10) as char]
    }
}

/// The decimal text of `n`, as `Display` writes it.
pub fn decimal_text(n: u64) -> (r: Vec<char>)
    ensures
        r@ == decimal(n as nat),
    decreases n,
{
    if n < 10 {
        let mut r: Vec<char> = Vec::new();
        r.push(((n as u8) + 48) as char);
        assert(r@ =~= decimal(n as nat));
        r
    } else {
        let mut r = decimal_text(n / 10);
        r.push((((n % 10) as u8) + 48) as char);
        assert(r@ =~= decimal(n as nat));
        r
    }
}

/// The decimal text of a number is digits only, and reads back as the number.
pub proof fn lemma_decimal(n: nat)
    ensures
        decimal(n).len() > 0,
        all_digits(decimal(n)),
        digits_value(decimal(n)) == n,
    decreases n,
{
    if n >= 10 {
        lemma_decimal(n / 10);
        let d = decimal(n);
        assert(d.drop_last() =~= decimal(n / 10));
        assert((n / 10) * 10 + n % 10 == n) by (nonlinear_arith);
        let c = (48 + n % 10) as char;
        assert(d.last() == c);
        assert(c as nat == 48 + n % 10);
        assert(digits_value(d) == digits_value(d.drop_last()) * 10 + (c as nat - 48) as nat);
        assert forall|i: int| 0 <= i < d.len() implies is_digit(#[trigger] d[i]) by {
            if i < d.len() - 1 {
                assert(d[i] == decimal(n / 10)[i]);
            }
        }
    } else {
        let d = decimal(n);
        assert(d.drop_last() =~= Seq::<char>::empty());
        let c = (48 + n) as char;
        assert(d.last() == c);
        assert(c as nat == 48 + n);
        assert(digits_value(d) == digits_value(d.drop_last()) * 10 + (c as nat - 48) as nat);
    }
}

/// `u16::from_str` reads back the decimal text of a `u16`.
pub proof fn lemma_parse_decimal(n: u16)
    ensures
        parse_u16(decimal(n as nat)) == Some(n),
{
    lemma_decimal(n as nat);
    let d = decimal(n as nat);
    assert(is_digit(d[0]));
    assert(unsigned_part(d) == d);
}

/// Appends the characters of `w` to `v`.
pub fn concat_chars(v: &mut Vec<char>, w: &[char])
    ensures
        final(v)@ == old(v)@ + w@,
{
    let mut i: usize = 0;
    while i < w.len()
        invariant
            i <= w@.len(),
            v@ == old(v)@ + w@.take(i as int),
        decreases w@.len() - i,
    {
        v.push(w[i]);
        i = i + 1;
        assert(v@ =~= old(v)@ + w@.take(i as int));
    }
    assert(w@.take(w@.len() as int) =~= w@);
}

} // verus!
