//! Character-level model of text: UTF-8 byte offsets, character classes and
//! small string utilities used by the detectors.
use vstd::prelude::*;

verus! {

broadcast use vstd::string::group_string_axioms;

// ---------------------------------------------------------------------------
// UTF-8 widths and byte offsets
// ---------------------------------------------------------------------------

/// Number of bytes in the UTF-8 encoding of `c`.
pub open spec fn utf8_width(c: char) -> nat {
    if (c as u32) < 0x80 {
        1
    } else if (c as u32) < 0x800 {
        2
    } else if (c as u32) < 0x10000 {
        3
    } else {
        4
    }
}

/// Byte offset, in the UTF-8 encoding of `t`, of the character at index `i`.
pub open spec fn byte_offset(t: Seq<char>, i: int) -> nat
    decreases i,
{
    if i <= 0 {
        0
    } else {
        byte_offset(t, i - 1) + utf8_width(t[i - 1])
    }
}

/// Length in bytes of the UTF-8 encoding of `t`.
pub open spec fn byte_len(t: Seq<char>) -> nat {
    byte_offset(t, t.len() as int)
}

/// `b` is the byte offset of some character boundary of `t`.
pub open spec fn is_boundary(t: Seq<char>, b: int) -> bool {
    exists|i: int| 0 <= i <= t.len() && byte_offset(t, i) == b
}

/// The character index whose byte offset is `b` (meaningful when `is_boundary(t, b)`).
pub open spec fn char_index(t: Seq<char>, b: int) -> int {
    choose|i: int| 0 <= i <= t.len() && byte_offset(t, i) == b
}

/// Byte offsets grow strictly with the character index.
pub proof fn lemma_byte_offset_strict(t: Seq<char>, i: int, j: int)
    requires
        0 <= i <= j,
    ensures
        byte_offset(t, i) + (j - i) <= byte_offset(t, j),
    decreases j - i,
{
    if i < j {
        lemma_byte_offset_strict(t, i, j - 1);
    }
}

/// A boundary determines its character index.
pub proof fn lemma_char_index(t: Seq<char>, i: int)
    requires
        0 <= i <= t.len(),
    ensures
        is_boundary(t, byte_offset(t, i) as int),
        char_index(t, byte_offset(t, i) as int) == i,
{
    let b = byte_offset(t, i) as int;
    assert(is_boundary(t, b));
    let k = char_index(t, b);
    if k < i {
        lemma_byte_offset_strict(t, k, i);
    } else if i < k {
        lemma_byte_offset_strict(t, i, k);
    }
}

/// For ASCII text a byte offset is the character index.
pub proof fn lemma_ascii_offsets(t: Seq<char>, i: int)
    requires
        0 <= i <= t.len(),
        forall|k: int| 0 <= k < t.len() ==> (t[k] as u32) < 0x80,
    ensures
        byte_offset(t, i) == i,
    decreases i,
{
    if i > 0 {
        lemma_ascii_offsets(t, i - 1);
    }
}

/// Executable `utf8_width`.
pub fn utf8_width_of(c: char) -> (w: usize)
    ensures
        w == utf8_width(c),
{
    let v = c as u32;
    if v < 0x80 {
        1
    } else if v < 0x800 {
        2
    } else if v < 0x10000 {
        3
    } else {
        4
    }
}

/// Converts a byte offset on a character boundary into a character index.
pub fn char_index_of_byte(t: &Vec<char>, b: usize) -> (i: usize)
    requires
        is_boundary(t@, b as int),
    ensures
        i == char_index(t@, b as int),
        i <= t@.len(),
        byte_offset(t@, i as int) == b,
{
    let ghost k = char_index(t@, b as int);
    let n = t.len();
    let mut i: usize = 0;
    let mut off: usize = 0;
    while off < b
        invariant
            0 <= k <= t@.len(),
            n == t@.len(),
            byte_offset(t@, k) == b,
            i <= k,
            off == byte_offset(t@, i as int),
            off <= b,
        decreases b - off,
    {
        proof {
            assert(i < k);
            lemma_byte_offset_strict(t@, i as int + 1, k);
        }
        let w = utf8_width_of(t[i]);
        off = off + w;
        i = i + 1;
    }
    proof {
        if i < k {
            lemma_byte_offset_strict(t@, i as int + 1, k);
        }
        lemma_char_index(t@, i as int);
    }
    i
}

// ---------------------------------------------------------------------------
// Character classes
// ---------------------------------------------------------------------------

/// `c` is one of `0`..`9`.
pub open spec fn is_ascii_digit(c: char) -> bool {
    '0' <= c <= '9'
}

/// `c` is one of `A`..`Z`.
pub open spec fn is_ascii_upper(c: char) -> bool {
    'A' <= c <= 'Z'
}

/// `c` is one of `a`..`z`.
pub open spec fn is_ascii_lower(c: char) -> bool {
    'a' <= c <= 'z'
}

/// `c` is an ASCII letter.
pub open spec fn is_ascii_alpha(c: char) -> bool {
    is_ascii_upper(c) || is_ascii_lower(c)
}

/// `c` is an ASCII letter or digit.
pub open spec fn is_ascii_alnum(c: char) -> bool {
    is_ascii_alpha(c) || is_ascii_digit(c)
}

/// `c` has the Unicode `White_Space` property (what `char::is_whitespace` tests).
pub open spec fn is_white_space(c: char) -> bool {
    let v = c as u32;
    ||| 0x09 <= v <= 0x0d
    ||| v == 0x20
    ||| v == 0x85
    ||| v == 0xa0
    ||| v == 0x1680
    ||| 0x2000 <= v <= 0x200a
    ||| v == 0x2028
    ||| v == 0x2029
    ||| v == 0x202f
    ||| v == 0x205f
    ||| v == 0x3000
}

/// ASCII lower-casing of one character; other characters are unchanged.
pub open spec fn ascii_lower(c: char) -> char {
    if is_ascii_upper(c) {
        ((c as u32) + 32) as char
    } else {
        c
    }
}

/// ASCII upper-casing of one character; other characters are unchanged.
pub open spec fn ascii_upper(c: char) -> char {
    if is_ascii_lower(c) {
        ((c as u32) - 32) as char
    } else {
        c
    }
}

/// Executable `is_ascii_digit`.
pub fn ascii_digit(c: char) -> (r: bool)
    ensures
        r == is_ascii_digit(c),
{
    '0' <= c && c <= '9'
}

/// Executable `is_ascii_alpha`.
pub fn ascii_alpha(c: char) -> (r: bool)
    ensures
        r == is_ascii_alpha(c),
{
    ('A' <= c && c <= 'Z') || ('a' <= c && c <= 'z')
}

/// Executable `is_ascii_alnum`.
pub fn ascii_alnum(c: char) -> (r: bool)
    ensures
        r == is_ascii_alnum(c),
{
    ascii_alpha(c) || ascii_digit(c)
}

/// Executable `is_white_space`.
pub fn white_space(c: char) -> (r: bool)
    ensures
        r == is_white_space(c),
{
    let v = c as u32;
    (0x09 <= v && v <= 0x0d) || v == 0x20 || v == 0x85 || v == 0xa0 || v == 0x1680 || (0x2000 <= v
        && v <= 0x200a) || v == 0x2028 || v == 0x2029 || v == 0x202f || v == 0x205f || v == 0x3000
}

/// Executable `ascii_lower`.
pub fn to_ascii_lower(c: char) -> (r: char)
    ensures
        r == ascii_lower(c),
{
    if 'A' <= c && c <= 'Z' {
        let b = (c as u8) + 32;
        b as char
    } else {
        c
    }
}

/// Executable `ascii_upper`.
pub fn to_ascii_upper(c: char) -> (r: char)
    ensures
        r == ascii_upper(c),
{
    if 'a' <= c && c <= 'z' {
        let b = (c as u8) - 32;
        b as char
    } else {
        c
    }
}

/// Whether `char::is_alphanumeric` holds of `c` (Unicode `Alphabetic` or `Numeric`).
pub uninterp spec fn unicode_alphanumeric(c: char) -> bool;

/// Calls `char::is_alphanumeric`. Its result is named `unicode_alphanumeric`;
/// the Unicode tables behind it are not restated here.
#[verifier::external_body]
pub fn is_alphanumeric(c: char) -> (r: bool)
    ensures
        r == unicode_alphanumeric(c),
{
    c.is_alphanumeric()
}

// ---------------------------------------------------------------------------
// Strings
// ---------------------------------------------------------------------------

/// Copies the characters of `s` into a vector.
pub fn to_chars(s: &str) -> (v: Vec<char>)
    ensures
        v@ == s@,
{
    let mut v: Vec<char> = Vec::new();
    for c in it: s.chars()
        invariant
            it.seq() == s@,
            v@ == it.seq().take(it.index()),
    {
        v.push(c);
    }
    v
}

/// Collects characters into a `String` (`FromIterator<&char>` for `String`).
#[verifier::external_body]
pub fn string_from_chars(v: &[char]) -> (s: String)
    ensures
        s@ == v@,
{
    v.iter().collect()
}

/// The characters `t[from..to]` as a `String`.
pub fn substring(t: &Vec<char>, from: usize, to: usize) -> (s: String)
    requires
        from <= to <= t@.len(),
    ensures
        s@ == t@.subrange(from as int, to as int),
{
    let mut v: Vec<char> = Vec::new();
    let mut i = from;
    while i < to
        invariant
            from <= i <= to <= t@.len(),
            v@ == t@.subrange(from as int, i as int),
        decreases to - i,
    {
        v.push(t[i]);
        i = i + 1;
    }
    string_from_chars(v.as_slice())
}

/// Index of the first character at or after `i` that is not white space.
pub open spec fn trim_start_index(s: Seq<char>, i: int) -> int
    decreases s.len() - i,
{
    if 0 <= i < s.len() && is_white_space(s[i]) {
        trim_start_index(s, i + 1)
    } else {
        i
    }
}

/// One past the last character in `s[lo..j]` that is not white space (`lo` if none).
pub open spec fn trim_end_index(s: Seq<char>, lo: int, j: int) -> int
    decreases j - lo,
{
    if lo < j && is_white_space(s[j - 1]) {
        trim_end_index(s, lo, j - 1)
    } else {
        j
    }
}

/// `s` without leading and trailing white space (what `str::trim` returns).
pub open spec fn trim(s: Seq<char>) -> Seq<char> {
    let a = trim_start_index(s, 0);
    s.subrange(a, trim_end_index(s, a, s.len() as int))
}

/// ASCII lower-casing of every character (what `str::to_ascii_lowercase` returns).
pub open spec fn lower(s: Seq<char>) -> Seq<char> {
    s.map_values(|c: char| ascii_lower(c))
}

/// ASCII upper-casing of every character (what `str::to_ascii_uppercase` returns).
pub open spec fn upper(s: Seq<char>) -> Seq<char> {
    s.map_values(|c: char| ascii_upper(c))
}

/// ASCII lower-casing moves exactly the letters `A` to `Z` up by 32, onto `a` to
/// `z`, and leaves every other character as it is.
pub proof fn law_ascii_lower(c: char)
    ensures
        'A' <= c <= 'Z' ==> ascii_lower(c) as u32 == (c as u32) + 32 && 'a' <= ascii_lower(c) <= 'z',
        !('A' <= c <= 'Z') ==> ascii_lower(c) == c,
        !('A' <= ascii_lower(c) <= 'Z'),
{
}

/// Lower-casing a string keeps its length, changes each character as
/// `law_ascii_lower` says, and leaves no ASCII upper-case letter.
pub proof fn law_lower_has_no_ascii_upper_case(s: Seq<char>)
    ensures
        lower(s).len() == s.len(),
        forall|i: int|
            0 <= i < s.len() ==> !('A' <= #[trigger] lower(s)[i] <= 'Z') && ('A' <= s[i] <= 'Z'
                ==> lower(s)[i] as u32 == (s[i] as u32) + 32) && (!('A' <= s[i] <= 'Z') ==> lower(
                s,
            )[i] == s[i]),
{
    assert forall|i: int| 0 <= i < s.len() implies !('A' <= #[trigger] lower(s)[i] <= 'Z') && ('A'
        <= s[i] <= 'Z' ==> lower(s)[i] as u32 == (s[i] as u32) + 32) && (!('A' <= s[i] <= 'Z')
        ==> lower(s)[i] == s[i]) by {
        law_ascii_lower(s[i]);
    }
}

/// ASCII upper-casing moves exactly the letters `a` to `z` down by 32, onto `A`
/// to `Z`, and leaves every other character as it is.
pub proof fn law_ascii_upper(c: char)
    ensures
        'a' <= c <= 'z' ==> ascii_upper(c) as u32 == (c as u32) - 32 && 'A' <= ascii_upper(c) <= 'Z',
        !('a' <= c <= 'z') ==> ascii_upper(c) == c,
        !('a' <= ascii_upper(c) <= 'z'),
{
}

/// Upper-casing a string keeps its length, changes each character as
/// `law_ascii_upper` says, and leaves no ASCII lower-case letter.
pub proof fn law_upper_has_no_ascii_lower_case(s: Seq<char>)
    ensures
        upper(s).len() == s.len(),
        forall|i: int|
            0 <= i < s.len() ==> !('a' <= #[trigger] upper(s)[i] <= 'z') && ('a' <= s[i] <= 'z'
                ==> upper(s)[i] as u32 == (s[i] as u32) - 32) && (!('a' <= s[i] <= 'z') ==> upper(
                s,
            )[i] == s[i]),
{
    assert forall|i: int| 0 <= i < s.len() implies !('a' <= #[trigger] upper(s)[i] <= 'z') && ('a'
        <= s[i] <= 'z' ==> upper(s)[i] as u32 == (s[i] as u32) - 32) && (!('a' <= s[i] <= 'z')
        ==> upper(s)[i] == s[i]) by {
        law_ascii_upper(s[i]);
    }
}

/// Executable `trim` on a character vector.
pub fn trim_chars(v: &Vec<char>) -> (r: Vec<char>)
    ensures
        r@ == trim(v@),
{
    let n = v.len();
    let mut a: usize = 0;
    while a < n && white_space(v[a])
        invariant
            n == v@.len(),
            a <= n,
            trim_start_index(v@, 0) == trim_start_index(v@, a as int),
        decreases n - a,
    {
        a = a + 1;
    }
    let mut b: usize = n;
    while b > a && white_space(v[b - 1])
        invariant
            n == v@.len(),
            a <= b <= n,
            trim_start_index(v@, 0) == a,
            trim_end_index(v@, a as int, n as int) == trim_end_index(v@, a as int, b as int),
        decreases b - a,
    {
        b = b - 1;
    }
    let mut r: Vec<char> = Vec::new();
    let mut i = a;
    while i < b
        invariant
            a <= i <= b <= n,
            n == v@.len(),
            r@ == v@.subrange(a as int, i as int),
        decreases b - i,
    {
        r.push(v[i]);
        i = i + 1;
    }
    r
}

/// Executable `lower` on a character vector.
pub fn lower_chars(v: &Vec<char>) -> (r: Vec<char>)
    ensures
        r@ == lower(v@),
{
    let mut r: Vec<char> = Vec::new();
    let mut i: usize = 0;
    while i < v.len()
        invariant
            i <= v@.len(),
            r@ == lower(v@.take(i as int)),
        decreases v.len() - i,
    {
        r.push(to_ascii_lower(v[i]));
        i = i + 1;
        assert(lower(v@.take(i as int)) =~= lower(v@.take(i - 1)).push(ascii_lower(v@[i - 1])));
    }
    assert(v@.take(v@.len() as int) =~= v@);
    r
}

/// Executable `upper` on a character vector.
pub fn upper_chars(v: &Vec<char>) -> (r: Vec<char>)
    ensures
        r@ == upper(v@),
{
    let mut r: Vec<char> = Vec::new();
    let mut i: usize = 0;
    while i < v.len()
        invariant
            i <= v@.len(),
            r@ == upper(v@.take(i as int)),
        decreases v.len() - i,
    {
        r.push(to_ascii_upper(v[i]));
        i = i + 1;
        assert(upper(v@.take(i as int)) =~= upper(v@.take(i - 1)).push(ascii_upper(v@[i - 1])));
    }
    assert(v@.take(v@.len() as int) =~= v@);
    r
}

/// `s` with every occurrence of `pat` replaced by `rep`, scanning left to right
/// without overlaps (what `str::replace` returns for a non-empty pattern).
pub open spec fn replace_all(s: Seq<char>, pat: Seq<char>, rep: Seq<char>) -> Seq<char>
    decreases s.len(),
{
    if pat.len() == 0 || s.len() < pat.len() {
        s
    } else if s.take(pat.len() as int) == pat {
        rep + replace_all(s.skip(pat.len() as int), pat, rep)
    } else {
        seq![s[0]] + replace_all(s.drop_first(), pat, rep)
    }
}

/// A text without `{` is left as it is when replacing a pattern that starts
/// with `{`.
pub proof fn lemma_replace_all_without_brace(s: Seq<char>, pat: Seq<char>, rep: Seq<char>)
    requires
        pat.len() > 0,
        pat[0] == '{',
        forall|i: int| 0 <= i < s.len() ==> s[i] != '{',
    ensures
        replace_all(s, pat, rep) == s,
    decreases s.len(),
{
    if s.len() >= pat.len() {
        assert(s.take(pat.len() as int)[0] == s[0]);
        lemma_replace_all_without_brace(s.drop_first(), pat, rep);
        assert(seq![s[0]] + s.drop_first() =~= s);
    }
}

/// A first character at which the pattern does not start is kept as it is.
pub proof fn lemma_replace_all_skips(s: Seq<char>, pat: Seq<char>, rep: Seq<char>, k: int)
    requires
        pat.len() > 0,
        s.len() >= pat.len(),
        0 <= k < pat.len(),
        s[k] != pat[k],
    ensures
        replace_all(s, pat, rep) == seq![s[0]] + replace_all(s.drop_first(), pat, rep),
{
    assert(s.take(pat.len() as int)[k] != pat[k]);
}

/// Whether `pat` occurs in `s` at index `i`.
fn occurs_at(s: &Vec<char>, i: usize, pat: &Vec<char>) -> (r: bool)
    requires
        i + pat@.len() <= s@.len(),
    ensures
        r == (s@.skip(i as int).take(pat@.len() as int) == pat@),
{
    let m = pat.len();
    let n = s.len();
    let mut j: usize = 0;
    while j < m
        invariant
            m == pat@.len(),
            n == s@.len(),
            i + m <= s@.len(),
            j <= m,
            forall|k: int| 0 <= k < j ==> s@[i + k] == pat@[k],
        decreases m - j,
    {
        if s[i + j] != pat[j] {
            assert(s@.skip(i as int).take(m as int)[j as int] != pat@[j as int]);
            return false;
        }
        j = j + 1;
    }
    assert(s@.skip(i as int).take(m as int) =~= pat@);
    true
}

/// Executable `replace_all` for a non-empty pattern.
pub fn replace_chars(s: &Vec<char>, pat: &Vec<char>, rep: &Vec<char>) -> (r: Vec<char>)
    requires
        pat@.len() > 0,
    ensures
        r@ == replace_all(s@, pat@, rep@),
{
    let n = s.len();
    let m = pat.len();
    let mut out: Vec<char> = Vec::new();
    let mut i: usize = 0;
    assert(s@.skip(0) =~= s@);
    while i < n
        invariant
            n == s@.len(),
            m == pat@.len(),
            m > 0,
            i <= n,
            replace_all(s@, pat@, rep@) == out@ + replace_all(s@.skip(i as int), pat@, rep@),
        decreases n - i,
    {
        let ghost rest = s@.skip(i as int);
        if n - i < m {
            assert(replace_all(rest, pat@, rep@) == rest);
            let mut k = i;
            while k < n
                invariant
                    i <= k <= n,
                    n == s@.len(),
                    rest == s@.skip(i as int),
                    replace_all(s@, pat@, rep@) == out@ + s@.subrange(k as int, n as int),
                decreases n - k,
            {
                assert(s@.subrange(k as int, n as int) =~= seq![s@[k as int]] + s@.subrange(
                    k + 1,
                    n as int,
                ));
                out.push(s[k]);
                k = k + 1;
            }
            assert(s@.subrange(n as int, n as int) =~= Seq::<char>::empty());
            assert(out@ =~= out@ + Seq::<char>::empty());
            return out;
        }
        if occurs_at(s, i, pat) {
            let ghost before = out@;
            let mut k: usize = 0;
            while k < rep.len()
                invariant
                    k <= rep@.len(),
                    out@ == before + rep@.take(k as int),
                decreases rep.len() - k,
            {
                out.push(rep[k]);
                k = k + 1;
                assert(rep@.take(k as int) =~= rep@.take(k - 1).push(rep@[k - 1]));
            }
            assert(rep@.take(rep@.len() as int) =~= rep@);
            assert(rest.skip(m as int) =~= s@.skip(i + m));
            assert(before + (rep@ + replace_all(s@.skip(i + m), pat@, rep@)) =~= out@ + replace_all(
                s@.skip(i + m),
                pat@,
                rep@,
            ));
            i = i + m;
        } else {
            let ghost before = out@;
            out.push(s[i]);
            assert(rest.drop_first() =~= s@.skip(i + 1));
            assert(before + (seq![s@[i as int]] + replace_all(s@.skip(i + 1), pat@, rep@))
                =~= out@ + replace_all(s@.skip(i + 1), pat@, rep@));
            i = i + 1;
        }
    }
    assert(s@.skip(n as int) =~= Seq::<char>::empty());
    assert(out@ + Seq::<char>::empty() =~= out@);
    out
}

/// Appends `src[from..to]` to `out`.
pub fn push_range(out: &mut Vec<char>, src: &Vec<char>, from: usize, to: usize)
    requires
        from <= to <= src@.len(),
    ensures
        final(out)@ == old(out)@ + src@.subrange(from as int, to as int),
{
    let ghost start = out@;
    let mut i = from;
    while i < to
        invariant
            from <= i <= to <= src@.len(),
            out@ == start + src@.subrange(from as int, i as int),
        decreases to - i,
    {
        out.push(src[i]);
        i = i + 1;
        assert(src@.subrange(from as int, i as int) =~= src@.subrange(from as int, i - 1).push(
            src@[i - 1],
        ));
    }
}

/// `n` copies of `c`.
pub fn repeat_char(c: char, n: usize) -> (r: Vec<char>)
    ensures
        r@ == Seq::new(n as nat, |i: int| c),
{
    let mut r: Vec<char> = Vec::new();
    let mut i: usize = 0;
    while i < n
        invariant
            i <= n,
            r@ == Seq::new(i as nat, |k: int| c),
        decreases n - i,
    {
        r.push(c);
        i = i + 1;
        assert(r@ =~= Seq::new(i as nat, |k: int| c));
    }
    r
}

/// The ASCII digits of `s`, in order.
pub open spec fn ascii_digits(s: Seq<char>) -> Seq<char> {
    s.filter(|c: char| is_ascii_digit(c))
}

/// The digits of a text are found character by character: one character gives
/// itself when it is one of `0` to `9` and nothing otherwise, and the digits of
/// two texts put together are the digits of the first followed by those of the
/// second.
pub proof fn law_ascii_digits(a: Seq<char>, b: Seq<char>, c: char)
    ensures
        ascii_digits(seq![c]) == if '0' <= c <= '9' {
            seq![c]
        } else {
            Seq::<char>::empty()
        },
        ascii_digits(a + b) == ascii_digits(a) + ascii_digits(b),
{
    let f = |c: char| is_ascii_digit(c);
    Seq::<char>::empty().lemma_filter_push(c, f);
    assert(seq![c] =~= Seq::<char>::empty().push(c));
    assert(Seq::<char>::empty().filter(f) =~= Seq::<char>::empty());
    assert(Seq::<char>::empty().push(c) =~= seq![c]);
    Seq::filter_distributes_over_add(a, b, f);
}

/// Executable `ascii_digits`.
pub fn ascii_digit_chars(v: &Vec<char>) -> (r: Vec<char>)
    ensures
        r@ == ascii_digits(v@),
{
    let mut r: Vec<char> = Vec::new();
    let mut i: usize = 0;
    while i < v.len()
        invariant
            i <= v@.len(),
            r@ == ascii_digits(v@.take(i as int)),
        decreases v.len() - i,
    {
        proof {
            assert(v@.take(i + 1) =~= v@.take(i as int).push(v@[i as int]));
            v@.take(i as int).lemma_filter_push(v@[i as int], |c: char| is_ascii_digit(c));
        }
        if ascii_digit(v[i]) {
            r.push(v[i]);
        }
        i = i + 1;
    }
    assert(v@.take(v@.len() as int) =~= v@);
    r
}

/// Character-wise equality of two strings.
pub fn str_eq(a: &str, b: &str) -> (r: bool)
    ensures
        r == (a@ == b@),
{
    let x = to_chars(a);
    let y = to_chars(b);
    if x.len() != y.len() {
        return false;
    }
    let mut i: usize = 0;
    while i < x.len()
        invariant
            x@ == a@,
            y@ == b@,
            x@.len() == y@.len(),
            i <= x@.len(),
            forall|k: int| 0 <= k < i ==> x@[k] == y@[k],
        decreases x.len() - i,
    {
        if x[i] != y[i] {
            return false;
        }
        i = i + 1;
    }
    assert(x@ =~= y@);
    true
}

} // verus!
