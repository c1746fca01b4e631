//! Character-level text helpers used by the parsers and validators.
use vstd::prelude::*;

verus! {

broadcast use vstd::string::group_string_axioms;

/// Unicode `White_Space` characters, exactly those `char::is_whitespace` accepts.
pub open spec fn is_white_space(c: char) -> bool {
    let v = c as u32;
    ||| 0x09 <= v <= 0x0d
    ||| v == 0x20
    ||| v == 0x85
    ||| v == 0xa0
    ||| v == 0x1680
    ||| 0x2000 <= v <= 0x200a
    ||| v == 0x2028
    ||| v == 0x2029
    ||| v == 0x202f
    ||| v == 0x205f
    ||| v == 0x3000
}

/// Whether `c` is Unicode white space.
pub fn is_white_space_char(c: char) -> (r: bool)
    ensures
        r == is_white_space(c),
{
    let v = c as u32;
    (0x09 <= v && v <= 0x0d) || v == 0x20 || v == 0x85 || v == 0xa0 || v == 0x1680 || (0x2000 <= v
        && v <= 0x200a) || v == 0x2028 || v == 0x2029 || v == 0x202f || v == 0x205f || v == 0x3000
}

/// The characters of `s`, in order.
pub fn chars_of(s: &str) -> (r: Vec<char>)
    ensures
        r@ == s@,
{
    let mut out: Vec<char> = Vec::new();
    for c in it: s.chars()
        invariant
            it.seq() == s@,
            out@ == s@.take(out@.len() as int),
            out@.len() == it.index(),
    {
        out.push(c);
        assert(s@.take(out@.len() as int) =~= s@.take(out@.len() - 1).push(c));
    }
    assert(out@.len() == s@.len());
    assert(s@.take(out@.len() as int) =~= s@);
    out
}

/// Every character of `s` is white space (so `s.trim()` is empty).
pub open spec fn all_white_space(s: Seq<char>) -> bool {
    forall|i: int| 0 <= i < s.len() ==> is_white_space(#[trigger] s[i])
}

/// Whether `s` is empty or only white space.
pub fn is_blank(s: &str) -> (r: bool)
    ensures
        r == all_white_space(s@),
{
    let chars = chars_of(s);
    let mut i: usize = 0;
    while i < chars.len()
        invariant
            i <= chars@.len(),
            chars@ == s@,
            forall|j: int| 0 <= j < i ==> is_white_space(#[trigger] s@[j]),
        decreases chars@.len() - i,
    {
        if !is_white_space_char(chars[i]) {
            return false;
        }
        i += 1;
    }
    true
}


/// Whether two strings hold the same characters.
pub fn same_text(a: &str, b: &str) -> (r: bool)
    ensures
        r == (a@ == b@),
{
    let x = chars_of(a);
    let y = chars_of(b);
    if x.len() != y.len() {
        return false;
    }
    let mut i: usize = 0;
    while i < x.len()
        invariant
            i <= x@.len(),
            x@ == a@,
            y@ == b@,
            x@.len() == y@.len(),
            forall|j: int| 0 <= j < i ==> a@[j] == b@[j],
        decreases x@.len() - i,
    {
        if x[i] != y[i] {
            return false;
        }
        i += 1;
    }
    assert(a@ =~= b@);
    true
}

/// `c` with an ASCII lower-case letter mapped to upper case; every other character unchanged.
pub open spec fn ascii_upper(c: char) -> char {
    if 'a' <= c <= 'z' {
        ((c as u32) - 32) as char
    } else {
        c
    }
}

/// `needle` occurs in `hay` at `i`, comparing `hay` after ASCII upper-casing.
pub open spec fn upper_matches_at(hay: Seq<char>, needle: Seq<char>, i: int) -> bool {
    &&& 0 <= i
    &&& i + needle.len() <= hay.len()
    &&& forall|j: int| 0 <= j < needle.len() ==> ascii_upper(#[trigger] hay[i + j]) == needle[j]
}

/// `needle` occurs in the ASCII upper-cased `hay`.
pub open spec fn upper_contains(hay: Seq<char>, needle: Seq<char>) -> bool {
    exists|i: int| upper_matches_at(hay, needle, i)
}

/// Whether `c`, ASCII upper-cased, is `d`.
fn upper_is(c: char, d: char) -> (r: bool)
    ensures
        r == (ascii_upper(c) == d),
{
    if 'a' <= c && c <= 'z' {
        (c as u32) - 32 == d as u32
    } else {
        c == d
    }
}

/// Whether `needle` occurs in `hay` once `hay` is ASCII upper-cased.
pub fn upper_contains_text(hay: &str, needle: &str) -> (r: bool)
    ensures
        r == upper_contains(hay@, needle@),
{
    let h = chars_of(hay);
    let n = chars_of(needle);
    if n.len() > h.len() {
        proof {
            assert forall|i: int| !upper_matches_at(hay@, needle@, i) by {}
        }
        return false;
    }
    if n.len() == 0 {
        assert(upper_matches_at(hay@, needle@, 0));
        return true;
    }
    let hl = h.len();
    let nl = n.len();
    let mut i: usize = 0;
    while i <= hl - nl
        invariant
            i <= hl - nl + 1,
            h@ == hay@,
            n@ == needle@,
            hl == h@.len(),
            nl == n@.len(),
            1 <= nl <= hl,
            forall|k: int| 0 <= k < i ==> !upper_matches_at(hay@, needle@, k),
        decreases hl - i,
    {
        let mut j: usize = 0;
        let mut ok = true;
        while j < nl
            invariant
                h@ == hay@,
                n@ == needle@,
                hl == h@.len(),
                nl == n@.len(),
                i + nl <= hl,
                j <= nl,
                ok == (forall|m: int| 0 <= m < j ==> ascii_upper(#[trigger] hay@[i + m]) == needle@[m]),
            decreases nl - j,
        {
            if !upper_is(h[i + j], n[j]) {
                ok = false;
            }
            j += 1;
        }
        if ok {
            assert(upper_matches_at(hay@, needle@, i as int));
            return true;
        }
        i += 1;
    }
    proof {
        assert forall|k: int| !upper_matches_at(hay@, needle@, k) by {
            if 0 <= k && k + needle@.len() <= hay@.len() {
                assert(k < i);
            }
        }
    }
    false
}


/// A decimal digit character.
pub open spec fn is_digit(c: char) -> bool {
    '0' <= c <= '9'
}

/// Every character of `s` is a decimal digit.
pub open spec fn all_digits(s: Seq<char>) -> bool {
    forall|i: int| 0 <= i < s.len() ==> is_digit(#[trigger] s[i])
}

/// The number that the digits of `s` spell, most significant first.
pub open spec fn digits_value(s: Seq<char>) -> nat
    decreases s.len(),
{
    if s.len() == 0 {
        0
    } else {
        digits_value(s.drop_last()) * 10 + ((s.last() as u32) - ('0' as u32)) as nat
    }
}

/// What `from_str` of an unsigned integer type whose largest value is `max` returns: one
/// optional leading `+`, then at least one decimal digit, with a value of at most `max`.
pub open spec fn parse_decimal(s: Seq<char>, max: nat) -> Option<nat> {
    let body = if s.len() > 0 && s[0] == '+' {
        s.drop_first()
    } else {
        s
    };
    if body.len() > 0 && all_digits(body) && digits_value(body) <= max {
        Some(digits_value(body))
    } else {
        None
    }
}

/// What `u32::from_str` returns.
pub open spec fn parse_u32_spec(s: Seq<char>) -> Option<u32> {
    match parse_decimal(s, u32::MAX as nat) {
        Some(v) => Some(v as u32),
        None => None,
    }
}

/// What `u64::from_str` returns.
pub open spec fn parse_u64_spec(s: Seq<char>) -> Option<u64> {
    match parse_decimal(s, u64::MAX as nat) {
        Some(v) => Some(v as u64),
        None => None,
    }
}

proof fn lemma_digits_value_monotone(s: Seq<char>, k: int)
    requires
        0 <= k <= s.len(),
        all_digits(s),
    ensures
        digits_value(s.take(k)) <= digits_value(s),
    decreases s.len() - k,
{
    if k < s.len() {
        lemma_digits_value_monotone(s, k + 1);
        assert(s.take(k + 1).drop_last() =~= s.take(k));
        assert(is_digit(s[k]));
    } else {
        assert(s.take(k) =~= s);
    }
}

/// Parse `s[from..to]` as an unsigned decimal of at most `max`, as `from_str` does.
pub fn parse_decimal_chars(s: &Vec<char>, from: usize, to: usize, max: u64) -> (r: Option<u64>)
    requires
        from <= to <= s@.len(),
    ensures
        match parse_decimal(s@.subrange(from as int, to as int), max as nat) {
            Some(v) => r == Some(v as u64),
            None => r is None,
        },
{
    let ghost whole = s@.subrange(from as int, to as int);
    let mut start = from;
    if from < to && s[from] == '+' {
        start = from + 1;
    }
    let ghost body = s@.subrange(start as int, to as int);
    assert(body =~= (if whole.len() > 0 && whole[0] == '+' {
        whole.drop_first()
    } else {
        whole
    }));
    if start == to {
        return None;
    }
    let mut value: u64 = 0;
    let mut i: usize = start;
    while i < to
        invariant
            start <= i <= to <= s@.len(),
            body == s@.subrange(start as int, to as int),
            whole == s@.subrange(from as int, to as int),
            body == (if whole.len() > 0 && whole[0] == '+' {
                whole.drop_first()
            } else {
                whole
            }),
            all_digits(body.take(i - start)),
            value == digits_value(body.take(i - start)),
            value <= max,
        decreases to - i,
    {
        let c = s[i];
        assert(body.take(i + 1 - start).drop_last() =~= body.take(i - start));
        if !('0' <= c && c <= '9') {
            proof {
                assert(body[i - start] == c);
                assert(!all_digits(body));
            }
            return None;
        }
        let d = (c as u32 - '0' as u32) as u64;
        if d > max || value > (max - d) / 10 {
            proof {
                assert(value * 10 + d > max) by (nonlinear_arith)
                    requires
                        d > max || value > (max - d) / 10,
                        d <= max ==> (max - d) / 10 * 10 <= max - d,
                ;
                assert(all_digits(body.take(i + 1 - start)));
                if all_digits(body) {
                    lemma_digits_value_monotone(body, i + 1 - start);
                }
            }
            return None;
        }
        assert(value * 10 + d <= max) by (nonlinear_arith)
            requires
                value <= (max - d) / 10,
                d <= max,
        ;
        value = value * 10 + d;
        i += 1;
    }
    assert(body.take(i - start) =~= body);
    Some(value)
}

/// Parse `s[from..to]` as `u32::from_str` does.
pub fn parse_u32_chars(s: &Vec<char>, from: usize, to: usize) -> (r: Option<u32>)
    requires
        from <= to <= s@.len(),
    ensures
        r == parse_u32_spec(s@.subrange(from as int, to as int)),
{
    match parse_decimal_chars(s, from, to, 0xffff_ffff) {
        Some(v) => Some(v as u32),
        None => None,
    }
}

/// Parse `s[from..to]` as `u64::from_str` does.
pub fn parse_u64_chars(s: &Vec<char>, from: usize, to: usize) -> (r: Option<u64>)
    requires
        from <= to <= s@.len(),
    ensures
        r == parse_u64_spec(s@.subrange(from as int, to as int)),
{
    parse_decimal_chars(s, from, to, 0xffff_ffff_ffff_ffff)
}

/// Character classes that the parsers split on.
pub enum CharClass {
    /// `.`
    Dot,
    /// `,`, space, line feed or carriage return.
    ReleaseEnd,
    /// `,` or Unicode white space.
    TokenEnd,
    /// Unicode white space.
    Space,
    /// `-`
    Dash,
    /// `,`
    Comma,
    /// `:`
    Colon,
    /// Line feed.
    Newline,
    /// `/`
    Slash,
}

/// `c` belongs to class `k`.
pub open spec fn in_class(k: CharClass, c: char) -> bool {
    match k {
        CharClass::Dot => c == '.',
        CharClass::ReleaseEnd => c == ',' || c == ' ' || c == '\n' || c == '\r',
        CharClass::TokenEnd => c == ',' || is_white_space(c),
        CharClass::Space => is_white_space(c),
        CharClass::Dash => c == '-',
        CharClass::Comma => c == ',',
        CharClass::Colon => c == ':',
        CharClass::Newline => c == '\n',
        CharClass::Slash => c == '/',
    }
}

/// Whether `c` belongs to class `k`.
pub fn in_class_exec(k: &CharClass, c: char) -> (r: bool)
    ensures
        r == in_class(*k, c),
{
    match k {
        CharClass::Dot => c == '.',
        CharClass::ReleaseEnd => c == ',' || c == ' ' || c == '\n' || c == '\r',
        CharClass::TokenEnd => c == ',' || is_white_space_char(c),
        CharClass::Space => is_white_space_char(c),
        CharClass::Dash => c == '-',
        CharClass::Comma => c == ',',
        CharClass::Colon => c == ':',
        CharClass::Newline => c == '\n',
        CharClass::Slash => c == '/',
    }
}

/// Index of the first character of class `k` at or after `from`, or `s.len()` when none.
pub open spec fn scan(s: Seq<char>, from: int, k: CharClass) -> int
    decreases s.len() - from,
{
    if from >= s.len() {
        s.len() as int
    } else if in_class(k, s[from]) {
        from
    } else {
        scan(s, from + 1, k)
    }
}

/// `scan` returns an index in `[from, len]` before which no character is in the class.
pub proof fn lemma_scan(s: Seq<char>, from: int, k: CharClass)
    requires
        0 <= from <= s.len(),
    ensures
        from <= scan(s, from, k) <= s.len(),
        scan(s, from, k) < s.len() ==> in_class(k, s[scan(s, from, k)]),
        forall|j: int| from <= j < scan(s, from, k) ==> !in_class(k, #[trigger] s[j]),
    decreases s.len() - from,
{
    if from < s.len() && !in_class(k, s[from]) {
        lemma_scan(s, from + 1, k);
    }
}

/// Index of the first character of class `k` in `s[from..to]`, or `to` when none.
pub fn scan_exec(s: &Vec<char>, from: usize, to: usize, k: CharClass) -> (r: usize)
    requires
        from <= to <= s@.len(),
    ensures
        r == from + scan(s@.subrange(from as int, to as int), 0, k),
        from <= r <= to,
{
    let ghost sub = s@.subrange(from as int, to as int);
    let mut i = from;
    while i < to
        invariant
            from <= i <= to <= s@.len(),
            sub == s@.subrange(from as int, to as int),
            scan(sub, 0, k) == scan(sub, i - from, k),
        decreases to - i,
    {
        if in_class_exec(&k, s[i]) {
            return i;
        }
        i += 1;
    }
    i
}

/// Index of the first occurrence of `pat` in `s` at or after `from`, or `s.len()` when none.
pub open spec fn find_from(s: Seq<char>, pat: Seq<char>, from: int) -> int
    decreases s.len() + 1 - from,
{
    if from < 0 || from + pat.len() > s.len() {
        s.len() as int
    } else if s.subrange(from, from + pat.len()) == pat {
        from
    } else {
        find_from(s, pat, from + 1)
    }
}

/// A found occurrence lies inside `s`.
pub proof fn lemma_find_from(s: Seq<char>, pat: Seq<char>, from: int)
    requires
        0 <= from,
    ensures
        find_from(s, pat, from) == s.len() || (from <= find_from(s, pat, from) && find_from(s, pat, from)
            + pat.len() <= s.len()),
    decreases s.len() + 1 - from,
{
    if from + pat.len() <= s.len() && s.subrange(from, from + pat.len()) != pat {
        lemma_find_from(s, pat, from + 1);
    }
}

/// Index of the first occurrence of `pat` in `s` at or after `from`, or `s.len()` when none.
pub fn find_from_exec(s: &Vec<char>, pat: &Vec<char>, from: usize) -> (r: usize)
    requires
        from <= s@.len(),
    ensures
        r == find_from(s@, pat@, from as int),
{
    let n = s.len();
    let m = pat.len();
    let mut i = from;
    while i <= n && m <= n - i
        invariant
            from <= i,
            n == s@.len(),
            m == pat@.len(),
            find_from(s@, pat@, from as int) == find_from(s@, pat@, i as int),
        decreases n + 1 - i,
    {
        let mut j: usize = 0;
        let mut same = true;
        while j < m
            invariant
                n == s@.len(),
                m == pat@.len(),
                i + m <= n,
                j <= m,
                same == (forall|t: int| 0 <= t < j ==> s@[i + t] == pat@[t]),
            decreases m - j,
        {
            if s[i + j] != pat[j] {
                same = false;
            }
            j += 1;
        }
        if same {
            assert(s@.subrange(i as int, i + m) =~= pat@);
            return i;
        }
        assert(s@.subrange(i as int, i + m) != pat@) by {
            let t = choose|t: int| 0 <= t < m && s@[i + t] != pat@[t];
            assert(s@.subrange(i as int, i + m)[t] == s@[i + t]);
        }
        i += 1;
    }
    n
}


/// Scanning `a` from `off + j` is scanning its suffix `a[off..]` from `j`, shifted by `off`.
pub proof fn lemma_scan_suffix(a: Seq<char>, off: int, j: int, k: CharClass)
    requires
        0 <= off <= a.len(),
        0 <= j <= a.len() - off,
    ensures
        scan(a, off + j, k) == off + scan(a.subrange(off, a.len() as int), j, k),
    decreases a.len() - off - j,
{
    let b = a.subrange(off, a.len() as int);
    if j < b.len() {
        assert(a[off + j] == b[j]);
        if !in_class(k, b[j]) {
            lemma_scan_suffix(a, off, j + 1, k);
        }
    }
}


/// Index of the first non-white-space character at or after `from`, or `s.len()` when none.
pub open spec fn skip_space(s: Seq<char>, from: int) -> int
    decreases s.len() - from,
{
    if from >= s.len() {
        s.len() as int
    } else if !is_white_space(s[from]) {
        from
    } else {
        skip_space(s, from + 1)
    }
}

/// One past the last non-white-space character before `to`, or `0` when none.
pub open spec fn trim_end(s: Seq<char>, to: int) -> int
    decreases to,
{
    if to <= 0 {
        0
    } else if !is_white_space(s[to - 1]) {
        to
    } else {
        trim_end(s, to - 1)
    }
}

/// `s` without leading and trailing white space (`str::trim`).
pub open spec fn trimmed(s: Seq<char>) -> Seq<char> {
    let lo = skip_space(s, 0);
    let hi = trim_end(s, s.len() as int);
    if lo >= hi {
        Seq::empty()
    } else {
        s.subrange(lo, hi)
    }
}

/// Bounds of `s[from..to]` once trimmed, as absolute indices.
pub fn trim_bounds(s: &Vec<char>, from: usize, to: usize) -> (r: (usize, usize))
    requires
        from <= to <= s@.len(),
    ensures
        from <= r.0 <= r.1 <= to,
        s@.subrange(r.0 as int, r.1 as int) == trimmed(s@.subrange(from as int, to as int)),
{
    let ghost t = s@.subrange(from as int, to as int);
    let mut lo = from;
    while lo < to && is_white_space_char(s[lo])
        invariant
            from <= lo <= to <= s@.len(),
            t == s@.subrange(from as int, to as int),
            skip_space(t, 0) == skip_space(t, lo - from),
        decreases to - lo,
    {
        lo += 1;
    }
    proof {
        if lo < to {
            assert(t[lo - from] == s@[lo as int]);
        }
    }
    let mut hi = to;
    while hi > lo && is_white_space_char(s[hi - 1])
        invariant
            from <= lo <= hi <= to <= s@.len(),
            t == s@.subrange(from as int, to as int),
            trim_end(t, t.len() as int) == trim_end(t, hi - from),
            lo < to ==> !is_white_space(s@[lo as int]),
            lo < hi || lo == to,
            skip_space(t, 0) == lo - from,
        decreases hi,
    {
        hi -= 1;
    }
    proof {
        if lo == hi {
            lemma_trim_end_bound(t, t.len() as int);
            assert(s@.subrange(lo as int, hi as int) =~= Seq::<char>::empty());
        } else {
            assert(t[hi - from - 1] == s@[hi - 1]);
            assert(s@.subrange(lo as int, hi as int) =~= t.subrange(lo - from, hi - from));
        }
    }
    (lo, hi)
}


proof fn lemma_trim_end_bound(s: Seq<char>, to: int)
    requires
        0 <= to,
    ensures
        0 <= trim_end(s, to) <= to,
    decreases to,
{
    if to > 0 && is_white_space(s[to - 1]) {
        lemma_trim_end_bound(s, to - 1);
    }
}


/// Whether `s[from..to]` spells `pat`.
pub fn subrange_equals(s: &Vec<char>, from: usize, to: usize, pat: &Vec<char>) -> (r: bool)
    requires
        from <= to <= s@.len(),
    ensures
        r == (s@.subrange(from as int, to as int) == pat@),
{
    if to - from != pat.len() {
        return false;
    }
    let mut i: usize = 0;
    while i < pat.len()
        invariant
            from <= to <= s@.len(),
            to - from == pat@.len(),
            i <= pat@.len(),
            forall|j: int| 0 <= j < i ==> s@[from + j] == pat@[j],
        decreases pat@.len() - i,
    {
        if s[from + i] != pat[i] {
            assert(s@.subrange(from as int, to as int)[i as int] != pat@[i as int]);
            return false;
        }
        i += 1;
    }
    assert(s@.subrange(from as int, to as int) =~= pat@);
    true
}

/// Index of the first non-white-space character of `s[from..to]`, or `to` when none.
pub fn skip_space_exec(s: &Vec<char>, from: usize, to: usize) -> (r: usize)
    requires
        from <= to <= s@.len(),
    ensures
        r == from + skip_space(s@.subrange(from as int, to as int), 0),
        from <= r <= to,
{
    let ghost t = s@.subrange(from as int, to as int);
    let mut i = from;
    while i < to && is_white_space_char(s[i])
        invariant
            from <= i <= to <= s@.len(),
            t == s@.subrange(from as int, to as int),
            skip_space(t, 0) == skip_space(t, i - from),
        decreases to - i,
    {
        i += 1;
    }
    proof {
        if i < to {
            assert(t[i - from] == s@[i as int]);
        }
    }
    i
}

/// Skipping white space in `a` from `off + j` is skipping it in the suffix `a[off..]` from `j`,
/// shifted by `off`.
pub proof fn lemma_skip_space_suffix(a: Seq<char>, off: int, j: int)
    requires
        0 <= off <= a.len(),
        0 <= j <= a.len() - off,
    ensures
        skip_space(a, off + j) == off + skip_space(a.subrange(off, a.len() as int), j),
    decreases a.len() - off - j,
{
    let b = a.subrange(off, a.len() as int);
    if j < b.len() {
        assert(a[off + j] == b[j]);
        if is_white_space(b[j]) {
            lemma_skip_space_suffix(a, off, j + 1);
        }
    }
}

/// `skip_space` stays within `[from, len]`.
pub proof fn lemma_skip_space(s: Seq<char>, from: int)
    requires
        0 <= from <= s.len(),
    ensures
        from <= skip_space(s, from) <= s.len(),
    decreases s.len() - from,
{
    if from < s.len() && is_white_space(s[from]) {
        lemma_skip_space(s, from + 1);
    }
}

/// Decimal digits of `n`, most significant first, without leading zeros.
pub open spec fn decimal_chars(n: nat) -> Seq<char>
    decreases n,
{
    if n < 10 {
        seq![(n + 48) as char]
    } else {
        decimal_chars(n / 10).push((n % 10 + 48) as char)
    }
}

/// The digit character of `d < 10`.
fn digit_text(d: u64) -> (r: &'static str)
    requires
        d < 10,
    ensures
        r@ == seq![(d + 48) as char],
{
    proof {
        reveal_strlit("0");
        reveal_strlit("1");
        reveal_strlit("2");
        reveal_strlit("3");
        reveal_strlit("4");
        reveal_strlit("5");
        reveal_strlit("6");
        reveal_strlit("7");
        reveal_strlit("8");
        reveal_strlit("9");
    }
    if d == 0 {
        "0"
    } else if d == 1 {
        "1"
    } else if d == 2 {
        "2"
    } else if d == 3 {
        "3"
    } else if d == 4 {
        "4"
    } else if d == 5 {
        "5"
    } else if d == 6 {
        "6"
    } else if d == 7 {
        "7"
    } else if d == 8 {
        "8"
    } else {
        "9"
    }
}

/// The decimal text of `n`: its digits, most significant first, without leading zeros.
pub(crate) fn decimal_string(n: u64) -> (r: String)
    ensures
        r@ == decimal_chars(n as nat),
    decreases n,
{
    if n < 10 {
        String::from_str(digit_text(n))
    } else {
        let mut s = decimal_string(n / 10);
        s.append(digit_text(n % 10));
        s
    }
}


/// The decimal text of `n` is a nonempty run of digits that spells `n`.
pub proof fn lemma_decimal_chars(n: nat)
    ensures
        decimal_chars(n).len() > 0,
        all_digits(decimal_chars(n)),
        digits_value(decimal_chars(n)) == n,
    decreases n,
{
    let d = n % 10;
    assert(((d + 48) as char) as u32 == d + 48);
    assert(('0' as u32) == 48);
    let s = decimal_chars(n);
    if n < 10 {
        assert(s.drop_last() =~= Seq::<char>::empty());
        assert(s.last() == ((n + 48) as char));
        assert(((n + 48) as char) as u32 == n + 48);
        assert(digits_value(s) == digits_value(s.drop_last()) * 10 + ((s.last() as u32) - ('0' as u32)) as nat);
        assert(digits_value(s.drop_last()) == 0);
    } else {
        lemma_decimal_chars(n / 10);
        assert(s.drop_last() == decimal_chars(n / 10));
        assert(s.last() == ((d + 48) as char));
        assert(n == (n / 10) * 10 + d);
        assert(digits_value(s) == digits_value(s.drop_last()) * 10 + ((s.last() as u32) - ('0' as u32)) as nat);
        assert forall|i: int| 0 <= i < s.len() implies is_digit(#[trigger] s[i]) by {
            if i < s.len() - 1 {
                assert(s[i] == decimal_chars(n / 10)[i]);
            }
        }
    }
}

/// A text that neither starts nor ends with white space is its own trimmed text.
pub proof fn lemma_trimmed_unpadded(s: Seq<char>)
    requires
        s.len() > 0,
        !is_white_space(s[0]),
        !is_white_space(s[s.len() - 1]),
    ensures
        trimmed(s) == s,
{
    assert(skip_space(s, 0) == 0);
    assert(trim_end(s, s.len() as int) == s.len());
    assert(s.subrange(0, s.len() as int) =~= s);
}

/// A nonempty run of digits is its own trimmed text.
pub proof fn lemma_digits_trimmed(s: Seq<char>)
    requires
        s.len() > 0,
        all_digits(s),
    ensures
        trimmed(s) == s,
{
    assert(is_digit(s[0]));
    assert(is_digit(s[s.len() - 1]));
    assert(!is_white_space(s[0]));
    assert(!is_white_space(s[s.len() - 1]));
    assert(skip_space(s, 0) == 0);
    assert(trim_end(s, s.len() as int) == s.len());
    assert(s.subrange(0, s.len() as int) =~= s);
}

/// Decimal text round-trips: the text of any `u64` parses back to it (`u64::from_str` after
/// `str::trim`).
pub proof fn law_decimal_text_parses_back(n: u64)
    ensures
        parse_u64_spec(trimmed(decimal_chars(n as nat))) == Some(n),
        n <= u32::MAX ==> parse_u32_spec(trimmed(decimal_chars(n as nat))) == Some(n as u32),
{
    lemma_decimal_chars(n as nat);
    lemma_digits_trimmed(decimal_chars(n as nat));
    assert(is_digit(decimal_chars(n as nat)[0]));
}
} // verus!
