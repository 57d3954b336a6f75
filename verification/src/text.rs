//! Text helpers: building, comparing, trimming and reading strings.

use vstd::prelude::*;

verus! {

/// `String::push` appends one character at the end.
pub assume_specification[ String::push ](s: &mut String, c: char)
    ensures
        final(s)@ == old(s)@.push(c),
;

/// The characters of `s`.
pub fn to_chars(s: &str) -> (v: Vec<char>)
    ensures
        v@ == s@,
{
    let mut v: Vec<char> = Vec::new();
    for c in it: s.chars()
        invariant
            it.seq() == s@,
            v@ == s@.take(it.index()),
    {
        v.push(c);
        proof {
            assert(s@.take(it.index() + 1) =~= s@.take(it.index()).push(c));
        }
    }
    proof {
        assert(s@.take(s@.len() as int) =~= s@);
    }
    v
}

/// The string made of `v[from..to]`.
pub fn from_range(v: &Vec<char>, from: usize, to: usize) -> (s: String)
    requires
        from <= to <= v.len(),
    ensures
        s@ == v@.subrange(from as int, to as int),
{
    let mut s = String::new();
    let mut i: usize = from;
    while i < to
        invariant
            from <= i <= to <= v.len(),
            s@ == v@.subrange(from as int, i as int),
        decreases to - i,
    {
        s.push(v[i]);
        proof {
            assert(v@.subrange(from as int, i + 1) =~= v@.subrange(from as int, i as int).push(v@[i as int]));
        }
        i += 1;
    }
    s
}

/// Whether two strings hold the same characters.
pub fn same(a: &str, b: &str) -> (r: bool)
    ensures
        r == (a@ == b@),
{
    let x = to_chars(a);
    let y = to_chars(b);
    if x.len() != y.len() {
        return false;
    }
    let mut i: usize = 0;
    while i < x.len()
        invariant
            x@ == a@,
            y@ == b@,
            x.len() == y.len(),
            0 <= i <= x.len(),
            forall|j: int| 0 <= j < i ==> a@[j] == b@[j],
        decreases x.len() - i,
    {
        if x[i] != y[i] {
            return false;
        }
        i += 1;
    }
    proof {
        assert(a@ =~= b@);
    }
    true
}

// ── Numerals ────────────────────────────────────────────────────

/// The character of the decimal digit `d`.
pub open spec fn digit_char(d: nat) -> char {
    (48 + d) as char
}

/// The decimal numeral of `n`, without leading zeros.
pub open spec fn numeral(n: nat) -> Seq<char>
    decreases n,
{
    if n < 10 {
        seq![digit_char(n)]
    } else {
        numeral(n / 10).push(digit_char(n % 10))
    }
}

/// Whether `c` is one of `0` to `9`.
pub open spec fn is_digit(c: char) -> bool {
    '0' <= c <= '9'
}

/// Whether `s` holds decimal digits only.
pub open spec fn all_digits(s: Seq<char>) -> bool {
    forall|i: int| 0 <= i < s.len() ==> is_digit(#[trigger] s[i])
}

/// The number that the digits `s` spell.
pub open spec fn digits_value(s: Seq<char>) -> nat
    decreases s.len(),
{
    if s.len() == 0 {
        0
    } else {
        digits_value(s.drop_last()) * 10 + (s.last() as nat - 48) as nat
    }
}

/// A numeral is read back as the number it spells.
pub proof fn lemma_numeral(n: nat)
    ensures
        numeral(n).len() >= 1,
        all_digits(numeral(n)),
        digits_value(numeral(n)) == n,
    decreases n,
{
    if n < 10 {
        assert(numeral(n).drop_last() =~= Seq::<char>::empty());
        assert(digits_value(Seq::<char>::empty()) == 0);
        assert(numeral(n).last() == digit_char(n));
    } else {
        lemma_numeral(n / 10);
        assert(numeral(n).drop_last() =~= numeral(n / 10));
        assert(numeral(n).last() == digit_char(n % 10));
    }
}

/// A longer run of digits spells a number that is no smaller.
proof fn lemma_digits_grow(s: Seq<char>, i: int)
    requires
        0 <= i <= s.len(),
        all_digits(s),
    ensures
        digits_value(s.take(i)) <= digits_value(s),
    decreases s.len() - i,
{
    if i < s.len() {
        assert(s.take(i + 1).drop_last() =~= s.take(i));
        lemma_digits_grow(s, i + 1);
    } else {
        assert(s.take(i) =~= s);
    }
}

/// Appends the decimal numeral of `n`.
pub fn push_decimal(out: &mut String, n: u64)
    ensures
        final(out)@ == old(out)@ + numeral(n as nat),
    decreases n,
{
    if n < 10 {
        let c: char = (48u8 + n as u8) as char;
        out.push(c);
        proof {
            assert(old(out)@ + numeral(n as nat) =~= old(out)@.push(digit_char(n as nat)));
        }
    } else {
        push_decimal(out, n / 10);
        let c: char = (48u8 + (n % 10) as u8) as char;
        out.push(c);
        proof {
            assert(old(out)@ + numeral(n as nat) =~= (old(out)@ + numeral((n / 10) as nat)).push(digit_char((n % 10) as nat)));
        }
    }
}

/// The decimal numeral of `n`.
pub fn decimal(n: u64) -> (s: String)
    ensures
        s@ == numeral(n as nat),
{
    let mut s = String::new();
    push_decimal(&mut s, n);
    proof {
        assert(Seq::<char>::empty() + numeral(n as nat) =~= numeral(n as nat));
    }
    s
}

/// The unsigned number that `s` spells: an optional `+`, then digits, no more than `max`.
pub open spec fn unsigned(s: Seq<char>, max: nat) -> Option<nat> {
    let digits = if s.len() > 0 && s[0] == '+' { s.skip(1) } else { s };
    if digits.len() > 0 && all_digits(digits) && digits_value(digits) <= max {
        Some(digits_value(digits))
    } else {
        None
    }
}

/// Reads an unsigned number that is no more than `max`.
pub fn parse_unsigned(s: &str, max: u64) -> (r: Option<u64>)
    ensures
        match r {
            Some(n) => unsigned(s@, max as nat) == Some(n as nat),
            None => unsigned(s@, max as nat) is None,
        },
{
    let v = to_chars(s);
    let start: usize = if v.len() > 0 && v[0] == '+' { 1 } else { 0 };
    let ghost digits = v@.skip(start as int);
    proof {
        if start == 0 {
            assert(digits =~= s@);
        }
    }
    if start == v.len() {
        return None;
    }
    let mut n: u64 = 0;
    let mut i: usize = start;
    while i < v.len()
        invariant
            start <= i <= v.len(),
            digits == v@.skip(start as int),
            digits.len() == v.len() - start,
            forall|j: int| 0 <= j < i - start ==> is_digit(#[trigger] digits[j]),
            n == digits_value(digits.take(i - start)),
            n <= max,
            unsigned(s@, max as nat) == (if digits.len() > 0 && all_digits(digits) && digits_value(digits) <= max {
                Some(digits_value(digits))
            } else {
                None::<nat>
            }),
        decreases v.len() - i,
    {
        let c = v[i];
        proof {
            assert(digits[i - start] == c);
        }
        if !(c >= '0' && c <= '9') {
            return None;
        }
        let d: u64 = (c as u64) - 48;
        proof {
            assert(digits.take(i - start + 1).drop_last() =~= digits.take(i - start));
            assert(digits.take(i - start + 1).last() == c);
            assert(digits_value(digits.take(i - start + 1)) == n * 10 + d);
            if all_digits(digits) {
                lemma_digits_grow(digits, i - start + 1);
            }
        }
        if n > max / 10 || d > max - n * 10 {
            return None;
        }
        n = n * 10 + d;
        i += 1;
    }
    proof {
        assert(digits.take(digits.len() as int) =~= digits);
    }
    Some(n)
}

// ── White space ─────────────────────────────────────────────────

/// The characters that Unicode counts as white space.
pub open spec fn is_space(c: char) -> bool {
    let n = c as u32;
    ||| 0x9 <= n <= 0xd
    ||| n == 0x20
    ||| n == 0x85
    ||| n == 0xa0
    ||| n == 0x1680
    ||| 0x2000 <= n <= 0x200a
    ||| n == 0x2028
    ||| n == 0x2029
    ||| n == 0x202f
    ||| n == 0x205f
    ||| n == 0x3000
}

/// Whether `c` is white space.
pub fn space(c: char) -> (r: bool)
    ensures
        r == is_space(c),
{
    let n: u32 = c as u32;
    (0x9 <= n && n <= 0xd) || n == 0x20 || n == 0x85 || n == 0xa0 || n == 0x1680 || (0x2000 <= n && n <= 0x200a) || n
        == 0x2028 || n == 0x2029 || n == 0x202f || n == 0x205f || n == 0x3000
}

/// How many characters at the front of `s` are white space.
pub open spec fn leading_space(s: Seq<char>) -> nat
    decreases s.len(),
{
    if s.len() > 0 && is_space(s[0]) {
        1 + leading_space(s.skip(1))
    } else {
        0
    }
}

/// How many characters at the back of `s` are white space.
pub open spec fn trailing_space(s: Seq<char>) -> nat
    decreases s.len(),
{
    if s.len() > 0 && is_space(s.last()) {
        1 + trailing_space(s.drop_last())
    } else {
        0
    }
}

/// `s` without the white space at its end.
pub open spec fn trimmed_end(s: Seq<char>) -> Seq<char> {
    s.take(s.len() - trailing_space(s))
}

/// `s` without the white space at its front.
pub open spec fn trimmed_start(s: Seq<char>) -> Seq<char> {
    s.skip(leading_space(s) as int)
}

/// `s` without the white space around it.
pub open spec fn trimmed(s: Seq<char>) -> Seq<char> {
    trimmed_end(trimmed_start(s))
}

pub proof fn lemma_space_bounds(s: Seq<char>)
    ensures
        leading_space(s) <= s.len(),
        trailing_space(s) <= s.len(),
    decreases s.len(),
{
    if s.len() > 0 {
        lemma_space_bounds(s.skip(1));
        lemma_space_bounds(s.drop_last());
    }
}

/// Letters have no white space around them.
pub proof fn lemma_plain_is_trimmed(s: Seq<char>)
    requires
        plain_lower(s),
    ensures
        trimmed(s) == s,
{
    if s.len() > 0 {
        assert('a' <= s[0] <= 'z');
        assert('a' <= s[s.len() - 1] <= 'z');
        assert(leading_space(s) == 0);
        assert(trailing_space(s) == 0);
    }
    assert(s.skip(0) =~= s);
    assert(s.take(s.len() as int) =~= s);
}

/// Drops the white space at the front.
pub fn trim_start(s: &str) -> (r: &str)
    ensures
        r@ == trimmed_start(s@),
{
    let v = to_chars(s);
    let mut i: usize = 0;
    proof {
        assert(s@.skip(0) =~= s@);
    }
    while i < v.len() && space(v[i])
        invariant
            v@ == s@,
            i <= v.len(),
            leading_space(s@) == i + leading_space(s@.skip(i as int)),
        decreases v.len() - i,
    {
        proof {
            assert(s@.skip(i as int)[0] == v@[i as int]);
            assert(s@.skip(i as int).skip(1) =~= s@.skip(i + 1));
        }
        i += 1;
    }
    proof {
        let rest = s@.skip(i as int);
        if rest.len() > 0 {
            assert(rest[0] == v@[i as int]);
        }
        assert(s@.subrange(i as int, v.len() as int) =~= s@.skip(i as int));
    }
    s.substring_char(i, v.len())
}

/// Drops the white space at the end.
pub fn trim_end(s: &str) -> (r: &str)
    ensures
        r@ == trimmed_end(s@),
{
    let v = to_chars(s);
    let mut i: usize = v.len();
    proof {
        assert(s@.take(s@.len() as int) =~= s@);
    }
    while i > 0 && space(v[i - 1])
        invariant
            v@ == s@,
            i <= v.len(),
            trailing_space(s@) == (v.len() - i) + trailing_space(s@.take(i as int)),
        decreases i,
    {
        proof {
            assert(s@.take(i as int).last() == v@[i - 1]);
            assert(s@.take(i as int).drop_last() =~= s@.take(i - 1));
        }
        i -= 1;
    }
    proof {
        let rest = s@.take(i as int);
        if rest.len() > 0 {
            assert(rest.last() == v@[i - 1]);
        }
        assert(s@.subrange(0, i as int) =~= s@.take(i as int));
    }
    s.substring_char(0, i)
}

/// Drops the white space around `s`.
pub fn trim(s: &str) -> (r: &str)
    ensures
        r@ == trimmed(s@),
{
    trim_end(trim_start(s))
}

// ── Parts ───────────────────────────────────────────────────────

/// Whether `s` begins with `prefix`.
pub open spec fn has_prefix(s: Seq<char>, prefix: Seq<char>) -> bool {
    s.len() >= prefix.len() && s.take(prefix.len() as int) == prefix
}

/// Whether `s` begins with `prefix`.
pub fn starts_with(s: &str, prefix: &str) -> (r: bool)
    ensures
        r == has_prefix(s@, prefix@),
{
    let n = s.unicode_len();
    let k = prefix.unicode_len();
    if n < k {
        return false;
    }
    proof {
        assert(s@.subrange(0, k as int) =~= s@.take(k as int));
    }
    same(s.substring_char(0, k), prefix)
}

/// `s` without `prefix`, where it begins with it.
pub open spec fn without_prefix(s: Seq<char>, prefix: Seq<char>) -> Option<Seq<char>> {
    if has_prefix(s, prefix) {
        Some(s.skip(prefix.len() as int))
    } else {
        None
    }
}

/// Drops `prefix` from `s`, where it begins with it.
pub fn strip_prefix<'a>(s: &'a str, prefix: &str) -> (r: Option<&'a str>)
    ensures
        match r {
            Some(rest) => without_prefix(s@, prefix@) == Some(rest@),
            None => without_prefix(s@, prefix@) is None,
        },
{
    if starts_with(s, prefix) {
        let n = s.unicode_len();
        let k = prefix.unicode_len();
        proof {
            assert(s@.subrange(k as int, n as int) =~= s@.skip(k as int));
        }
        Some(s.substring_char(k, n))
    } else {
        None
    }
}

/// The index of the first `c` in `s`, or the length of `s`.
pub open spec fn first_at(s: Seq<char>, c: char) -> nat
    decreases s.len(),
{
    if s.len() == 0 || s[0] == c {
        0
    } else {
        1 + first_at(s.skip(1), c)
    }
}

pub proof fn lemma_first_at(s: Seq<char>, c: char)
    ensures
        first_at(s, c) <= s.len(),
        first_at(s, c) < s.len() ==> s[first_at(s, c) as int] == c,
        forall|j: int| 0 <= j < first_at(s, c) ==> s[j] != c,
    decreases s.len(),
{
    if s.len() > 0 && s[0] != c {
        lemma_first_at(s.skip(1), c);
        let k = first_at(s.skip(1), c);
        if k < s.skip(1).len() {
            assert(s.skip(1)[k as int] == s[k as int + 1]);
        }
        assert forall|j: int| 0 <= j < first_at(s, c) implies s[j] != c by {
            if j > 0 {
                assert(s.skip(1)[j - 1] == s[j]);
            }
        }
    }
}

/// The first index of a character in `s` is the only index with no earlier one.
pub proof fn lemma_first_at_is(s: Seq<char>, c: char, k: int)
    requires
        0 <= k <= s.len(),
        k < s.len() ==> s[k] == c,
        forall|j: int| 0 <= j < k ==> s[j] != c,
    ensures
        first_at(s, c) == k,
{
    lemma_first_at(s, c);
}

/// What stands before and after the first `c`.
pub open spec fn parted(s: Seq<char>, c: char) -> Option<(Seq<char>, Seq<char>)> {
    let k = first_at(s, c) as int;
    if k < s.len() {
        Some((s.take(k), s.skip(k + 1)))
    } else {
        None
    }
}

/// Parts `s` at the first `c`.
pub fn split_once(s: &str, c: char) -> (r: Option<(&str, &str)>)
    ensures
        match r {
            Some((a, b)) => parted(s@, c) == Some((a@, b@)),
            None => parted(s@, c) is None,
        },
{
    let v = to_chars(s);
    let mut i: usize = 0;
    while i < v.len() && v[i] != c
        invariant
            v@ == s@,
            i <= v.len(),
            forall|j: int| 0 <= j < i ==> s@[j] != c,
        decreases v.len() - i,
    {
        i += 1;
    }
    proof {
        lemma_first_at_is(s@, c, i as int);
    }
    if i < v.len() {
        proof {
            assert(s@.subrange(0, i as int) =~= s@.take(i as int));
            assert(s@.subrange(i + 1, v.len() as int) =~= s@.skip(i + 1));
        }
        Some((s.substring_char(0, i), s.substring_char(i + 1, v.len())))
    } else {
        None
    }
}

/// The pieces of `s` between the separators `c`.
pub open spec fn pieces(s: Seq<char>, c: char) -> Seq<Seq<char>>
    decreases s.len(),
{
    let k = first_at(s, c) as int;
    if 0 <= k < s.len() {
        seq![s.take(k)] + pieces(s.skip(k + 1), c)
    } else {
        seq![s]
    }
}

/// Parts `s` at every `c`.
pub fn split(s: &str, c: char) -> (r: Vec<String>)
    ensures
        texts(r@) == pieces(s@, c),
{
    let v = to_chars(s);
    let n: usize = v.len();
    let mut r: Vec<String> = Vec::new();
    let mut start: usize = 0;
    proof {
        assert(s@.skip(0) =~= s@);
        assert(texts(r@) + pieces(s@, c) =~= pieces(s@, c));
    }
    loop
        invariant
            v@ == s@,
            n == v.len(),
            start <= n,
            texts(r@) + pieces(s@.skip(start as int), c) == pieces(s@, c),
        decreases n - start,
    {
        let ghost rest = s@.skip(start as int);
        let mut end: usize = start;
        while end < n && v[end] != c
            invariant
                v@ == s@,
                n == v.len(),
                start <= end <= n,
                rest == s@.skip(start as int),
                forall|j: int| 0 <= j < end - start ==> rest[j] != c,
            decreases n - end,
        {
            end += 1;
        }
        proof {
            lemma_first_at_is(rest, c, end - start);
            assert(rest.take(end - start) =~= s@.subrange(start as int, end as int));
        }
        let ghost before = r@;
        r.push(from_range(&v, start, end));
        proof {
            assert(texts(r@) =~= texts(before).push(s@.subrange(start as int, end as int)));
        }
        if end == n {
            proof {
                assert(rest.take(end - start) =~= rest);
                assert(texts(r@) =~= pieces(s@, c));
            }
            return r;
        }
        proof {
            assert(rest.skip(end - start + 1) =~= s@.skip(end + 1));
            assert(texts(r@) + pieces(s@.skip(end + 1), c) =~= texts(before) + pieces(rest, c));
        }
        start = end + 1;
    }
}

/// The runs of characters in `s` that are no white space.
pub open spec fn words(s: Seq<char>) -> Seq<Seq<char>>
    decreases s.len(),
{
    if s.len() == 0 {
        seq![]
    } else if is_space(s[0]) {
        words(s.skip(1))
    } else {
        let k = word_len(s) as int;
        if 0 < k <= s.len() {
            seq![s.take(k)] + words(s.skip(k))
        } else {
            seq![]
        }
    }
}

/// How many characters at the front of `s` are no white space.
pub open spec fn word_len(s: Seq<char>) -> nat
    decreases s.len(),
{
    if s.len() == 0 || is_space(s[0]) {
        0
    } else {
        1 + word_len(s.skip(1))
    }
}

/// The first word of `s` ends before its first white space.
pub proof fn lemma_word_len(s: Seq<char>, k: int)
    requires
        0 <= k <= s.len(),
        k < s.len() ==> is_space(s[k]),
        forall|j: int| 0 <= j < k ==> !is_space(#[trigger] s[j]),
    ensures
        word_len(s) == k,
    decreases s.len(),
{
    if s.len() > 0 && k > 0 {
        assert(!is_space(s[0]));
        let rest = s.skip(1);
        if k < s.len() {
            assert(rest[k - 1] == s[k]);
        }
        assert forall|j: int| 0 <= j < k - 1 implies !is_space(#[trigger] rest[j]) by {
            assert(rest[j] == s[j + 1]);
        }
        lemma_word_len(rest, k - 1);
    }
}

/// Parts `s` at white space.
pub fn split_whitespace(s: &str) -> (r: Vec<String>)
    ensures
        texts(r@) == words(s@),
{
    let v = to_chars(s);
    let n: usize = v.len();
    let mut r: Vec<String> = Vec::new();
    let mut i: usize = 0;
    proof {
        assert(s@.skip(0) =~= s@);
        assert(texts(r@) + words(s@) =~= words(s@));
    }
    while i < n
        invariant
            v@ == s@,
            n == v.len(),
            i <= n,
            texts(r@) + words(s@.skip(i as int)) == words(s@),
        decreases n - i,
    {
        let ghost rest = s@.skip(i as int);
        proof {
            assert(rest[0] == v@[i as int]);
        }
        if space(v[i]) {
            proof {
                assert(rest.skip(1) =~= s@.skip(i + 1));
            }
            i += 1;
        } else {
            let mut end: usize = i + 1;
            while end < n && !space(v[end])
                invariant
                    v@ == s@,
                    n == v.len(),
                    i < end <= n,
                    rest == s@.skip(i as int),
                    forall|j: int| 0 <= j < end - i ==> !is_space(#[trigger] rest[j]),
                decreases n - end,
            {
                proof {
                    assert(rest[end - i] == v@[end as int]);
                }
                end += 1;
            }
            proof {
                if end < n {
                    assert(rest[end - i] == v@[end as int]);
                }
                lemma_word_len(rest, end - i);
                assert(rest.take(end - i) =~= s@.subrange(i as int, end as int));
                assert(rest.skip(end - i) =~= s@.skip(end as int));
            }
            let ghost before = r@;
            r.push(from_range(&v, i, end));
            proof {
                assert(texts(r@) =~= texts(before).push(s@.subrange(i as int, end as int)));
                assert(texts(r@) + words(s@.skip(end as int)) =~= texts(before) + words(rest));
            }
            i = end;
        }
    }
    proof {
        assert(words(s@.skip(n as int)) =~= Seq::<Seq<char>>::empty());
        assert(texts(r@) + Seq::<Seq<char>>::empty() =~= texts(r@));
    }
    r
}

/// The strings of `parts` with `sep` between them.
pub open spec fn joined(parts: Seq<Seq<char>>, sep: Seq<char>) -> Seq<char>
    decreases parts.len(),
{
    if parts.len() == 0 {
        seq![]
    } else if parts.len() == 1 {
        parts[0]
    } else {
        joined(parts.drop_last(), sep) + sep + parts.last()
    }
}

/// Joins strings with a separator.
pub fn join(parts: &Vec<String>, sep: &str) -> (r: String)
    ensures
        r@ == joined(texts(parts@), sep@),
{
    let mut r = String::new();
    let ghost ts = texts(parts@);
    let mut i: usize = 0;
    proof {
        assert(joined(ts.take(0), sep@) =~= Seq::<char>::empty());
    }
    while i < parts.len()
        invariant
            ts == texts(parts@),
            i <= parts.len(),
            r@ == joined(ts.take(i as int), sep@),
        decreases parts.len() - i,
    {
        if i > 0 {
            r.append(sep);
        }
        r.append(parts[i].as_str());
        proof {
            let next = ts.take(i + 1);
            assert(next.drop_last() =~= ts.take(i as int));
            assert(next.last() == parts@[i as int]@);
            if i == 0 {
                assert(next[0] == parts@[0]@);
                assert(Seq::<char>::empty() + parts@[0]@ =~= parts@[0]@);
            }
            assert(r@ =~= joined(next, sep@));
        }
        i += 1;
    }
    proof {
        assert(ts.take(i as int) =~= ts);
    }
    r
}

pub proof fn lemma_joined_front(parts: Seq<Seq<char>>, sep: Seq<char>)
    requires
        parts.len() > 1,
    ensures
        joined(parts, sep) == parts[0] + sep + joined(parts.skip(1), sep),
    decreases parts.len(),
{
    let rest = parts.skip(1);
    if parts.len() == 2 {
        assert(parts.drop_last()[0] == parts[0]);
        assert(joined(parts.drop_last(), sep) == parts[0]);
        assert(rest[0] == parts.last());
    } else {
        lemma_joined_front(parts.drop_last(), sep);
        assert(parts.drop_last().skip(1) =~= rest.drop_last());
        assert(rest.last() == parts.last());
        assert(parts.drop_last()[0] == parts[0]);
        assert(joined(parts, sep) =~= parts[0] + sep + joined(rest, sep));
    }
}

/// Strings without the separator are the pieces of what joins them.
pub proof fn lemma_pieces_joined(ls: Seq<Seq<char>>, c: char)
    requires
        ls.len() > 0,
        forall|i: int, j: int| 0 <= i < ls.len() && 0 <= j < ls[i].len() ==> #[trigger] ls[i][j] != c,
    ensures
        pieces(joined(ls, seq![c]), c) == ls,
    decreases ls.len(),
{
    let s = joined(ls, seq![c]);
    if ls.len() == 1 {
        assert(forall|j: int| 0 <= j < ls[0].len() ==> #[trigger] ls[0][j] != c);
        lemma_first_at_is(s, c, s.len() as int);
        assert(seq![s] =~= ls);
    } else {
        lemma_joined_front(ls, seq![c]);
        let rest = ls.skip(1);
        let k = ls[0].len() as int;
        assert forall|j: int| 0 <= j < k implies s[j] != c by {
            assert(s[j] == ls[0][j]);
        }
        assert(s[k] == c);
        lemma_first_at_is(s, c, k);
        assert(s.take(k) =~= ls[0]);
        assert(s.skip(k + 1) =~= joined(rest, seq![c]));
        assert forall|i: int, j: int| 0 <= i < rest.len() && 0 <= j < rest[i].len() implies #[trigger] rest[i][j]
            != c by {
            assert(rest[i] == ls[i + 1]);
            assert(ls[i + 1][j] != c);
        }
        lemma_pieces_joined(rest, c);
        assert(seq![ls[0]] + rest =~= ls);
    }
}

/// A separator between two strings parts their pieces.
pub proof fn lemma_pieces_add(a: Seq<char>, c: char, b: Seq<char>)
    ensures
        pieces(a + seq![c] + b, c) == pieces(a, c) + pieces(b, c),
    decreases a.len(),
{
    let s = a + seq![c] + b;
    lemma_first_at(a, c);
    let k = first_at(a, c) as int;
    lemma_first_at_is(s, c, k);
    if k < a.len() {
        let rest = a.skip(k + 1);
        lemma_pieces_add(rest, c, b);
        assert(s.skip(k + 1) =~= rest + seq![c] + b);
        assert(s.take(k) =~= a.take(k));
        assert(pieces(s, c) =~= pieces(a, c) + pieces(b, c));
    } else {
        assert(s.skip(k + 1) =~= b);
        assert(s.take(k) =~= a);
    }
}

/// The pieces of a string hold no separator, and joined they are the string again.
pub proof fn lemma_pieces(s: Seq<char>, c: char)
    ensures
        pieces(s, c).len() > 0,
        forall|i: int, j: int| 0 <= i < pieces(s, c).len() && 0 <= j < pieces(s, c)[i].len() ==> #[trigger] pieces(s, c)[i][j] != c,
        joined(pieces(s, c), seq![c]) == s,
    decreases s.len(),
{
    lemma_first_at(s, c);
    let k = first_at(s, c) as int;
    let ps = pieces(s, c);
    if k < s.len() {
        let rest = s.skip(k + 1);
        lemma_pieces(rest, c);
        assert(ps.skip(1) =~= pieces(rest, c));
        lemma_joined_front(ps, seq![c]);
        assert(s =~= s.take(k) + seq![c] + rest);
        assert forall|i: int, j: int| 0 <= i < ps.len() && 0 <= j < ps[i].len() implies #[trigger] ps[i][j] != c by {
            if i > 0 {
                assert(ps[i] == pieces(rest, c)[i - 1]);
                assert(pieces(rest, c)[i - 1][j] != c);
            }
        }
    }
}

// ── Order ───────────────────────────────────────────────────────

/// The order of two strings, character by character: -1, 0 or 1.
pub open spec fn order(a: Seq<char>, b: Seq<char>) -> int
    decreases a.len(),
{
    if a.len() == 0 {
        if b.len() == 0 {
            0
        } else {
            -1
        }
    } else if b.len() == 0 {
        1
    } else if a[0] < b[0] {
        -1
    } else if a[0] > b[0] {
        1
    } else {
        order(a.skip(1), b.skip(1))
    }
}

/// The order of strings is total: it is zero between equal strings only, and turns round with its
/// arguments.
pub proof fn lemma_order_total(a: Seq<char>, b: Seq<char>)
    ensures
        -1 <= order(a, b) <= 1,
        order(a, b) == -order(b, a),
        order(a, b) == 0 <==> a == b,
    decreases a.len(),
{
    if a.len() > 0 && b.len() > 0 {
        lemma_order_total(a.skip(1), b.skip(1));
        if a[0] == b[0] {
            if a.skip(1) == b.skip(1) {
                assert forall|i: int| 0 <= i < a.len() implies a[i] == b[i] by {
                    if i > 0 {
                        assert(a.skip(1)[i - 1] == b.skip(1)[i - 1]);
                    }
                }
                assert(a.len() == b.len());
                assert(a =~= b);
            }
        }
    } else if a.len() == 0 && b.len() == 0 {
        assert(a =~= b);
    }
}

/// The order of strings is transitive.
pub proof fn lemma_order_transitive(a: Seq<char>, b: Seq<char>, c: Seq<char>)
    ensures
        order(a, b) <= 0 && order(b, c) <= 0 ==> order(a, c) <= 0,
        order(a, b) < 0 && order(b, c) <= 0 ==> order(a, c) < 0,
        order(a, b) <= 0 && order(b, c) < 0 ==> order(a, c) < 0,
    decreases a.len(),
{
    if a.len() > 0 && b.len() > 0 && c.len() > 0 {
        lemma_order_transitive(a.skip(1), b.skip(1), c.skip(1));
    }
}

/// Orders two strings: -1, 0 or 1.
pub fn ordered(a: &str, b: &str) -> (r: i8)
    ensures
        r == order(a@, b@),
{
    let x = to_chars(a);
    let y = to_chars(b);
    let mut i: usize = 0;
    proof {
        assert(a@.skip(0) =~= a@);
        assert(b@.skip(0) =~= b@);
    }
    while i < x.len() && i < y.len()
        invariant
            x@ == a@,
            y@ == b@,
            i <= x.len(),
            i <= y.len(),
            order(a@, b@) == order(a@.skip(i as int), b@.skip(i as int)),
        decreases x.len() - i,
    {
        proof {
            assert(a@.skip(i as int)[0] == x@[i as int]);
            assert(b@.skip(i as int)[0] == y@[i as int]);
            assert(a@.skip(i as int).skip(1) =~= a@.skip(i + 1));
            assert(b@.skip(i as int).skip(1) =~= b@.skip(i + 1));
        }
        if x[i] < y[i] {
            return -1;
        }
        if x[i] > y[i] {
            return 1;
        }
        i += 1;
    }
    if i < x.len() {
        1
    } else if i < y.len() {
        -1
    } else {
        0
    }
}

// ── Letter case ─────────────────────────────────────────────────

/// `s` in lower case, by Unicode's rules.
pub uninterp spec fn lowercase(s: Seq<char>) -> Seq<char>;

/// Whether a string is made of the lower-case letters `a` to `z` alone.
pub open spec fn plain_lower(s: Seq<char>) -> bool {
    forall|i: int| 0 <= i < s.len() ==> 'a' <= #[trigger] s[i] <= 'z'
}

/// `str::to_lowercase`: the lower-case equivalent of a string. The mapping itself, Unicode's
/// case tables, is not stated; the result is a function of the string alone, and a string of the
/// letters `a` to `z`, which are lower case already, is kept as it is.
#[verifier::external_body]
pub(crate) fn to_lowercase(s: &str) -> (r: String)
    ensures
        r@ == lowercase(s@),
        plain_lower(s@) ==> r@ == s@,
{
    s.to_lowercase()
}

// ── Optional text ───────────────────────────────────────────────

/// The characters of an optional string.
pub open spec fn optional(s: Option<String>) -> Option<Seq<char>> {
    match s {
        Some(t) => Some(t@),
        None => None,
    }
}

/// The characters of an optional borrowed string.
pub open spec fn view_of(s: Option<&str>) -> Option<Seq<char>> {
    match s {
        Some(t) => Some(t@),
        None => None,
    }
}

/// A copy of an optional string.
pub fn copy_optional(s: &Option<String>) -> (r: Option<String>)
    ensures
        r == *s,
{
    match s {
        Some(t) => Some(t.clone()),
        None => None,
    }
}

/// Whether two optional strings hold the same characters, or both none.
pub fn same_optional(a: &Option<String>, b: &Option<String>) -> (r: bool)
    ensures
        r == (optional(*a) == optional(*b)),
{
    match (a, b) {
        (Some(x), Some(y)) => same(x.as_str(), y.as_str()),
        (None, None) => true,
        _ => false,
    }
}

/// The characters of a run of strings.
pub open spec fn texts(v: Seq<String>) -> Seq<Seq<char>> {
    Seq::new(v.len(), |i: int| v[i]@)
}

/// Whether two runs of strings hold the same strings in the same order.
pub fn same_texts(a: &Vec<String>, b: &Vec<String>) -> (r: bool)
    ensures
        r == (texts(a@) == texts(b@)),
{
    if a.len() != b.len() {
        proof {
            assert(texts(a@).len() != texts(b@).len());
        }
        return false;
    }
    let mut i: usize = 0;
    while i < a.len()
        invariant
            a.len() == b.len(),
            0 <= i <= a.len(),
            forall|j: int| 0 <= j < i ==> a@[j]@ == b@[j]@,
        decreases a.len() - i,
    {
        if !same(a[i].as_str(), b[i].as_str()) {
            proof {
                assert(texts(a@)[i as int] != texts(b@)[i as int]);
            }
            return false;
        }
        i += 1;
    }
    proof {
        assert(texts(a@) =~= texts(b@));
    }
    true
}

// ── What the helpers are for ────────────────────────────────────

proof fn lemma_leading(s: Seq<char>)
    ensures
        leading_space(s) <= s.len(),
        forall|i: int| 0 <= i < leading_space(s) ==> is_space(#[trigger] s[i]),
        leading_space(s) < s.len() ==> !is_space(s[leading_space(s) as int]),
    decreases s.len(),
{
    if s.len() > 0 && is_space(s[0]) {
        let rest = s.skip(1);
        lemma_leading(rest);
        assert forall|i: int| 0 <= i < leading_space(s) implies is_space(#[trigger] s[i]) by {
            if i > 0 {
                assert(rest[i - 1] == s[i]);
            }
        }
        if leading_space(rest) < rest.len() {
            assert(rest[leading_space(rest) as int] == s[leading_space(s) as int]);
        }
    }
}

proof fn lemma_trailing(s: Seq<char>)
    ensures
        trailing_space(s) <= s.len(),
        forall|i: int| s.len() - trailing_space(s) <= i < s.len() ==> is_space(#[trigger] s[i]),
        trailing_space(s) < s.len() ==> !is_space(s[s.len() - trailing_space(s) - 1]),
    decreases s.len(),
{
    if s.len() > 0 && is_space(s.last()) {
        let front = s.drop_last();
        lemma_trailing(front);
        assert forall|i: int| s.len() - trailing_space(s) <= i < s.len() implies is_space(#[trigger] s[i]) by {
            if i < front.len() {
                assert(front[i] == s[i]);
            }
        }
        if trailing_space(front) < front.len() {
            assert(front[front.len() - trailing_space(front) - 1] == s[s.len() - trailing_space(s) - 1]);
        }
    }
}

/// Trimming takes white space off both ends, all of it and nothing else.
pub proof fn law_trimming_takes_space_off_the_ends(s: Seq<char>)
    ensures
        exists|i: int, j: int| #![trigger s.subrange(i, j)]
            {
                &&& 0 <= i <= j <= s.len()
                &&& trimmed(s) == s.subrange(i, j)
                &&& forall|k: int| 0 <= k < i || j <= k < s.len() ==> is_space(#[trigger] s[k])
            },
        trimmed(s).len() > 0 ==> !is_space(trimmed(s)[0]) && !is_space(trimmed(s).last()),
        trimmed(trimmed(s)) == trimmed(s),
{
    lemma_leading(s);
    let i = leading_space(s) as int;
    let t = trimmed_start(s);
    lemma_trailing(t);
    let j = s.len() - trailing_space(t);
    assert(trimmed(s) =~= s.subrange(i, j));
    assert forall|k: int| 0 <= k < i || j <= k < s.len() implies is_space(#[trigger] s[k]) by {
        if k >= j {
            assert(t[k - i] == s[k]);
        }
    }
    let r = trimmed(s);
    if r.len() > 0 {
        assert(r[0] == t[0] && t[0] == s[i]);
        assert(r.last() == t[t.len() - trailing_space(t) - 1]);
        lemma_leading(r);
        lemma_trailing(r);
        assert(leading_space(r) == 0);
        assert(r.skip(0) =~= r);
        assert(trailing_space(r) == 0);
        assert(r.take(r.len() as int) =~= r);
    } else {
        assert(trimmed(r) =~= r);
    }
}

/// White space is what parts words: the blank, the tab, line ends and the blanks of other scripts; no
/// visible character of ASCII is.
pub proof fn law_visible_characters_are_no_space(c: char)
    ensures
        is_space(' ') && is_space('\t') && is_space('\n') && is_space('\r') && is_space('\u{a0}') && is_space('\u{3000}'),
        '!' <= c <= '~' ==> !is_space(c),
        !is_space('\u{0}') && !is_space('\u{200b}'),
{
}

/// Numerals are written in the ten digits, one more for every step, the greatest place first.
pub proof fn law_numerals_are_decimal(n: nat, d: nat)
    requires
        d < 10,
    ensures
        numeral(0) == seq!['0'] && numeral(1) == seq!['1'] && numeral(9) == seq!['9'],
        numeral(d).len() == 1 && numeral(d)[0] as int == '0' as int + d,
        n > 0 ==> numeral(10 * n + d) == numeral(n) + numeral(d),
        numeral(n)[0] == '0' ==> n == 0,
    decreases n,
{
    if n > 0 {
        assert((10 * n + d) / 10 == n);
        assert((10 * n + d) % 10 == d);
        assert(numeral(10 * n + d) =~= numeral(n) + numeral(d));
        if n >= 10 {
            law_numerals_are_decimal(n / 10, n % 10);
            lemma_numeral(n / 10);
            assert(numeral(n)[0] == numeral(n / 10)[0]);
        }
    }
}

/// Numbers are read as they are written, with or without a plus in front, up to the greatest that is
/// taken; what holds anything but digits is no number.
pub proof fn law_numbers_are_read_back(n: nat, max: nat, s: Seq<char>, i: int)
    ensures
        n <= max ==> unsigned(numeral(n), max) == Some(n) && unsigned(seq!['+'] + numeral(n), max) == Some(n),
        n > max ==> unsigned(numeral(n), max) is None,
        0 < i < s.len() && !('0' <= s[i] <= '9') ==> unsigned(s, max) is None,
        s.len() == 0 ==> unsigned(s, max) is None,
        s.len() > 0 && s[0] == '-' ==> unsigned(s, max) is None,
{
    lemma_numeral(n);
    let p = seq!['+'] + numeral(n);
    assert(p.skip(1) =~= numeral(n));
    assert(is_digit(numeral(n)[0]));
    if 0 < i < s.len() && !is_digit(s[i]) {
        assert(s.skip(1)[i - 1] == s[i]);
    }
    if s.len() > 0 && s[0] == '-' {
        assert(!is_digit(s[0]));
    }
}

proof fn lemma_order_prefix(front: Seq<char>, a: Seq<char>, b: Seq<char>)
    ensures
        order(front + a, front + b) == order(a, b),
    decreases front.len(),
{
    if front.len() == 0 {
        assert(front + a =~= a);
        assert(front + b =~= b);
    } else {
        lemma_order_prefix(front.skip(1), a, b);
        assert((front + a).skip(1) =~= front.skip(1) + a);
        assert((front + b).skip(1) =~= front.skip(1) + b);
    }
}

/// Strings are ordered by the first character that differs, and a string comes before what it begins.
pub proof fn law_strings_are_ordered_by_the_first_difference(
    front: Seq<char>,
    c: char,
    d: char,
    a: Seq<char>,
    b: Seq<char>,
)
    requires
        c < d,
    ensures
        order(front + (seq![c] + a), front + (seq![d] + b)) < 0,
        order(front + (seq![d] + a), front + (seq![c] + b)) > 0,
        order(front, front + (seq![c] + a)) < 0,
        order(front, front) == 0,
{
    lemma_order_prefix(front, seq![c] + a, seq![d] + b);
    lemma_order_prefix(front, seq![d] + a, seq![c] + b);
    lemma_order_prefix(front, Seq::empty(), seq![c] + a);
    assert(front + Seq::<char>::empty() =~= front);
    lemma_order_total(front, front);
}

/// Text is parted at the first separator: what stands before it holds none, and the two make up the text
/// again. Without one it is not parted.
pub proof fn law_text_is_parted_at_the_first_separator(a: Seq<char>, c: char, b: Seq<char>)
    requires
        forall|i: int| 0 <= i < a.len() ==> #[trigger] a[i] != c,
    ensures
        parted(a + seq![c] + b, c) == Some((a, b)),
        parted(a, c) is None,
{
    let s = a + seq![c] + b;
    lemma_first_at_is(s, c, a.len() as int);
    lemma_first_at_is(a, c, a.len() as int);
    assert(s.take(a.len() as int) =~= a);
    assert(s.skip(a.len() as int + 1) =~= b);
}

/// A prefix is found, and taken off, exactly where the text begins with it.
pub proof fn law_prefixes_are_taken_off(prefix: Seq<char>, rest: Seq<char>, s: Seq<char>)
    ensures
        has_prefix(prefix + rest, prefix),
        without_prefix(prefix + rest, prefix) == Some(rest),
        has_prefix(s, prefix) ==> s == prefix + s.skip(prefix.len() as int),
        without_prefix(s, prefix) matches Some(r) ==> s == prefix + r,
        without_prefix(s, prefix) is None <==> !has_prefix(s, prefix),
{
    assert((prefix + rest).take(prefix.len() as int) =~= prefix);
    assert((prefix + rest).skip(prefix.len() as int) =~= rest);
    if has_prefix(s, prefix) {
        assert(s =~= s.take(prefix.len() as int) + s.skip(prefix.len() as int));
    }
}

proof fn lemma_word_front(s: Seq<char>)
    ensures
        word_len(s) <= s.len(),
        forall|i: int| 0 <= i < word_len(s) ==> !is_space(#[trigger] s[i]),
        word_len(s) < s.len() ==> is_space(s[word_len(s) as int]),
    decreases s.len(),
{
    if s.len() > 0 && !is_space(s[0]) {
        let rest = s.skip(1);
        lemma_word_front(rest);
        assert forall|i: int| 0 <= i < word_len(s) implies !is_space(#[trigger] s[i]) by {
            if i > 0 {
                assert(rest[i - 1] == s[i]);
            }
        }
        if word_len(rest) < rest.len() {
            assert(rest[word_len(rest) as int] == s[word_len(s) as int]);
        }
    }
}

/// Words hold no white space and are never empty; white space in front of them does not matter, and a
/// word ends where white space begins.
pub proof fn law_words_are_parted_by_space(s: Seq<char>, w: Seq<char>, c: char)
    requires
        is_space(c),
        w.len() > 0,
        forall|i: int| 0 <= i < w.len() ==> !is_space(#[trigger] w[i]),
    ensures
        forall|k: int| 0 <= k < words(s).len() ==> (#[trigger] words(s)[k]).len() > 0,
        forall|k: int, i: int|
            0 <= k < words(s).len() && 0 <= i < words(s)[k].len() ==> !is_space(#[trigger] words(s)[k][i]),
        words(seq![c] + s) == words(s),
        words(w + (seq![c] + s)) == seq![w] + words(s),
        words(w) == seq![w],
        words(Seq::<char>::empty()).len() == 0,
{
    lemma_words_solid(s);
    let t = seq![c] + s;
    assert(t.skip(1) =~= s);
    let u = w + t;
    lemma_word_len(u, w.len() as int);
    assert(u.take(w.len() as int) =~= w);
    assert(u.skip(w.len() as int) =~= t);
    assert(!is_space(u[0])) by {
        assert(u[0] == w[0]);
    }
    lemma_word_len(w, w.len() as int);
    assert(w.take(w.len() as int) =~= w);
    assert(w.skip(w.len() as int) =~= Seq::<char>::empty());
    assert(words(Seq::<char>::empty()) =~= Seq::<Seq<char>>::empty());
    assert(!is_space(w[0]));
    assert(words(w) =~= seq![w]);
}

proof fn lemma_words_solid(s: Seq<char>)
    ensures
        forall|k: int| 0 <= k < words(s).len() ==> (#[trigger] words(s)[k]).len() > 0,
        forall|k: int, i: int|
            0 <= k < words(s).len() && 0 <= i < words(s)[k].len() ==> !is_space(#[trigger] words(s)[k][i]),
    decreases s.len(),
{
    if s.len() > 0 {
        if is_space(s[0]) {
            lemma_words_solid(s.skip(1));
            assert(words(s) == words(s.skip(1)));
        } else {
            lemma_word_front(s);
            let k = word_len(s) as int;
            if 0 < k <= s.len() {
                lemma_words_solid(s.skip(k));
                assert(words(s) == seq![s.take(k)] + words(s.skip(k)));
                let rest = words(s.skip(k));
                let all = words(s);
                assert forall|j: int| 0 <= j < all.len() implies (#[trigger] all[j]).len() > 0 by {
                    if j > 0 {
                        assert(all[j] == rest[j - 1]);
                    }
                }
                assert forall|j: int, i: int| 0 <= j < all.len() && 0 <= i < all[j].len() implies !is_space(
                    #[trigger] all[j][i],
                ) by {
                    if j > 0 {
                        assert(all[j] == rest[j - 1]);
                        assert(!is_space(rest[j - 1][i]));
                    } else {
                        assert(all[0][i] == s[i]);
                    }
                }
            } else {
                assert(words(s).len() == 0);
            }
        }
    } else {
        assert(words(s).len() == 0);
    }
}

} // verus!
