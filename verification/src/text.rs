use vstd::prelude::*;
use vstd::string::StrSliceExecFns;
use vstd::string::StringExecFns;

verus! {

/// The characters of a setting's value, where the environment sets it.
pub open spec fn setting_view(raw: Option<&str>) -> Option<Seq<char>> {
    match raw {
        Some(s) => Some(s@),
        None => None,
    }
}

/// The characters that Unicode classes as white space (what `char::is_whitespace` accepts).
pub open spec fn is_white(c: char) -> bool {
    let u = c as u32;
    ||| 0x9 <= u <= 0xD
    ||| u == 0x20
    ||| u == 0x85
    ||| u == 0xA0
    ||| u == 0x1680
    ||| 0x2000 <= u <= 0x200A
    ||| u == 0x2028
    ||| u == 0x2029
    ||| u == 0x202F
    ||| u == 0x205F
    ||| u == 0x3000
}

/// How many white-space characters `s` starts with.
pub open spec fn leading_white(s: Seq<char>) -> nat
    decreases s.len(),
{
    if s.len() > 0 && is_white(s[0]) {
        1 + leading_white(s.drop_first())
    } else {
        0
    }
}

/// How many white-space characters `s` ends with.
pub open spec fn trailing_white(s: Seq<char>) -> nat
    decreases s.len(),
{
    if s.len() > 0 && is_white(s.last()) {
        1 + trailing_white(s.drop_last())
    } else {
        0
    }
}

/// `s` without its leading and trailing white space, as `str::trim` gives it.
pub open spec fn trim(s: Seq<char>) -> Seq<char> {
    let t = s.skip(leading_white(s) as int);
    t.take(t.len() - trailing_white(t))
}

/// The code of `c` with an ASCII capital letter read as its small letter.
pub open spec fn lower_code(c: char) -> u32 {
    if 'A' <= c <= 'Z' {
        ((c as u32) + 32) as u32
    } else {
        c as u32
    }
}

/// `s` is `word` once its ASCII capitals are made small (what comparing
/// `s.to_ascii_lowercase()` with `word` decides).
pub open spec fn same_ignoring_case(s: Seq<char>, word: Seq<char>) -> bool {
    &&& s.len() == word.len()
    &&& forall|i: int| 0 <= i < s.len() ==> lower_code(#[trigger] s[i]) == word[i] as u32
}

/// A setting names `word` when, trimmed and in small letters, it is `word`.
pub open spec fn names_word(s: Seq<char>, word: Seq<char>) -> bool {
    same_ignoring_case(trim(s), word)
}

pub fn is_whitespace(c: char) -> (b: bool)
    ensures
        b == is_white(c),
{
    let u = c as u32;
    (0x9 <= u && u <= 0xD) || u == 0x20 || u == 0x85 || u == 0xA0 || u == 0x1680 || (0x2000 <= u
        && u <= 0x200A) || u == 0x2028 || u == 0x2029 || u == 0x202F || u == 0x205F || u == 0x3000
}

/// The characters of `s`.
pub fn chars_of(s: &str) -> (r: Vec<char>)
    ensures
        r@ == s@,
{
    let n = s.unicode_len();
    let mut r: Vec<char> = Vec::new();
    let mut i: usize = 0;
    while i < n
        invariant
            n == s@.len(),
            i <= n,
            r@ == s@.take(i as int),
        decreases n - i,
    {
        let c = s.get_char(i);
        r.push(c);
        i = i + 1;
        assert(r@ =~= s@.take(i as int));
    }
    assert(s@.take(n as int) =~= s@);
    r
}

proof fn lemma_leading_step(s: Seq<char>, i: int)
    requires
        0 <= i < s.len(),
        is_white(s[i]),
    ensures
        leading_white(s.skip(i)) == 1 + leading_white(s.skip(i + 1)),
{
    assert(s.skip(i).drop_first() =~= s.skip(i + 1));
}

proof fn lemma_trailing_step(t: Seq<char>, j: int)
    requires
        0 < j <= t.len(),
        is_white(t[j - 1]),
    ensures
        trailing_white(t.take(j)) == 1 + trailing_white(t.take(j - 1)),
{
    assert(t.take(j).drop_last() =~= t.take(j - 1));
}

/// The bounds `(start, end)` of `trim(s)` within `s`.
pub fn trim_bounds(s: &[char]) -> (r: (usize, usize))
    ensures
        r.0 <= r.1 <= s@.len(),
        s@.subrange(r.0 as int, r.1 as int) == trim(s@),
{
    let n = s.len();
    let mut i: usize = 0;
    assert(s@.skip(0) =~= s@);
    while i < n && is_whitespace(s[i])
        invariant
            n == s@.len(),
            i <= n,
            i + leading_white(s@.skip(i as int)) == leading_white(s@),
        decreases n - i,
    {
        proof {
            lemma_leading_step(s@, i as int);
        }
        i = i + 1;
    }
    assert(leading_white(s@.skip(i as int)) == 0);
    let ghost t = s@.skip(i as int);
    let mut j: usize = n;
    assert(t.take(n - i) =~= t);
    while j > i && is_whitespace(s[j - 1])
        invariant
            n == s@.len(),
            i <= j <= n,
            t == s@.skip(i as int),
            (n - j) + trailing_white(t.take(j - i)) == trailing_white(t),
        decreases j,
    {
        proof {
            assert(t[j - i - 1] == s@[j - 1]);
            lemma_trailing_step(t, j - i);
        }
        j = j - 1;
    }
    proof {
        assert(t.take(t.len() as int) =~= t);
        assert(trailing_white(t.take(j - i)) == 0);
        assert(s@.subrange(i as int, j as int) =~= t.take(t.len() - trailing_white(t)));
    }
    (i, j)
}

/// Whether `s[start..end]`, with ASCII capitals read as small letters, is `word`.
pub fn matches_ignoring_case(s: &[char], start: usize, end: usize, word: &[char]) -> (b: bool)
    requires
        start <= end <= s@.len(),
    ensures
        b == same_ignoring_case(s@.subrange(start as int, end as int), word@),
{
    let ghost part = s@.subrange(start as int, end as int);
    if end - start != word.len() {
        return false;
    }
    let mut k: usize = 0;
    while k < word.len()
        invariant
            start <= end <= s@.len(),
            end - start == word@.len(),
            part == s@.subrange(start as int, end as int),
            k <= word@.len(),
            forall|m: int| 0 <= m < k ==> lower_code(#[trigger] part[m]) == word@[m] as u32,
        decreases word@.len() - k,
    {
        let c = s[start + k];
        let w = word[k];
        let code = if 'A' <= c && c <= 'Z' {
            (c as u32) + 32
        } else {
            c as u32
        };
        proof {
            assert(part[k as int] == c);
            assert(word@[k as int] == w);
        }
        if code != w as u32 {
            return false;
        }
        k = k + 1;
    }
    true
}

/// A word that neither starts nor ends with white space is its own trim.
pub proof fn lemma_trim_unpadded(w: Seq<char>)
    requires
        w.len() > 0,
        !is_white(w[0]),
        !is_white(w.last()),
    ensures
        trim(w) == w,
{
    assert(w.skip(0) =~= w);
    assert(w.take(w.len() as int) =~= w);
}

/// `s` with its ASCII capitals made small (what `to_ascii_lowercase` gives).
pub open spec fn ascii_lower(s: Seq<char>) -> Seq<char> {
    s.map_values(|c: char| if 'A' <= c <= 'Z' { ((c as u32) + 32) as char } else { c })
}

proof fn lemma_leading_stops(s: Seq<char>)
    ensures
        leading_white(s) <= s.len(),
        leading_white(s) < s.len() ==> !is_white(s[leading_white(s) as int]),
    decreases s.len(),
{
    if s.len() > 0 && is_white(s[0]) {
        lemma_leading_stops(s.drop_first());
    }
}

proof fn lemma_trailing_stops(s: Seq<char>)
    ensures
        trailing_white(s) <= s.len(),
        trailing_white(s) < s.len() ==> !is_white(s[s.len() - 1 - trailing_white(s)]),
    decreases s.len(),
{
    if s.len() > 0 && is_white(s.last()) {
        lemma_trailing_stops(s.drop_last());
    }
}

/// A trimmed string neither starts nor ends with white space.
pub proof fn lemma_trim_ends(s: Seq<char>)
    ensures
        trim(s).len() > 0 ==> !is_white(trim(s)[0]) && !is_white(trim(s).last()),
{
    let u = s.skip(leading_white(s) as int);
    lemma_leading_stops(s);
    lemma_trailing_stops(u);
    let t = trim(s);
    if t.len() > 0 {
        assert(t[0] == u[0]);
        assert(u[0] == s[leading_white(s) as int]);
        assert(t.last() == u[u.len() - 1 - trailing_white(u)]);
    }
}

/// The value of a string of decimal digits.
pub open spec fn digits_value(d: Seq<char>) -> nat
    decreases d.len(),
{
    if d.len() == 0 {
        0
    } else {
        digits_value(d.drop_last()) * 10 + ((d.last() as u32) - ('0' as u32)) as nat
    }
}

pub open spec fn is_digit(c: char) -> bool {
    '0' <= c <= '9'
}

pub open spec fn all_digits(d: Seq<char>) -> bool {
    forall|i: int| 0 <= i < d.len() ==> is_digit(#[trigger] d[i])
}

/// What `str::parse::<u32>` gives for `s`: an optional `+`, then one or more
/// decimal digits whose value fits in a `u32`.
pub open spec fn parse_u32(s: Seq<char>) -> Option<u32> {
    let d = if s.len() > 0 && s[0] == '+' {
        s.drop_first()
    } else {
        s
    };
    if d.len() == 0 || !all_digits(d) || digits_value(d) > u32::MAX {
        None
    } else {
        Some(digits_value(d) as u32)
    }
}

proof fn lemma_prefix_value_grows(d: Seq<char>, k: int)
    requires
        all_digits(d),
        0 <= k <= d.len(),
    ensures
        digits_value(d.take(k)) <= digits_value(d),
    decreases d.len() - k,
{
    if k < d.len() {
        lemma_prefix_value_grows(d, k + 1);
        assert(d.take(k + 1).drop_last() =~= d.take(k));
    } else {
        assert(d.take(k) =~= d);
    }
}

/// Parses `s[start..end]` as `str::parse::<u32>` does.
pub fn parse_u32_in(s: &[char], start: usize, end: usize) -> (r: Option<u32>)
    requires
        start <= end <= s@.len(),
    ensures
        r == parse_u32(s@.subrange(start as int, end as int)),
{
    let ghost part = s@.subrange(start as int, end as int);
    let mut i = start;
    if i < end && s[i] == '+' {
        i = i + 1;
    }
    let ghost d = s@.subrange(i as int, end as int);
    proof {
        if part.len() > 0 && part[0] == '+' {
            assert(d =~= part.drop_first());
        } else {
            assert(d =~= part);
        }
        assert(parse_u32(part) == (if d.len() == 0 || !all_digits(d) || digits_value(d) > u32::MAX {
            None
        } else {
            Some(digits_value(d) as u32)
        }));
    }
    if i == end {
        return None;
    }
    let mut acc: u64 = 0;
    let mut k = i;
    while k < end
        invariant
            start <= i <= k <= end <= s@.len(),
            d == s@.subrange(i as int, end as int),
            part == s@.subrange(start as int, end as int),
            parse_u32(part) == (if d.len() == 0 || !all_digits(d) || digits_value(d) > u32::MAX {
                None
            } else {
                Some(digits_value(d) as u32)
            }),
            all_digits(d.take(k - i)),
            acc == digits_value(d.take(k - i)),
            acc <= u32::MAX,
        decreases end - k,
    {
        let c = s[k];
        proof {
            assert(d[k - i] == c);
            assert(d.take(k - i + 1).drop_last() =~= d.take(k - i));
        }
        if !('0' <= c && c <= '9') {
            proof {
                assert(!is_digit(d[k - i]));
                assert(!all_digits(d));
                assert(parse_u32(part) is None);
            }
            return None;
        }
        acc = acc * 10 + ((c as u32) - ('0' as u32)) as u64;
        k = k + 1;
        proof {
            assert(all_digits(d.take(k - i)));
        }
        if acc > 0xFFFF_FFFF {
            proof {
                if all_digits(d) {
                    lemma_prefix_value_grows(d, k - i);
                    assert(digits_value(d) > u32::MAX);
                }
                assert(parse_u32(part) is None);
            }
            return None;
        }
    }
    proof {
        assert(d.take(k - i) =~= d);
    }
    Some(acc as u32)
}

/// The decimal digit for `d < 10`.
pub open spec fn digit_char(d: nat) -> char {
    (('0' as u32) + d) as char
}

/// The decimal numeral of `n`, without leading zeros.
pub open spec fn decimal(n: nat) -> Seq<char>
    decreases n,
{
    if n < 10 {
        seq![digit_char(n)]
    } else {
        decimal(n / 10) + seq![digit_char(n % 10)]
    }
}

fn digit_str(d: u64) -> (s: &'static str)
    requires
        d < 10,
    ensures
        s@ == seq![digit_char(d as nat)],
{
    proof {
        reveal_strlit("0");
        reveal_strlit("1");
        reveal_strlit("2");
        reveal_strlit("3");
        reveal_strlit("4");
        reveal_strlit("5");
        reveal_strlit("6");
        reveal_strlit("7");
        reveal_strlit("8");
        reveal_strlit("9");
    }
    if d == 0 {
        "0"
    } else if d == 1 {
        "1"
    } else if d == 2 {
        "2"
    } else if d == 3 {
        "3"
    } else if d == 4 {
        "4"
    } else if d == 5 {
        "5"
    } else if d == 6 {
        "6"
    } else if d == 7 {
        "7"
    } else if d == 8 {
        "8"
    } else {
        "9"
    }
}

/// Appends the decimal numeral of `n` to `out`, as `format!("{}", n)` writes it.
pub fn push_decimal(out: &mut String, n: u64)
    ensures
        final(out)@ == old(out)@ + decimal(n as nat),
    decreases n,
{
    if n >= 10 {
        push_decimal(out, n / 10);
    }
    let ghost mid = out@;
    out.append(digit_str(n % 10));
    proof {
        if n >= 10 {
            assert(final(out)@ =~= old(out)@ + decimal(n as nat));
        } else {
            assert(final(out)@ =~= old(out)@ + decimal(n as nat));
        }
    }
}

proof fn lemma_decimal_digits(n: nat)
    ensures
        all_digits(decimal(n)),
        decimal(n).len() > 0,
        decimal(n)[0] != '+',
        digits_value(decimal(n)) == n,
    decreases n,
{
    let d = decimal(n);
    if n >= 10 {
        lemma_decimal_digits(n / 10);
        assert(d.drop_last() =~= decimal(n / 10));
        assert(d[0] == decimal(n / 10)[0]);
        assert(d.last() == digit_char(n % 10));
        assert((digit_char(n % 10) as u32) - ('0' as u32) == n % 10);
        assert(digits_value(d) == digits_value(decimal(n / 10)) * 10 + n % 10);
        assert(n == (n / 10) * 10 + n % 10);
        assert(digits_value(d) == n);
    } else {
        assert(d.drop_last() =~= Seq::<char>::empty());
        assert((digit_char(n) as u32) - ('0' as u32) == n);
        assert(digits_value(d.drop_last()) == 0);
        assert(digits_value(d) == n);
    }
}

/// Reading back the numeral that `push_decimal` writes gives the number.
pub proof fn law_parse_reads_decimal(n: u32)
    ensures
        parse_u32(decimal(n as nat)) == Some(n),
{
    lemma_decimal_digits(n as nat);
}

} // verus!
