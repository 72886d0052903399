use vstd::prelude::*;

verus! {

/// The decimal digit character for `d` (taken modulo ten).
pub open spec fn digit_char(d: nat) -> char {
    let r = d % 10;
    if r == 0 {
        '0'
    } else if r == 1 {
        '1'
    } else if r == 2 {
        '2'
    } else if r == 3 {
        '3'
    } else if r == 4 {
        '4'
    } else if r == 5 {
        '5'
    } else if r == 6 {
        '6'
    } else if r == 7 {
        '7'
    } else if r == 8 {
        '8'
    } else {
        '9'
    }
}

/// The decimal notation of `n`, most significant digit first, without leading zeros.
pub open spec fn decimal_digits(n: nat) -> Seq<char>
    decreases n,
{
    if n < 10 {
        seq![digit_char(n)]
    } else {
        decimal_digits(n / 10).push(digit_char(n % 10))
    }
}

/// The decimal notation of `n`, left-padded with zeros to at least `width` characters
/// (what `{n:0width$}` formats).
pub open spec fn zero_padded(n: nat, width: nat) -> Seq<char> {
    let digits = decimal_digits(n);
    if digits.len() < width {
        Seq::new((width - digits.len()) as nat, |i: int| '0') + digits
    } else {
        digits
    }
}

/// The value of a decimal digit character.
pub open spec fn digit_value(c: char) -> int {
    if c == '0' {
        0
    } else if c == '1' {
        1
    } else if c == '2' {
        2
    } else if c == '3' {
        3
    } else if c == '4' {
        4
    } else if c == '5' {
        5
    } else if c == '6' {
        6
    } else if c == '7' {
        7
    } else if c == '8' {
        8
    } else {
        9
    }
}

/// The value of a decimal numeral, most significant digit first.
pub open spec fn decimal_value(s: Seq<char>) -> int
    decreases s.len(),
{
    if s.len() == 0 {
        0
    } else {
        decimal_value(s.drop_last()) * 10 + digit_value(s.last())
    }
}

/// Reading back the decimal notation of `n` gives `n`.
pub proof fn lemma_decimal_value_of_digits(n: nat)
    ensures
        decimal_value(decimal_digits(n)) == n,
    decreases n,
{
    assert(digit_value(digit_char(n)) == n % 10);
    assert(digit_value(digit_char(n % 10)) == n % 10);
    if n >= 10 {
        lemma_decimal_value_of_digits(n / 10);
        let d = decimal_digits(n);
        assert(d.drop_last() =~= decimal_digits(n / 10));
        assert(d.last() == digit_char(n % 10));
        assert(decimal_value(d) == decimal_value(d.drop_last()) * 10 + digit_value(d.last()));
    } else {
        let d = seq![digit_char(n)];
        assert(d.drop_last() =~= Seq::<char>::empty());
        assert(decimal_value(Seq::<char>::empty()) == 0);
        assert(decimal_value(d) == decimal_value(d.drop_last()) * 10 + digit_value(d.last()));
    }
}

/// Leading zeros do not change the value of a numeral.
pub proof fn lemma_decimal_value_leading_zeros(k: nat, s: Seq<char>)
    ensures
        decimal_value(Seq::new(k, |i: int| '0') + s) == decimal_value(s),
    decreases s.len(), k,
{
    let zeros = Seq::new(k, |i: int| '0');
    if s.len() == 0 {
        assert(zeros + s =~= zeros);
        if k > 0 {
            let fewer = Seq::new((k - 1) as nat, |i: int| '0');
            lemma_decimal_value_leading_zeros((k - 1) as nat, s);
            assert(zeros.drop_last() =~= fewer + s);
        }
    } else {
        lemma_decimal_value_leading_zeros(k, s.drop_last());
        assert((zeros + s).drop_last() =~= zeros + s.drop_last());
    }
}

/// Reading back a zero-padded numeral gives the number.
pub proof fn lemma_decimal_value_of_zero_padded(n: nat, width: nat)
    ensures
        decimal_value(zero_padded(n, width)) == n,
        zero_padded(n, width).len() >= width,
{
    lemma_decimal_value_of_digits(n);
    let digits = decimal_digits(n);
    if digits.len() < width {
        lemma_decimal_value_leading_zeros((width - digits.len()) as nat, digits);
    }
}

/// The one-character string for the digit `d`.
fn digit_str(d: u64) -> (s: &'static str)
    requires
        d < 10,
    ensures
        s@ == seq![digit_char(d as nat)],
{
    proof {
        reveal_strlit("0");
        reveal_strlit("1");
        reveal_strlit("2");
        reveal_strlit("3");
        reveal_strlit("4");
        reveal_strlit("5");
        reveal_strlit("6");
        reveal_strlit("7");
        reveal_strlit("8");
        reveal_strlit("9");
    }
    if d == 0 {
        "0"
    } else if d == 1 {
        "1"
    } else if d == 2 {
        "2"
    } else if d == 3 {
        "3"
    } else if d == 4 {
        "4"
    } else if d == 5 {
        "5"
    } else if d == 6 {
        "6"
    } else if d == 7 {
        "7"
    } else if d == 8 {
        "8"
    } else {
        "9"
    }
}

/// Number of decimal digits of `n`.
pub fn decimal_len(n: u64) -> (len: u64)
    ensures
        len == decimal_digits(n as nat).len(),
        n < 10 ==> len == 1,
        n >= 10 ==> len <= n,
    decreases n,
{
    if n < 10 {
        1
    } else {
        let inner = decimal_len(n / 10);
        proof {
            assert(decimal_digits(n as nat) == decimal_digits((n / 10) as nat).push(
                digit_char((n % 10) as nat),
            ));
        }
        inner + 1
    }
}

/// Appends the decimal notation of `n` to `out`.
pub fn append_decimal(out: &mut String, n: u64)
    ensures
        final(out)@ == old(out)@ + decimal_digits(n as nat),
    decreases n,
{
    if n >= 10 {
        append_decimal(out, n / 10);
    }
    out.append(digit_str(n % 10));
    proof {
        if n >= 10 {
            assert(decimal_digits(n as nat) == decimal_digits((n / 10) as nat).push(
                digit_char((n % 10) as nat),
            ));
            assert(final(out)@ =~= old(out)@ + decimal_digits(n as nat));
        } else {
            assert(final(out)@ =~= old(out)@ + decimal_digits(n as nat));
        }
    }
}

/// Appends the decimal notation of `n`, left-padded with zeros to `width` characters.
pub fn append_zero_padded(out: &mut String, n: u64, width: usize)
    ensures
        final(out)@ == old(out)@ + zero_padded(n as nat, width as nat),
{
    let len = decimal_len(n);
    let ghost start = out@;
    let mut pad: u64 = len;
    let target: u64 = width as u64;
    while pad < target
        invariant
            len <= pad,
            len == decimal_digits(n as nat).len(),
            target == width,
            pad <= width || pad == len,
            out@ == start + Seq::new((pad - len) as nat, |i: int| '0'),
        decreases target - pad,
    {
        proof {
            reveal_strlit("0");
        }
        out.append("0");
        pad = pad + 1;
        assert(out@ =~= start + Seq::new((pad - len) as nat, |i: int| '0'));
    }
    append_decimal(out, n);
    proof {
        let digits = decimal_digits(n as nat);
        if len < width {
            assert(pad == width);
        } else {
            assert(pad == len);
            assert(Seq::new((pad - len) as nat, |i: int| '0') =~= Seq::<char>::empty());
        }
        assert(out@ =~= start + zero_padded(n as nat, width as nat));
    }
}

/// The Unicode `White_Space` property, which `char::is_whitespace` tests.
pub open spec fn is_unicode_whitespace(c: char) -> bool {
    let u = c as u32;
    ||| 0x09 <= u <= 0x0d
    ||| u == 0x20
    ||| u == 0x85
    ||| u == 0xa0
    ||| u == 0x1680
    ||| 0x2000 <= u <= 0x200a
    ||| u == 0x2028
    ||| u == 0x2029
    ||| u == 0x202f
    ||| u == 0x205f
    ||| u == 0x3000
}

/// `s` without its leading whitespace.
pub open spec fn trim_leading(s: Seq<char>) -> Seq<char>
    decreases s.len(),
{
    if s.len() > 0 && is_unicode_whitespace(s[0]) {
        trim_leading(s.drop_first())
    } else {
        s
    }
}

/// `s` without its trailing whitespace.
pub open spec fn trim_trailing(s: Seq<char>) -> Seq<char>
    decreases s.len(),
{
    if s.len() > 0 && is_unicode_whitespace(s.last()) {
        trim_trailing(s.drop_last())
    } else {
        s
    }
}

/// `s` without leading and trailing whitespace.
pub open spec fn trimmed(s: Seq<char>) -> Seq<char> {
    trim_trailing(trim_leading(s))
}

/// Whether `c` has the Unicode `White_Space` property.
pub fn is_whitespace_char(c: char) -> (r: bool)
    ensures
        r == is_unicode_whitespace(c),
{
    let u = c as u32;
    (0x09 <= u && u <= 0x0d) || u == 0x20 || u == 0x85 || u == 0xa0 || u == 0x1680 || (0x2000 <= u
        && u <= 0x200a) || u == 0x2028 || u == 0x2029 || u == 0x202f || u == 0x205f || u == 0x3000
}

/// Dropping a whitespace prefix of length `k`, followed by a character that is not whitespace
/// (or by nothing), is what trimming the leading whitespace does.
proof fn lemma_trim_leading_at(s: Seq<char>, k: int)
    requires
        0 <= k <= s.len(),
        forall|i: int| 0 <= i < k ==> is_unicode_whitespace(#[trigger] s[i]),
        k == s.len() || !is_unicode_whitespace(s[k]),
    ensures
        trim_leading(s) == s.subrange(k, s.len() as int),
    decreases k,
{
    if k == 0 {
        assert(s.subrange(0, s.len() as int) =~= s);
    } else {
        let rest = s.drop_first();
        assert forall|i: int| 0 <= i < k - 1 implies is_unicode_whitespace(#[trigger] rest[i]) by {
            assert(rest[i] == s[i + 1]);
        }
        if k - 1 < rest.len() {
            assert(rest[k - 1] == s[k]);
        }
        lemma_trim_leading_at(rest, k - 1);
        assert(rest.subrange(k - 1, rest.len() as int) =~= s.subrange(k, s.len() as int));
    }
}

/// Keeping a prefix of length `m`, after which only whitespace follows and which does not end
/// in whitespace (or is empty), is what trimming the trailing whitespace does.
proof fn lemma_trim_trailing_at(t: Seq<char>, m: int)
    requires
        0 <= m <= t.len(),
        forall|i: int| m <= i < t.len() ==> is_unicode_whitespace(#[trigger] t[i]),
        m == 0 || !is_unicode_whitespace(t[m - 1]),
    ensures
        trim_trailing(t) == t.subrange(0, m),
    decreases t.len() - m,
{
    if m == t.len() {
        assert(t.subrange(0, m) =~= t);
    } else {
        let rest = t.drop_last();
        assert forall|i: int| m <= i < rest.len() implies is_unicode_whitespace(#[trigger] rest[i]) by {
            assert(rest[i] == t[i]);
        }
        if m > 0 {
            assert(rest[m - 1] == t[m - 1]);
        }
        assert(is_unicode_whitespace(t[t.len() - 1]));
        lemma_trim_trailing_at(rest, m);
        assert(rest.subrange(0, m) =~= t.subrange(0, m));
    }
}

/// `s` without leading and trailing whitespace, whitespace being the Unicode `White_Space`
/// property (what `str::trim` removes).
pub fn trim_whitespace(s: &str) -> (r: &str)
    ensures
        r@ == trimmed(s@),
{
    let n = s.unicode_len();
    let mut start: usize = 0;
    while start < n
        invariant
            n == s@.len(),
            start <= n,
            forall|i: int| 0 <= i < start ==> is_unicode_whitespace(#[trigger] s@[i]),
        ensures
            start <= n,
            forall|i: int| 0 <= i < start ==> is_unicode_whitespace(#[trigger] s@[i]),
            start == n || !is_unicode_whitespace(s@[start as int]),
        decreases n - start,
    {
        if !is_whitespace_char(s.get_char(start)) {
            break;
        }
        start = start + 1;
    }
    let mut end: usize = n;
    while end > start
        invariant
            n == s@.len(),
            start <= end <= n,
            forall|i: int| end <= i < n ==> is_unicode_whitespace(#[trigger] s@[i]),
        ensures
            start <= end <= n,
            forall|i: int| end <= i < n ==> is_unicode_whitespace(#[trigger] s@[i]),
            end == start || !is_unicode_whitespace(s@[end - 1]),
        decreases end,
    {
        if !is_whitespace_char(s.get_char(end - 1)) {
            break;
        }
        end = end - 1;
    }
    proof {
        lemma_trim_leading_at(s@, start as int);
        let t = s@.subrange(start as int, n as int);
        assert forall|i: int| end - start <= i < t.len() implies is_unicode_whitespace(#[trigger] t[i]) by {
            assert(t[i] == s@[start + i]);
        }
        if end > start {
            assert(t[end - start - 1] == s@[end - 1]);
        }
        lemma_trim_trailing_at(t, end - start);
        assert(t.subrange(0, end - start) =~= s@.subrange(start as int, end as int));
    }
    s.substring_char(start, end)
}

/// ASCII lowercase of one character; other characters are kept.
pub open spec fn ascii_lowercase_char(c: char) -> char {
    if 'A' <= c <= 'Z' {
        ((c as u32) + 32) as char
    } else {
        c
    }
}

/// ASCII lowercase of a text (what `str::to_ascii_lowercase` computes).
pub open spec fn ascii_lowercase(s: Seq<char>) -> Seq<char> {
    s.map_values(|c: char| ascii_lowercase_char(c))
}

/// Whether `c` lowercases to the lowercase letter or digit `e`.
fn lowercases_to(c: char, e: char) -> (r: bool)
    requires
        'a' <= e <= 'z' || '0' <= e <= '9',
    ensures
        r == (ascii_lowercase_char(c) == e),
{
    if 'A' <= c && c <= 'Z' {
        (c as u32) + 32 == (e as u32)
    } else {
        c == e
    }
}

/// Whether the ASCII lowercase of `s` is `word`, a word of lowercase letters and digits.
pub fn lowercase_equals(s: &str, word: &[char]) -> (r: bool)
    requires
        forall|i: int| 0 <= i < word@.len() ==> ('a' <= #[trigger] word@[i] <= 'z' || '0' <= word@[i] <= '9'),
    ensures
        r == (ascii_lowercase(s@) == word@),
{
    let n = s.unicode_len();
    if n != word.len() {
        proof {
            assert(ascii_lowercase(s@).len() != word@.len());
        }
        return false;
    }
    let mut i: usize = 0;
    while i < n
        invariant
            n == s@.len(),
            n == word@.len(),
            i <= n,
            forall|j: int| 0 <= j < word@.len() ==> ('a' <= #[trigger] word@[j] <= 'z' || '0' <= word@[j] <= '9'),
            forall|j: int| 0 <= j < i ==> ascii_lowercase_char(s@[j]) == word@[j],
        decreases n - i,
    {
        let c = s.get_char(i);
        if !lowercases_to(c, word[i]) {
            proof {
                assert(ascii_lowercase(s@)[i as int] != word@[i as int]);
            }
            return false;
        }
        i = i + 1;
    }
    proof {
        assert(ascii_lowercase(s@) =~= word@);
    }
    true
}

} // verus!
