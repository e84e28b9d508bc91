//! Text as sequences of characters: white space, trimming, splitting into lines and words, and
//! decimal integers.
use vstd::prelude::*;
use vstd::string::*;

verus! {

/// Unicode's White_Space property, as `char::is_whitespace` documents it.
pub open spec fn spec_is_whitespace(c: char) -> bool {
    let u = c as u32;
    ||| 0x09 <= u <= 0x0d
    ||| u == 0x20
    ||| u == 0x85
    ||| u == 0xa0
    ||| u == 0x1680
    ||| 0x2000 <= u <= 0x200a
    ||| u == 0x2028
    ||| u == 0x2029
    ||| u == 0x202f
    ||| u == 0x205f
    ||| u == 0x3000
}

pub fn is_whitespace(c: char) -> (r: bool)
    ensures
        r == spec_is_whitespace(c),
{
    let u = c as u32;
    (0x09 <= u && u <= 0x0d) || u == 0x20 || u == 0x85 || u == 0xa0 || u == 0x1680 || (0x2000 <= u
        && u <= 0x200a) || u == 0x2028 || u == 0x2029 || u == 0x202f || u == 0x205f || u == 0x3000
}

/// The characters of a string.
pub fn chars_of(s: &str) -> (r: Vec<char>)
    ensures
        r@ == s@,
{
    let n = s.unicode_len();
    let mut r: Vec<char> = Vec::new();
    let mut i: usize = 0;
    while i < n
        invariant
            n == s@.len(),
            i <= n,
            r@ == s@.take(i as int),
        decreases n - i,
    {
        r.push(s.get_char(i));
        proof {
            assert(r@ =~= s@.take(i + 1));
        }
        i += 1;
    }
    assert(r@ =~= s@);
    r
}

/// The number of white-space characters at the start of `s`.
pub open spec fn leading_ws(s: Seq<char>) -> nat
    decreases s.len(),
{
    if s.len() > 0 && spec_is_whitespace(s[0]) {
        1 + leading_ws(s.drop_first())
    } else {
        0
    }
}

/// The number of white-space characters at the end of `s`.
pub open spec fn trailing_ws(s: Seq<char>) -> nat
    decreases s.len(),
{
    if s.len() > 0 && spec_is_whitespace(s.last()) {
        1 + trailing_ws(s.drop_last())
    } else {
        0
    }
}

/// `s` without its leading and trailing white space, as `str::trim` gives it.
pub open spec fn spec_trim(s: Seq<char>) -> Seq<char> {
    let t = s.skip(leading_ws(s) as int);
    t.take(t.len() - trailing_ws(t))
}

proof fn lemma_leading_ws(s: Seq<char>, i: int)
    requires
        0 <= i <= s.len(),
        forall|j: int| 0 <= j < i ==> spec_is_whitespace(#[trigger] s[j]),
        i == s.len() || !spec_is_whitespace(s[i]),
    ensures
        leading_ws(s) == i,
    decreases i,
{
    if i > 0 {
        lemma_leading_ws(s.drop_first(), i - 1);
    }
}

proof fn lemma_trailing_ws(s: Seq<char>, i: int)
    requires
        0 <= i <= s.len(),
        forall|j: int| s.len() - i <= j < s.len() ==> spec_is_whitespace(#[trigger] s[j]),
        i == s.len() || !spec_is_whitespace(s[s.len() - i - 1]),
    ensures
        trailing_ws(s) == i,
    decreases i,
{
    if i > 0 {
        lemma_trailing_ws(s.drop_last(), i - 1);
    }
}

/// `s` without its leading and trailing white space.
pub fn trim(s: &[char]) -> (r: Vec<char>)
    ensures
        r@ == spec_trim(s@),
{
    let n = s.len();
    let mut a: usize = 0;
    while a < n && is_whitespace(s[a])
        invariant
            a <= n == s@.len(),
            forall|j: int| 0 <= j < a ==> spec_is_whitespace(#[trigger] s@[j]),
        decreases n - a,
    {
        a += 1;
    }
    proof {
        lemma_leading_ws(s@, a as int);
    }
    let mut b: usize = n;
    while b > a && is_whitespace(s[b - 1])
        invariant
            a <= b <= n == s@.len(),
            forall|j: int| b <= j < n ==> spec_is_whitespace(#[trigger] s@[j]),
        decreases b - a,
    {
        b -= 1;
    }
    proof {
        let t = s@.skip(a as int);
        assert forall|j: int| t.len() - (n - b) <= j < t.len() implies spec_is_whitespace(#[trigger] t[j]) by {
            assert(t[j] == s@[j + a]);
        }
        if b > a {
            assert(t[t.len() - (n - b) - 1] == s@[b - 1]);
        }
        lemma_trailing_ws(t, (n - b) as int);
    }
    let mut r: Vec<char> = Vec::new();
    let mut i: usize = a;
    while i < b
        invariant
            a <= i <= b <= n == s@.len(),
            r@ == s@.subrange(a as int, i as int),
        decreases b - i,
    {
        r.push(s[i]);
        proof {
            assert(r@ =~= s@.subrange(a as int, i + 1));
        }
        i += 1;
    }
    assert(r@ =~= spec_trim(s@));
    r
}

/// Whether two character sequences are equal.
pub fn chars_eq(a: &[char], b: &[char]) -> (r: bool)
    ensures
        r == (a@ == b@),
{
    if a.len() != b.len() {
        return false;
    }
    let mut i: usize = 0;
    while i < a.len()
        invariant
            i <= a@.len() == b@.len(),
            forall|j: int| 0 <= j < i ==> a@[j] == b@[j],
        decreases a@.len() - i,
    {
        if a[i] != b[i] {
            return false;
        }
        i += 1;
    }
    assert(a@ =~= b@);
    true
}

/// The value of a digit character.
pub open spec fn digit_value(c: char) -> int {
    c as int - '0' as int
}

pub open spec fn is_digit(c: char) -> bool {
    '0' <= c <= '9'
}

/// The number that a nonempty sequence of decimal digits denotes.
pub open spec fn digits_value(s: Seq<char>) -> int
    decreases s.len(),
{
    if s.len() == 0 {
        0
    } else {
        digits_value(s.drop_last()) * 10 + digit_value(s.last())
    }
}

/// `s` is an optional sign followed by at least one decimal digit, as `str::parse` accepts for a
/// signed integer (an unsigned one when `signed` is false, which accepts `+` but not `-`).
pub open spec fn is_decimal(s: Seq<char>, signed: bool) -> bool {
    let body = decimal_body(s, signed);
    body.len() > 0 && forall|j: int| 0 <= j < body.len() ==> is_digit(#[trigger] body[j])
}

/// The digits of a decimal, after its sign if it has one.
pub open spec fn decimal_body(s: Seq<char>, signed: bool) -> Seq<char> {
    if s.len() > 0 && (s[0] == '+' || (signed && s[0] == '-')) {
        s.drop_first()
    } else {
        s
    }
}

/// The value of a decimal as `is_decimal` describes it.
pub open spec fn decimal_value(s: Seq<char>) -> int {
    if s.len() > 0 && s[0] == '-' {
        -digits_value(s.drop_first())
    } else if s.len() > 0 && s[0] == '+' {
        digits_value(s.drop_first())
    } else {
        digits_value(s)
    }
}

/// Parses a decimal integer in `lo..=hi` as `str::parse` does for a Rust integer type with that
/// range: `None` where the text is not a decimal or its value is out of range.
pub fn parse_decimal(s: &[char], lo: i128, hi: i128) -> (r: Option<i128>)
    requires
        lo <= 0 <= hi,
        -0x8000_0000_0000_0000 <= lo,
        hi <= 0xffff_ffff_ffff_ffff,
    ensures
        r matches Some(v) ==> is_decimal(s@, lo < 0) && v == decimal_value(s@) && lo <= v <= hi,
        r is None ==> !(is_decimal(s@, lo < 0) && lo <= decimal_value(s@) <= hi),
{
    let n = s.len();
    let mut start: usize = 0;
    let mut neg = false;
    if n > 0 && (s[0] == '+' || (lo < 0 && s[0] == '-')) {
        start = 1;
        neg = s[0] == '-';
    }
    let ghost body = s@.skip(start as int);
    proof {
        if start == 1 {
            assert(body =~= s@.drop_first());
        } else {
            assert(body =~= s@);
        }
        assert(body == decimal_body(s@, lo < 0));
    }
    if start >= n {
        return None;
    }
    let mut v: i128 = 0;
    let mut i: usize = start;
    while i < n
        invariant
            start <= i <= n == s@.len(),
            start < n,
            body == s@.skip(start as int),
            body == decimal_body(s@, lo < 0),
            (start == 1) == (n > 0 && (s@[0] == '+' || (lo < 0 && s@[0] == '-'))),
            start == 0 || start == 1,
            neg == (start == 1 && s@[0] == '-'),
            forall|j: int| start <= j < i ==> is_digit(#[trigger] s@[j]),
            v == digits_value(s@.subrange(start as int, i as int)),
            0 <= v <= 0xffff_ffff_ffff_ffff,
            lo <= 0 <= hi,
            -0x8000_0000_0000_0000 <= lo,
            hi <= 0xffff_ffff_ffff_ffff,
        decreases n - i,
    {
        let c = s[i];
        if !('0' <= c && c <= '9') {
            proof {
                assert(body[i - start] == s@[i as int]);
                assert(!is_digit(body[i - start]));
            }
            return None;
        }
        let d = (c as u32 - '0' as u32) as i128;
        proof {
            assert(s@.subrange(start as int, i + 1).drop_last() =~= s@.subrange(start as int, i as int));
        }
        let nv = v * 10 + d;
        if nv > 0xffff_ffff_ffff_ffff {
            proof {
                if is_decimal(s@, lo < 0) {
                    assert(s@.subrange(start as int, i + 1) =~= body.take(i + 1 - start));
                    lemma_digits_grow(body, (i + 1 - start) as int);
                }
            }
            return None;
        }
        v = nv;
        i += 1;
    }
    proof {
        assert(s@.subrange(start as int, n as int) =~= body);
        if start == 1 {
            assert(body =~= s@.drop_first());
        } else {
            assert(body =~= s@);
        }
    }
    let value: i128 = if neg { -v } else { v };
    if value < lo || value > hi {
        return None;
    }
    Some(value)
}

/// A decimal without a minus sign is not negative.
pub proof fn lemma_unsigned_decimal_nonneg(s: Seq<char>)
    requires
        is_decimal(s, false),
    ensures
        decimal_value(s) >= 0,
{
    let body = decimal_body(s, false);
    if s.len() > 0 && s[0] == '+' {
        assert(body =~= s.drop_first());
    } else {
        assert(body == s);
        assert(s[0] != '-') by {
            assert(is_digit(body[0]));
        }
    }
    lemma_digits_nonneg(body);
}

proof fn lemma_digits_nonneg(s: Seq<char>)
    requires
        forall|j: int| 0 <= j < s.len() ==> is_digit(#[trigger] s[j]),
    ensures
        digits_value(s) >= 0,
    decreases s.len(),
{
    if s.len() > 0 {
        lemma_digits_nonneg(s.drop_last());
    }
}

/// Where the first `k` digits already denote more than the bound, all of them do.
proof fn lemma_digits_grow(s: Seq<char>, k: int)
    requires
        0 < k <= s.len(),
        forall|j: int| 0 <= j < s.len() ==> is_digit(#[trigger] s[j]),
    ensures
        digits_value(s.take(k)) <= digits_value(s),
    decreases s.len() - k,
{
    if k < s.len() {
        lemma_digits_grow(s, k + 1);
        assert(s.take(k + 1).drop_last() =~= s.take(k));
        lemma_digits_nonneg(s.take(k));
    } else {
        assert(s.take(k) =~= s);
    }
}

/// The character of a decimal digit.
pub open spec fn digit_char(d: int) -> char {
    (d + '0' as int) as char
}

/// The decimal text of a natural number, without leading zeros.
pub open spec fn nat_text(n: nat) -> Seq<char>
    decreases n,
{
    if n < 10 {
        seq![digit_char(n as int)]
    } else {
        nat_text(n / 10) + seq![digit_char((n % 10) as int)]
    }
}

/// The decimal text of an integer, with a minus sign when it is negative.
pub open spec fn int_text(i: int) -> Seq<char> {
    if i < 0 {
        seq!['-'] + nat_text((-i) as nat)
    } else {
        nat_text(i as nat)
    }
}

/// The decimal text of a natural number is a nonempty run of digits that denotes the number.
pub proof fn lemma_nat_text_digits(n: nat)
    ensures
        nat_text(n).len() > 0,
        forall|j: int| 0 <= j < nat_text(n).len() ==> is_digit(#[trigger] nat_text(n)[j]),
        digits_value(nat_text(n)) == n,
    decreases n,
{
    if n < 10 {
        assert(seq![digit_char(n as int)].drop_last() =~= Seq::<char>::empty());
        assert(digit_value(digit_char(n as int)) == n);
        assert(digits_value(Seq::<char>::empty()) == 0);
        assert(digits_value(nat_text(n)) == digits_value(Seq::<char>::empty()) * 10 + digit_value(digit_char(n as int)));
    } else {
        lemma_nat_text_digits(n / 10);
        let t = nat_text(n / 10);
        let c = digit_char((n % 10) as int);
        assert((t + seq![c]).drop_last() =~= t);
        assert(digit_value(c) == n % 10);
        assert(digits_value(nat_text(n)) == digits_value(t) * 10 + digit_value(c));
        assert((n / 10) * 10 + n % 10 == n) by (nonlinear_arith);
        assert forall|j: int| 0 <= j < nat_text(n).len() implies is_digit(#[trigger] nat_text(n)[j]) by {
            if j < t.len() {
                assert(nat_text(n)[j] == t[j]);
            }
        }
    }
}

/// The decimal text of an integer reads back, as a signed decimal, as that integer; it holds
/// nothing but digits and a minus sign.
pub proof fn lemma_int_text_reads(i: int)
    ensures
        is_decimal(int_text(i), true),
        decimal_value(int_text(i)) == i,
        forall|j: int| 0 <= j < int_text(i).len() ==> #[trigger] int_text(i)[j] == '-' || is_digit(int_text(i)[j]),
{
    if i < 0 {
        let t = nat_text((-i) as nat);
        lemma_nat_text_digits((-i) as nat);
        let s = seq!['-'] + t;
        assert(s.drop_first() =~= t);
        assert(decimal_body(s, true) == t);
        assert forall|j: int| 0 <= j < s.len() implies #[trigger] s[j] == '-' || is_digit(s[j]) by {
            if j > 0 {
                assert(s[j] == t[j - 1]);
            }
        }
    } else {
        lemma_nat_text_digits(i as nat);
        let s = nat_text(i as nat);
        assert(is_digit(s[0]));
        assert(decimal_body(s, true) == s);
    }
}

fn digit_of(d: u64) -> (c: char)
    requires
        d < 10,
    ensures
        c == digit_char(d as int),
{
    match d {
        0 => '0',
        1 => '1',
        2 => '2',
        3 => '3',
        4 => '4',
        5 => '5',
        6 => '6',
        7 => '7',
        8 => '8',
        _ => '9',
    }
}

/// The decimal text of `n`.
pub fn decimal_chars(n: u64) -> (r: Vec<char>)
    ensures
        r@ == nat_text(n as nat),
    decreases n,
{
    let c = digit_of(n % 10);
    if n < 10 {
        let mut r: Vec<char> = Vec::new();
        r.push(c);
        assert(r@ =~= nat_text(n as nat));
        r
    } else {
        let mut r = decimal_chars(n / 10);
        r.push(c);
        assert(r@ =~= nat_text(n as nat));
        r
    }
}

/// The decimal text of `i`.
pub fn signed_decimal_chars(i: i64) -> (r: Vec<char>)
    ensures
        r@ == int_text(i as int),
{
    if i < 0 {
        let m: u64 = if i == i64::MIN {
            0x8000_0000_0000_0000u64
        } else {
            (-i) as u64
        };
        let digits = decimal_chars(m);
        let mut r: Vec<char> = Vec::new();
        r.push('-');
        let mut k: usize = 0;
        while k < digits.len()
            invariant
                k <= digits@.len(),
                r@ == seq!['-'] + digits@.take(k as int),
            decreases digits@.len() - k,
        {
            r.push(digits[k]);
            proof {
                assert(r@ =~= seq!['-'] + digits@.take(k + 1));
            }
            k += 1;
        }
        assert(digits@.take(digits@.len() as int) =~= digits@);
        r
    } else {
        decimal_chars(i as u64)
    }
}

/// Appends the characters of `b` to `a`.
pub fn extend_chars(a: &mut Vec<char>, b: &Vec<char>)
    ensures
        final(a)@ == old(a)@ + b@,
{
    let mut k: usize = 0;
    while k < b.len()
        invariant
            k <= b@.len(),
            a@ == old(a)@ + b@.take(k as int),
        decreases b@.len() - k,
    {
        a.push(b[k]);
        proof {
            assert(a@ =~= old(a)@ + b@.take(k + 1));
        }
        k += 1;
    }
    assert(b@.take(b@.len() as int) =~= b@);
}

/// The rows of a vector of character vectors.
pub open spec fn rows_view(v: Seq<Vec<char>>) -> Seq<Seq<char>> {
    v.map_values(|x: Vec<char>| x@)
}

/// A line without the carriage return of its `\r\n` ending.
pub open spec fn strip_cr(l: Seq<char>) -> Seq<char> {
    if l.len() > 0 && l.last() == '\r' {
        l.drop_last()
    } else {
        l
    }
}

/// The lines of `s`, where the line being read so far is `cur`: as `str::lines` gives them,
/// split at `\n` or `\r\n`, with the last line ending optional.
pub open spec fn lines_from(s: Seq<char>, cur: Seq<char>) -> Seq<Seq<char>>
    decreases s.len(),
{
    if s.len() == 0 {
        if cur.len() == 0 {
            seq![]
        } else {
            seq![cur]
        }
    } else if s[0] == '\n' {
        seq![strip_cr(cur)] + lines_from(s.drop_first(), seq![])
    } else {
        lines_from(s.drop_first(), cur.push(s[0]))
    }
}

pub open spec fn spec_lines(s: Seq<char>) -> Seq<Seq<char>> {
    lines_from(s, seq![])
}

/// The words of `s`, where the word being read so far is `cur`: as `str::split_whitespace` gives
/// them, the maximal runs of characters that are not white space.
pub open spec fn words_from(s: Seq<char>, cur: Seq<char>) -> Seq<Seq<char>>
    decreases s.len(),
{
    if s.len() == 0 {
        if cur.len() == 0 {
            seq![]
        } else {
            seq![cur]
        }
    } else if spec_is_whitespace(s[0]) {
        (if cur.len() == 0 {
            seq![]
        } else {
            seq![cur]
        }) + words_from(s.drop_first(), seq![])
    } else {
        words_from(s.drop_first(), cur.push(s[0]))
    }
}

pub open spec fn spec_words(s: Seq<char>) -> Seq<Seq<char>> {
    words_from(s, seq![])
}

proof fn lemma_rows_push(v: Seq<Vec<char>>, x: Vec<char>)
    ensures
        rows_view(v.push(x)) == rows_view(v).push(x@),
{
    assert(rows_view(v.push(x)) =~= rows_view(v).push(x@));
}

/// The lines of `s`.
pub fn lines(s: &[char]) -> (r: Vec<Vec<char>>)
    ensures
        rows_view(r@) == spec_lines(s@),
{
    let mut out: Vec<Vec<char>> = Vec::new();
    let mut cur: Vec<char> = Vec::new();
    let mut i: usize = 0;
    assert(s@.skip(0) =~= s@);
    while i < s.len()
        invariant
            i <= s.len(),
            rows_view(out@) + lines_from(s@.skip(i as int), cur@) == spec_lines(s@),
        decreases s.len() - i,
    {
        let ghost rest = s@.skip(i as int);
        assert(rest.drop_first() =~= s@.skip(i + 1));
        assert(rest[0] == s@[i as int]);
        if s[i] == '\n' {
            let mut line = cur;
            if line.len() > 0 && line[line.len() - 1] == '\r' {
                let _ = line.pop();
            }
            assert(line@ == strip_cr(cur@));
            proof {
                lemma_rows_push(out@, line);
            }
            out.push(line);
            cur = Vec::new();
            assert(rows_view(out@) + lines_from(s@.skip(i + 1), cur@) =~= spec_lines(s@));
        } else {
            cur.push(s[i]);
        }
        i = i + 1;
    }
    assert(s@.skip(i as int) =~= Seq::<char>::empty());
    if cur.len() > 0 {
        proof {
            lemma_rows_push(out@, cur);
        }
        out.push(cur);
        assert(rows_view(out@) =~= spec_lines(s@));
    } else {
        assert(rows_view(out@) =~= spec_lines(s@));
    }
    out
}

/// The words of `s`.
pub fn words(s: &[char]) -> (r: Vec<Vec<char>>)
    ensures
        rows_view(r@) == spec_words(s@),
{
    let mut out: Vec<Vec<char>> = Vec::new();
    let mut cur: Vec<char> = Vec::new();
    let mut i: usize = 0;
    assert(s@.skip(0) =~= s@);
    while i < s.len()
        invariant
            i <= s.len(),
            rows_view(out@) + words_from(s@.skip(i as int), cur@) == spec_words(s@),
        decreases s.len() - i,
    {
        let ghost rest = s@.skip(i as int);
        assert(rest.drop_first() =~= s@.skip(i + 1));
        assert(rest[0] == s@[i as int]);
        if is_whitespace(s[i]) {
            let ghost old_out = rows_view(out@);
            let ghost old_cur = cur@;
            let ghost tail = words_from(s@.skip(i + 1), seq![]);
            assert(words_from(rest, old_cur) == (if old_cur.len() == 0 {
                Seq::<Seq<char>>::empty()
            } else {
                seq![old_cur]
            }) + tail);
            if cur.len() > 0 {
                proof {
                    lemma_rows_push(out@, cur);
                }
                out.push(cur);
                cur = Vec::new();
                assert(rows_view(out@) + tail =~= old_out + (seq![old_cur] + tail));
            } else {
                assert(old_out + (Seq::<Seq<char>>::empty() + tail) =~= old_out + tail);
            }
            assert(cur@ =~= Seq::<char>::empty());
        } else {
            cur.push(s[i]);
        }
        i = i + 1;
    }
    assert(s@.skip(i as int) =~= Seq::<char>::empty());
    if cur.len() > 0 {
        proof {
            lemma_rows_push(out@, cur);
        }
        out.push(cur);
        assert(rows_view(out@) =~= spec_words(s@));
    } else {
        assert(rows_view(out@) =~= spec_words(s@));
    }
    out
}

/// `s` ends with `suffix`.
pub open spec fn ends_with(s: Seq<char>, suffix: Seq<char>) -> bool {
    suffix.len() <= s.len() && s.skip(s.len() - suffix.len()) == suffix
}

/// `pat` occurs somewhere in `s`.
pub open spec fn has_infix(s: Seq<char>, pat: Seq<char>) -> bool {
    exists|i: int| 0 <= i && i + pat.len() <= s.len() && #[trigger] s.subrange(i, i + pat.len()) == pat
}

/// The characters of `s` from `at` on are those of `pat`, as far as `pat` goes.
fn matches_at(s: &Vec<char>, pat: &Vec<char>, at: usize) -> (r: bool)
    requires
        at + pat@.len() <= s@.len(),
    ensures
        r == (s@.subrange(at as int, at + pat@.len()) == pat@),
{
    let n = s.len();
    let mut k: usize = 0;
    while k < pat.len()
        invariant
            k <= pat@.len(),
            n == s@.len(),
            at + pat@.len() <= s@.len(),
            forall|j: int| 0 <= j < k ==> s@[at + j] == pat@[j],
        decreases pat@.len() - k,
    {
        assert(at + k < n);
        if s[at + k] != pat[k] {
            assert(s@.subrange(at as int, at + pat@.len())[k as int] != pat@[k as int]);
            return false;
        }
        k += 1;
    }
    assert(s@.subrange(at as int, at + pat@.len()) =~= pat@);
    true
}

/// Whether `s` ends with `suffix`.
pub fn ends_with_chars(s: &Vec<char>, suffix: &Vec<char>) -> (r: bool)
    ensures
        r == ends_with(s@, suffix@),
{
    if suffix.len() > s.len() {
        return false;
    }
    let at = s.len() - suffix.len();
    let r = matches_at(s, suffix, at);
    assert(s@.subrange(at as int, at + suffix@.len()) =~= s@.skip(at as int));
    r
}

/// Whether `pat` occurs somewhere in `s`.
pub fn has_infix_chars(s: &Vec<char>, pat: &Vec<char>) -> (r: bool)
    ensures
        r == has_infix(s@, pat@),
{
    if pat.len() > s.len() {
        return false;
    }
    let last = s.len() - pat.len();
    let mut i: usize = 0;
    loop
        invariant
            pat@.len() <= s@.len(),
            last == s@.len() - pat@.len(),
            i <= last,
            forall|j: int| 0 <= j < i ==> #[trigger] s@.subrange(j, j + pat@.len()) != pat@,
        decreases last - i,
    {
        if matches_at(s, pat, i) {
            return true;
        }
        if i == last {
            return false;
        }
        i += 1;
    }
}

/// The string of the characters, by `FromIterator<&char>` for `String`, whose documentation
/// says it collects the characters in order.
#[verifier::external_body]
pub(crate) fn string_from_chars(v: &Vec<char>) -> (r: String)
    ensures
        r@ == v@,
{
    v.iter().collect()
}

} // verus!
