//! Text format of a marker bank: one marker per line, its radius ratios
//! separated by whitespace, each written either `a/b` (two unsigned
//! integers) or as a decimal number. This module checks the text and
//! splits it into values; turning the values into floating-point ratios is
//! the caller's part.

use vstd::prelude::*;
use vstd::string::*;

verus! {

/// `std::io::Error`, carried opaque in [`BankError::Io`]; nothing is
/// claimed of it.
#[verifier::external_type_specification]
#[verifier::external_body]
pub struct ExIoError(std::io::Error);

/// Why a bank could not be built.
#[derive(Debug)]
pub enum BankError {
    /// The bank file could not be read.
    Io(std::io::Error),
    /// Token `token` on line `line` (1-based) is neither `a/b` with two
    /// `u32`s nor a decimal number.
    Parse { line: usize, token: String },
    /// There is no built-in bank for this number of crowns.
    UnsupportedCrowns(usize),
}

/// One radius ratio as written in the bank text.
#[derive(Debug)]
pub enum BankValue {
    /// `a/b`.
    Ratio(u32, u32),
    /// A decimal number, kept as its text.
    Decimal(String),
}

/// Unicode `White_Space`, the separator between the values of a line.
pub open spec fn is_space(c: char) -> bool {
    ||| '\u{9}' <= c <= '\u{d}'
    ||| c == ' '
    ||| c == '\u{85}'
    ||| c == '\u{a0}'
    ||| c == '\u{1680}'
    ||| '\u{2000}' <= c <= '\u{200a}'
    ||| c == '\u{2028}'
    ||| c == '\u{2029}'
    ||| c == '\u{202f}'
    ||| c == '\u{205f}'
    ||| c == '\u{3000}'
}

pub open spec fn is_digit(c: char) -> bool {
    '0' <= c <= '9'
}

pub open spec fn all_digits(t: Seq<char>) -> bool {
    forall|i: int| 0 <= i < t.len() ==> is_digit(#[trigger] t[i])
}

/// The number written by the decimal digits `t`.
pub open spec fn digits_value(t: Seq<char>) -> nat
    decreases t.len(),
{
    if t.len() == 0 {
        0
    } else {
        digits_value(t.drop_last()) * 10 + ((t.last() as u32 - '0' as u32) as nat)
    }
}

/// `t` without one leading `+`.
pub open spec fn strip_plus(t: Seq<char>) -> Seq<char> {
    if t.len() > 0 && t[0] == '+' {
        t.drop_first()
    } else {
        t
    }
}

/// `t` without one leading `+` or `-`.
pub open spec fn strip_sign(t: Seq<char>) -> Seq<char> {
    if t.len() > 0 && (t[0] == '+' || t[0] == '-') {
        t.drop_first()
    } else {
        t
    }
}

/// What reading `t` as a `u32` gives: an optional `+`, then at least one
/// digit, and a value that fits.
pub open spec fn u32_text(t: Seq<char>) -> Option<u32> {
    let d = strip_plus(t);
    if d.len() > 0 && all_digits(d) && digits_value(d) <= u32::MAX {
        Some(digits_value(d) as u32)
    } else {
        None
    }
}

/// Index of the first `c` in `t`, or `t.len()`.
pub open spec fn find_char(t: Seq<char>, c: char) -> nat
    decreases t.len(),
{
    if t.len() == 0 || t[0] == c {
        0
    } else {
        1 + find_char(t.drop_first(), c)
    }
}

/// `c` is the lower-case ASCII letter `w`, in either case.
pub open spec fn same_letter(c: char, w: char) -> bool {
    c == w || ('A' <= c <= 'Z' && c as u32 + 32 == w as u32)
}

/// `t` equals `w` up to ASCII case (`w` in lower case).
pub open spec fn eq_ignore_case(t: Seq<char>, w: Seq<char>) -> bool {
    t.len() == w.len() && forall|i: int| 0 <= i < t.len() ==> same_letter(#[trigger] t[i], w[i])
}

/// `inf`, `infinity` or `nan`, in any case.
pub open spec fn special_float(u: Seq<char>) -> bool {
    ||| eq_ignore_case(u, seq!['i', 'n', 'f'])
    ||| eq_ignore_case(u, seq!['i', 'n', 'f', 'i', 'n', 'i', 't', 'y'])
    ||| eq_ignore_case(u, seq!['n', 'a', 'n'])
}

/// `Digit+ | Digit+ '.' Digit* | Digit* '.' Digit+`.
pub open spec fn mantissa_text(m: Seq<char>) -> bool {
    let d = find_char(m, '.');
    if d == m.len() {
        m.len() > 0 && all_digits(m)
    } else {
        all_digits(m.take(d as int)) && all_digits(m.skip(d + 1int)) && m.len() > 1
    }
}

/// Empty, or `e` (any case), an optional sign and at least one digit.
pub open spec fn exponent_text(x: Seq<char>) -> bool {
    x.len() == 0 || ((x[0] == 'e' || x[0] == 'E') && strip_sign(x.drop_first()).len() > 0
        && all_digits(strip_sign(x.drop_first())))
}

pub open spec fn first_exp(u: Seq<char>) -> nat {
    let a = find_char(u, 'e');
    let b = find_char(u, 'E');
    if a <= b {
        a
    } else {
        b
    }
}

/// The decimal grammar of `f64::from_str`: an optional sign, then `inf`,
/// `infinity`, `nan` or a mantissa with an optional exponent.
pub open spec fn float_text(t: Seq<char>) -> bool {
    let u = strip_sign(t);
    let e = first_exp(u);
    special_float(u) || (mantissa_text(u.take(e as int)) && exponent_text(u.skip(e as int)))
}

/// The text before the first `/` of `t`.
pub open spec fn ratio_num(t: Seq<char>) -> Seq<char> {
    t.take(find_char(t, '/') as int)
}

/// The text after the first `/` of `t`.
pub open spec fn ratio_den(t: Seq<char>) -> Seq<char> {
    t.skip(find_char(t, '/') + 1int)
}

pub open spec fn has_slash(t: Seq<char>) -> bool {
    find_char(t, '/') < t.len()
}

/// A value token is `a/b` with two `u32`s, or, without `/`, a decimal.
pub open spec fn token_ok(t: Seq<char>) -> bool {
    if has_slash(t) {
        u32_text(ratio_num(t)) is Some && u32_text(ratio_den(t)) is Some
    } else {
        float_text(t)
    }
}

/// `v` is what the token `t` reads as.
pub open spec fn value_of_token(v: BankValue, t: Seq<char>) -> bool {
    match v {
        BankValue::Ratio(a, b) => has_slash(t) && u32_text(ratio_num(t)) == Some(a) && u32_text(
            ratio_den(t),
        ) == Some(b),
        BankValue::Decimal(s) => !has_slash(t) && float_text(t) && s@ == t,
    }
}

/// Length of the run of non-space characters that starts `t`.
pub open spec fn word_len(t: Seq<char>) -> nat
    decreases t.len(),
{
    if t.len() == 0 || is_space(t[0]) {
        0
    } else {
        1 + word_len(t.drop_first())
    }
}

/// The whitespace-separated words of `t`, in order.
pub open spec fn words(t: Seq<char>) -> Seq<Seq<char>>
    decreases t.len(),
{
    if t.len() == 0 {
        seq![]
    } else if is_space(t[0]) {
        words(t.drop_first())
    } else {
        let n = word_len(t);
        proof {
            lemma_word_len_bounds(t);
        }
        seq![t.take(n as int)] + words(t.skip(n as int))
    }
}

/// The segments of `t` between line feeds, in order (a last segment
/// after the final line feed included, though it may be empty).
pub open spec fn split_lines(t: Seq<char>) -> Seq<Seq<char>>
    decreases t.len(),
{
    let n = find_char(t, '\n');
    if n >= t.len() {
        seq![t]
    } else {
        seq![t.take(n as int)] + split_lines(t.skip(n + 1int))
    }
}

/// Every value token of every line is well formed.
pub open spec fn lines_ok(ls: Seq<Seq<char>>) -> bool {
    forall|k: int, j: int|
        0 <= k < ls.len() && 0 <= j < words(ls[k]).len() ==> token_ok(#[trigger] words(ls[k])[j])
}

/// The words of each line that has any, in order: one entry per marker.
pub open spec fn bank_entries(ls: Seq<Seq<char>>) -> Seq<Seq<Seq<char>>>
    decreases ls.len(),
{
    if ls.len() == 0 {
        seq![]
    } else if words(ls.last()).len() > 0 {
        bank_entries(ls.drop_last()).push(words(ls.last()))
    } else {
        bank_entries(ls.drop_last())
    }
}

/// `vs` reads the words `ws` one for one.
pub open spec fn values_of_words(vs: Seq<BankValue>, ws: Seq<Seq<char>>) -> bool {
    vs.len() == ws.len() && forall|j: int| 0 <= j < ws.len() ==> value_of_token(#[trigger] vs[j], ws[j])
}

/// `vs` reads the entries `es` one for one.
pub open spec fn values_of_entries(vs: Seq<Vec<BankValue>>, es: Seq<Seq<Seq<char>>>) -> bool {
    vs.len() == es.len() && forall|i: int| 0 <= i < es.len() ==> values_of_words(#[trigger] vs[i]@, es[i])
}

/// Word `j` of `ws` is the first one that is not well formed.
pub open spec fn first_bad_word(ws: Seq<Seq<char>>, j: int) -> bool {
    &&& 0 <= j < ws.len()
    &&& !token_ok(ws[j])
    &&& forall|j2: int| 0 <= j2 < j ==> token_ok(#[trigger] ws[j2])
}

/// The first malformed token of `t`, in reading order, is word `j` of
/// line `k` (both 0-based).
pub open spec fn first_bad_token(t: Seq<char>, k: int, j: int) -> bool {
    let ls = split_lines(t);
    &&& 0 <= k < ls.len()
    &&& lines_ok(ls.take(k))
    &&& first_bad_word(words(ls[k]), j)
}

pub proof fn lemma_word_len_bounds(t: Seq<char>)
    ensures
        word_len(t) <= t.len(),
        t.len() > 0 && !is_space(t[0]) ==> word_len(t) >= 1,
    decreases t.len(),
{
    if t.len() > 0 && !is_space(t[0]) {
        lemma_word_len_bounds(t.drop_first());
    }
}

/// A characterisation of `word_len` by its properties.
proof fn lemma_word_len_unique(t: Seq<char>, k: int)
    requires
        0 <= k <= t.len(),
        k < t.len() ==> is_space(t[k]),
        forall|i: int| 0 <= i < k ==> !is_space(t[i]),
    ensures
        word_len(t) == k,
    decreases t.len(),
{
    if k > 0 {
        let u = t.drop_first();
        assert forall|i: int| 0 <= i < k - 1 implies !is_space(u[i]) by {
            assert(u[i] == t[i + 1]);
        }
        lemma_word_len_unique(u, k - 1);
    }
}

proof fn lemma_find_char_props(t: Seq<char>, c: char)
    ensures
        find_char(t, c) <= t.len(),
        find_char(t, c) < t.len() ==> t[find_char(t, c) as int] == c,
        forall|i: int| 0 <= i < find_char(t, c) ==> t[i] != c,
    decreases t.len(),
{
    if t.len() > 0 && t[0] != c {
        lemma_find_char_props(t.drop_first(), c);
        assert forall|i: int| 0 <= i < find_char(t, c) implies t[i] != c by {
            if i > 0 {
                assert(t[i] == t.drop_first()[i - 1]);
            }
        }
    }
}

/// A characterisation of `find_char` by its properties.
proof fn lemma_find_char_unique(t: Seq<char>, c: char, k: int)
    requires
        0 <= k <= t.len(),
        k < t.len() ==> t[k] == c,
        forall|i: int| 0 <= i < k ==> t[i] != c,
    ensures
        find_char(t, c) == k,
{
    lemma_find_char_props(t, c);
    let f = find_char(t, c) as int;
    if f < k {
        assert(t[f] != c);
    } else if f > k {
        assert(t[k] != c);
    }
}

/// Index of the first `c` in `s[a..b]`, counted from `a`.
pub(crate) fn find_in(s: &Vec<char>, a: usize, b: usize, c: char) -> (k: usize)
    requires
        a <= b <= s.len(),
    ensures
        a <= k <= b,
        k - a == find_char(s@.subrange(a as int, b as int), c),
{
    let mut k = a;
    while k < b
        invariant
            a <= k <= b <= s.len(),
            forall|i: int| a <= i < k ==> s@[i] != c,
        ensures
            a <= k <= b,
            k < b ==> s@[k as int] == c,
            forall|i: int| a <= i < k ==> s@[i] != c,
        decreases b - k,
    {
        if s[k] == c {
            break;
        }
        k = k + 1;
    }
    proof {
        lemma_find_char_unique(s@.subrange(a as int, b as int), c, (k - a) as int);
    }
    k
}

proof fn lemma_digits_value_step(t: Seq<char>, k: int)
    requires
        0 <= k < t.len(),
    ensures
        digits_value(t.take(k + 1)) == digits_value(t.take(k)) * 10 + ((t[k] as u32 - '0' as u32) as nat),
{
    assert(t.take(k + 1).drop_last() =~= t.take(k));
}

/// `s[a..b]` read as a `u32`.
fn parse_u32_in(s: &Vec<char>, a: usize, b: usize) -> (r: Option<u32>)
    requires
        a <= b <= s.len(),
    ensures
        r == u32_text(s@.subrange(a as int, b as int)),
{
    let ghost t = s@.subrange(a as int, b as int);
    let mut start = a;
    if a < b && s[a] == '+' {
        start = a + 1;
    }
    let ghost d = s@.subrange(start as int, b as int);
    assert(d =~= strip_plus(t));
    if start == b {
        return None;
    }
    let mut acc: u64 = 0;
    let mut k = start;
    while k < b
        invariant
            start <= k <= b <= s.len(),
            d == s@.subrange(start as int, b as int),
            d == strip_plus(t),
            t == s@.subrange(a as int, b as int),
            d.len() > 0,
            all_digits(d.take(k - start)),
            digits_value(d.take(k - start)) <= u32::MAX ==> acc == digits_value(d.take(k - start)),
            digits_value(d.take(k - start)) > u32::MAX ==> acc > u32::MAX,
            acc <= (u32::MAX as u64) * 10 + 9,
        decreases b - k,
    {
        let c = s[k];
        if !('0' <= c && c <= '9') {
            proof {
                assert(d[k - start] == c);
                assert(!is_digit(d[k - start]));
                assert(!all_digits(d));
                assert(u32_text(t) is None);
            }
            return None;
        }
        let dig = (c as u32 - '0' as u32) as u64;
        proof {
            lemma_digits_value_step(d, k - start);
            assert(d[k - start] == c);
            assert forall|i: int| 0 <= i < k + 1 - start implies is_digit(
                #[trigger] d.take(k + 1 - start)[i],
            ) by {
                if i < k - start {
                    assert(d.take(k + 1 - start)[i] == d.take(k - start)[i]);
                }
            }
        }
        if acc <= u32::MAX as u64 {
            acc = acc * 10 + dig;
        } else {
            proof {
                let v = digits_value(d.take(k - start));
                assert(v * 10 + dig >= v) by (nonlinear_arith)
                    requires v >= 0, dig >= 0;
            }
        }
        k = k + 1;
    }
    proof {
        assert(d.take(k - start) =~= d);
    }
    if acc <= u32::MAX as u64 {
        Some(acc as u32)
    } else {
        None
    }
}

fn all_digits_in(s: &Vec<char>, a: usize, b: usize) -> (r: bool)
    requires
        a <= b <= s.len(),
    ensures
        r == all_digits(s@.subrange(a as int, b as int)),
{
    let mut k = a;
    while k < b
        invariant
            a <= k <= b <= s.len(),
            forall|i: int| a <= i < k ==> is_digit(s@[i]),
        decreases b - k,
    {
        let c = s[k];
        if !('0' <= c && c <= '9') {
            proof {
                assert(s@.subrange(a as int, b as int)[k - a] == c);
            }
            return false;
        }
        k = k + 1;
    }
    proof {
        assert forall|i: int| 0 <= i < b - a implies is_digit(
            #[trigger] s@.subrange(a as int, b as int)[i],
        ) by {
            assert(s@.subrange(a as int, b as int)[i] == s@[a + i]);
        }
    }
    true
}

/// `s[a..b]` equals the lower-case word `w` up to ASCII case.
fn eq_ignore_case_in(s: &Vec<char>, a: usize, b: usize, w: &[char]) -> (r: bool)
    requires
        a <= b <= s.len(),
    ensures
        r == eq_ignore_case(s@.subrange(a as int, b as int), w@),
{
    let ghost t = s@.subrange(a as int, b as int);
    if b - a != w.len() {
        return false;
    }
    let mut k: usize = 0;
    while k < w.len()
        invariant
            a <= b <= s.len(),
            b - a == w.len(),
            k <= w.len(),
            t == s@.subrange(a as int, b as int),
            forall|i: int| 0 <= i < k ==> same_letter(#[trigger] t[i], w@[i]),
        decreases w.len() - k,
    {
        let c = s[a + k];
        let l = w[k];
        let same = if 'A' <= c && c <= 'Z' {
            c == l || (c as u32) + 32 == l as u32
        } else {
            c == l
        };
        proof {
            assert(t[k as int] == c);
        }
        if !same {
            return false;
        }
        k = k + 1;
    }
    true
}

/// `s[a..b]` is a mantissa.
fn mantissa_in(s: &Vec<char>, a: usize, b: usize) -> (r: bool)
    requires
        a <= b <= s.len(),
    ensures
        r == mantissa_text(s@.subrange(a as int, b as int)),
{
    let ghost m = s@.subrange(a as int, b as int);
    let d = find_in(s, a, b, '.');
    if d == b {
        a < b && all_digits_in(s, a, b)
    } else {
        proof {
            assert(m.take(d - a) =~= s@.subrange(a as int, d as int));
            assert(m.skip(d - a + 1) =~= s@.subrange(d + 1, b as int));
        }
        let left = all_digits_in(s, a, d);
        let right = all_digits_in(s, d + 1, b);
        left && right && b - a > 1
    }
}

/// `s[a..b]` is empty or an exponent.
fn exponent_in(s: &Vec<char>, a: usize, b: usize) -> (r: bool)
    requires
        a <= b <= s.len(),
    ensures
        r == exponent_text(s@.subrange(a as int, b as int)),
{
    let ghost x = s@.subrange(a as int, b as int);
    if a == b {
        return true;
    }
    if !(s[a] == 'e' || s[a] == 'E') {
        return false;
    }
    let mut st = a + 1;
    if st < b && (s[st] == '+' || s[st] == '-') {
        st = st + 1;
    }
    proof {
        assert(strip_sign(x.drop_first()) =~= s@.subrange(st as int, b as int));
    }
    st < b && all_digits_in(s, st, b)
}

/// `s[a..b]` is accepted by `f64::from_str`.
fn float_in(s: &Vec<char>, a: usize, b: usize) -> (r: bool)
    requires
        a <= b <= s.len(),
    ensures
        r == float_text(s@.subrange(a as int, b as int)),
{
    let ghost t = s@.subrange(a as int, b as int);
    let mut start = a;
    if a < b && (s[a] == '+' || s[a] == '-') {
        start = a + 1;
    }
    let ghost u = s@.subrange(start as int, b as int);
    assert(u =~= strip_sign(t));
    let inf = ['i', 'n', 'f'];
    let infinity = ['i', 'n', 'f', 'i', 'n', 'i', 't', 'y'];
    let nan = ['n', 'a', 'n'];
    assert(inf@ =~= seq!['i', 'n', 'f']);
    assert(infinity@ =~= seq!['i', 'n', 'f', 'i', 'n', 'i', 't', 'y']);
    assert(nan@ =~= seq!['n', 'a', 'n']);
    if eq_ignore_case_in(s, start, b, &inf) || eq_ignore_case_in(s, start, b, &infinity)
        || eq_ignore_case_in(s, start, b, &nan) {
        return true;
    }
    let ea = find_in(s, start, b, 'e');
    let eb = find_in(s, start, b, 'E');
    let e = if ea <= eb {
        ea
    } else {
        eb
    };
    proof {
        assert(u.take(e - start) =~= s@.subrange(start as int, e as int));
        assert(u.skip(e - start) =~= s@.subrange(e as int, b as int));
    }
    mantissa_in(s, start, e) && exponent_in(s, e, b)
}

/// The characters of `text`, in order.
pub(crate) fn chars_of(text: &str) -> (v: Vec<char>)
    ensures
        v@ == text@,
{
    let mut v: Vec<char> = Vec::new();
    for c in it: text.chars()
        invariant
            v@ == it.history(),
    {
        v.push(c);
    }
    v
}

/// The token `s[a..b]` of `text` (whose characters are `s`), on line
/// `k + 1`.
fn read_token(text: &str, s: &Vec<char>, a: usize, b: usize, k: usize) -> (r: Result<
    BankValue,
    BankError,
>)
    requires
        a < b <= s.len(),
        s@ == text@,
        k <= a,
    ensures
        ({
            let t = s@.subrange(a as int, b as int);
            match r {
                Ok(v) => token_ok(t) && value_of_token(v, t),
                Err(BankError::Parse { line, token }) => !token_ok(t) && line == k + 1 && token@ == t,
                Err(_) => false,
            }
        }),
{
    let ghost t = s@.subrange(a as int, b as int);
    let sl = find_in(s, a, b, '/');
    if sl < b {
        proof {
            assert(ratio_num(t) =~= s@.subrange(a as int, sl as int));
            assert(ratio_den(t) =~= s@.subrange(sl + 1, b as int));
        }
        let num = parse_u32_in(s, a, sl);
        let den = parse_u32_in(s, sl + 1, b);
        match (num, den) {
            (Some(x), Some(y)) => Ok(BankValue::Ratio(x, y)),
            _ => Err(BankError::Parse { line: k + 1, token: String::from_str(text.substring_char(a, b)) }),
        }
    } else if float_in(s, a, b) {
        Ok(BankValue::Decimal(String::from_str(text.substring_char(a, b))))
    } else {
        Err(BankError::Parse { line: k + 1, token: String::from_str(text.substring_char(a, b)) })
    }
}

proof fn lemma_words_space(t: Seq<char>)
    requires
        t.len() > 0,
        is_space(t[0]),
    ensures
        words(t) == words(t.drop_first()),
{
}

/// The values of line `s[a..b]`, which is line `k + 1` of `text`.
fn read_line(text: &str, s: &Vec<char>, a: usize, b: usize, k: usize) -> (r: Result<
    Vec<BankValue>,
    BankError,
>)
    requires
        a <= b <= s.len(),
        s@ == text@,
        k <= a,
    ensures
        ({
            let ws = words(s@.subrange(a as int, b as int));
            match r {
                Ok(vs) => (forall|j: int| 0 <= j < ws.len() ==> token_ok(#[trigger] ws[j]))
                    && values_of_words(vs@, ws),
                Err(BankError::Parse { line, token }) => line == k + 1 && exists|j: int|
                    first_bad_word(ws, j) && token@ == #[trigger] ws[j],
                Err(_) => false,
            }
        }),
{
    let ghost all = words(s@.subrange(a as int, b as int));
    let ghost mut done: Seq<Seq<char>> = seq![];
    let mut vs: Vec<BankValue> = Vec::new();
    let mut q = a;
    while q < b
        invariant
            a <= q <= b <= s.len(),
            s@ == text@,
            k <= a,
            all == words(s@.subrange(a as int, b as int)),
            all == done + words(s@.subrange(q as int, b as int)),
            forall|j: int| 0 <= j < done.len() ==> token_ok(#[trigger] done[j]),
            values_of_words(vs@, done),
        decreases b - q,
    {
        let ghost rest = s@.subrange(q as int, b as int);
        if is_space_char(s[q]) {
            proof {
                assert(rest[0] == s@[q as int]);
                assert(rest.drop_first() =~= s@.subrange(q + 1, b as int));
                lemma_words_space(rest);
            }
            q = q + 1;
        } else {
            let mut e = q + 1;
            while e < b
                invariant
                    q < e <= b <= s.len(),
                    forall|i: int| q <= i < e ==> !is_space(s@[i]),
                ensures
                    q < e <= b,
                    e < b ==> is_space(s@[e as int]),
                    forall|i: int| q <= i < e ==> !is_space(s@[i]),
                decreases b - e,
            {
                if is_space_char(s[e]) {
                    break;
                }
                e = e + 1;
            }
            proof {
                assert(rest[0] == s@[q as int]);
                assert forall|i: int| 0 <= i < e - q implies !is_space(rest[i]) by {
                    assert(rest[i] == s@[q + i]);
                }
                if e < b {
                    assert(rest[e - q] == s@[e as int]);
                }
                lemma_word_len_unique(rest, e - q);
                assert(rest.take(e - q) =~= s@.subrange(q as int, e as int));
                assert(rest.skip(e - q) =~= s@.subrange(e as int, b as int));
                assert(words(rest) == seq![s@.subrange(q as int, e as int)] + words(
                    s@.subrange(e as int, b as int),
                ));
                assert(all == done.push(s@.subrange(q as int, e as int)) + words(
                    s@.subrange(e as int, b as int),
                ));
                assert(all[done.len() as int] == s@.subrange(q as int, e as int));
            }
            match read_token(text, s, q, e, k) {
                Ok(v) => {
                    vs.push(v);
                    proof {
                        done = done.push(s@.subrange(q as int, e as int));
                    }
                },
                Err(err) => {
                    proof {
                        assert(first_bad_word(all, done.len() as int));
                    }
                    return Err(err);
                },
            }
            q = e;
        }
    }
    proof {
        assert(s@.subrange(q as int, b as int).len() == 0);
        assert(all =~= done);
    }
    Ok(vs)
}

/// `c` is Unicode white space.
fn is_space_char(c: char) -> (r: bool)
    ensures
        r == is_space(c),
{
    ('\u{9}' <= c && c <= '\u{d}') || c == ' ' || c == '\u{85}' || c == '\u{a0}' || c == '\u{1680}'
        || ('\u{2000}' <= c && c <= '\u{200a}') || c == '\u{2028}' || c == '\u{2029}'
        || c == '\u{202f}' || c == '\u{205f}' || c == '\u{3000}'
}

proof fn lemma_entries_push(ls: Seq<Seq<char>>, l: Seq<char>)
    ensures
        bank_entries(ls.push(l)) == if words(l).len() > 0 {
            bank_entries(ls).push(words(l))
        } else {
            bank_entries(ls)
        },
{
    assert(ls.push(l).drop_last() =~= ls);
}

/// Splits a bank text into its markers: one entry per line that holds any
/// value, each value read as `a/b` or kept as decimal text.
///
/// Fails on the first token, in reading order, that is neither two `u32`s
/// around a `/` nor a number in the decimal grammar, with its 1-based line.
pub fn parse_bank_values(text: &str) -> (r: Result<Vec<Vec<BankValue>>, BankError>)
    ensures
        match r {
            Ok(v) => lines_ok(split_lines(text@)) && values_of_entries(
                v@,
                bank_entries(split_lines(text@)),
            ),
            Err(BankError::Parse { line, token }) => exists|j: int|
                first_bad_token(text@, line - 1, j) && token@ == #[trigger] words(
                    split_lines(text@)[line - 1],
                )[j],
            Err(_) => false,
        },
{
    let s = chars_of(text);
    let ghost all = split_lines(s@);
    let ghost mut done: Seq<Seq<char>> = seq![];
    let mut out: Vec<Vec<BankValue>> = Vec::new();
    let mut pos: usize = 0;
    let mut k: usize = 0;
    proof {
        assert(s@.skip(0) =~= s@);
        assert(done + split_lines(s@) =~= split_lines(s@));
    }
    loop
        invariant
            pos <= s.len(),
            s@ == text@,
            all == split_lines(s@),
            all == done + split_lines(s@.skip(pos as int)),
            k == done.len(),
            k <= pos,
            lines_ok(done),
            values_of_entries(out@, bank_entries(done)),
        decreases s.len() - pos,
    {
        let end = find_in(&s, pos, s.len(), '\n');
        let ghost rest = s@.skip(pos as int);
        proof {
            assert(rest =~= s@.subrange(pos as int, s.len() as int));
        }
        let line = read_line(text, &s, pos, end, k);
        let ghost cur = s@.subrange(pos as int, end as int);
        proof {
            if end < s.len() {
                assert(rest.take(end - pos) =~= cur);
                assert(rest.skip(end - pos + 1) =~= s@.skip(end + 1));
                assert(split_lines(rest) == seq![cur] + split_lines(s@.skip(end + 1)));
                assert(all == done.push(cur) + split_lines(s@.skip(end + 1)));
            } else {
                assert(rest =~= cur);
                assert(split_lines(rest) == seq![cur]);
                assert(all == done.push(cur));
            }
            assert(all[k as int] == cur);
            assert(all.take(k as int) =~= done);
        }
        match line {
            Ok(vs) => {
                proof {
                    lemma_entries_push(done, cur);
                    let nd = done.push(cur);
                    assert forall|kk: int, j: int|
                        0 <= kk < nd.len() && 0 <= j < words(nd[kk]).len() implies token_ok(
                        #[trigger] words(nd[kk])[j],
                    ) by {
                        if kk < done.len() {
                            assert(nd[kk] == done[kk]);
                        }
                    }
                }
                if vs.len() > 0 {
                    out.push(vs);
                }
                proof {
                    done = done.push(cur);
                }
                if end == s.len() {
                    proof {
                        assert(all =~= done);
                    }
                    return Ok(out);
                }
                pos = end + 1;
                k = k + 1;
            },
            Err(err) => {
                proof {
                    assert(s@ == text@);
                }
                return Err(err);
            },
        }
    }
}

} // verus!
