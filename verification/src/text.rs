//! Text building blocks: character sequences, decimal numbers and escaping.

use vstd::prelude::*;
use vstd::string::*;
use vstd::std_specs::iter::IteratorSpec;

verus! {

/// The characters of `s`, in order.
pub fn chars_of(s: &str) -> (v: Vec<char>)
    ensures
        v@ == s@,
{
    broadcast use {vstd::string::axiom_spec_iter, vstd::string::next_postcondition};
    let mut v: Vec<char> = Vec::new();
    let mut it = s.chars();
    loop
        invariant
            v@ + it.remaining() == s@,
            it.decrease() is Some,
        ensures
            v@ == s@,
        decreases it.decrease()->0,
    {
        let ghost before = it.remaining();
        match it.next() {
            Some(c) => {
                v.push(c);
                assert(v@ + it.remaining() =~= s@) by {
                    assert(before == seq![c] + before.drop_first());
                }
            },
            None => {
                assert(v@ =~= s@);
                break;
            },
        }
    }
    v
}

/// A string holding exactly the characters of `v` (`FromIterator<&char>` for `String`).
#[verifier::external_body]
pub(crate) fn string_of(v: &Vec<char>) -> (s: String)
    ensures
        s@ == v@,
{
    v.iter().collect()
}

/// Appends one character (`String::push`).
#[verifier::external_body]
pub(crate) fn push_char(s: &mut String, c: char)
    ensures
        final(s)@ == old(s)@.push(c),
{
    s.push(c)
}

/// Appends a string slice.
pub fn push_str(s: &mut String, t: &str)
    ensures
        final(s)@ == old(s)@ + t@,
{
    s.append(t);
}

/// The character of a decimal digit.
pub open spec fn digit_char(d: int) -> char {
    if d == 0 { '0' }
    else if d == 1 { '1' }
    else if d == 2 { '2' }
    else if d == 3 { '3' }
    else if d == 4 { '4' }
    else if d == 5 { '5' }
    else if d == 6 { '6' }
    else if d == 7 { '7' }
    else if d == 8 { '8' }
    else { '9' }
}

pub fn digit(d: u8) -> (c: char)
    requires
        d < 10,
    ensures
        c == digit_char(d as int),
{
    if d == 0 { '0' }
    else if d == 1 { '1' }
    else if d == 2 { '2' }
    else if d == 3 { '3' }
    else if d == 4 { '4' }
    else if d == 5 { '5' }
    else if d == 6 { '6' }
    else if d == 7 { '7' }
    else if d == 8 { '8' }
    else { '9' }
}

/// The decimal representation of `n`, without leading zeros.
pub open spec fn dec(n: nat) -> Seq<char>
    decreases n,
{
    if n < 10 {
        seq![digit_char(n as int)]
    } else {
        dec(n / 10).push(digit_char((n % 10) as int))
    }
}

/// The last `width` decimal digits of `n`, padded with leading zeros.
pub open spec fn dec_padded(n: nat, width: nat) -> Seq<char>
    decreases width,
{
    if width == 0 {
        seq![]
    } else {
        dec_padded(n / 10, (width - 1) as nat).push(digit_char((n % 10) as int))
    }
}

/// Appends the decimal representation of `n`.
pub fn push_decimal(out: &mut String, n: u128)
    ensures
        final(out)@ == old(out)@ + dec(n as nat),
    decreases n,
{
    if n >= 10 {
        push_decimal(out, n / 10);
    }
    push_char(out, digit((n % 10) as u8));
    assert(dec(n as nat) =~= if n < 10 { seq![digit_char(n as int)] } else { dec((n / 10) as nat).push(digit_char((n % 10) as int)) });
}

/// Appends the last `width` decimal digits of `n`, zero padded.
pub fn push_decimal_padded(out: &mut String, n: u128, width: u32)
    ensures
        final(out)@ == old(out)@ + dec_padded(n as nat, width as nat),
    decreases width,
{
    if width > 0 {
        push_decimal_padded(out, n / 10, width - 1);
        push_char(out, digit((n % 10) as u8));
    }
}

/// The decimal text of `n`.
pub fn decimal(n: u128) -> (s: String)
    ensures
        s@ == dec(n as nat),
{
    let mut s = String::new();
    push_decimal(&mut s, n);
    s
}

/// `f` applied to each character of `s`, the results joined.
pub open spec fn flat_map(s: Seq<char>, f: spec_fn(char) -> Seq<char>) -> Seq<char>
    decreases s.len(),
{
    if s.len() == 0 {
        seq![]
    } else {
        flat_map(s.drop_last(), f) + f(s.last())
    }
}

/// `flat_map` from the front: the first character's text, then the rest's.
pub proof fn lemma_flat_map_front(v: Seq<char>, f: spec_fn(char) -> Seq<char>)
    requires
        v.len() > 0,
    ensures
        flat_map(v, f) == f(v[0]) + flat_map(v.drop_first(), f),
    decreases v.len(),
{
    if v.len() == 1 {
        assert(v.drop_last() =~= Seq::<char>::empty());
        assert(v.drop_first() =~= Seq::<char>::empty());
        assert(flat_map(v.drop_last(), f) =~= Seq::<char>::empty());
        assert(v.last() == v[0]);
        assert(flat_map(v, f) =~= f(v[0]));
    } else {
        lemma_flat_map_front(v.drop_last(), f);
        assert(v.drop_last().drop_first() =~= v.drop_first().drop_last());
        assert(v.drop_first().last() == v.last());
        assert(flat_map(v, f) =~= f(v[0]) + flat_map(v.drop_first(), f));
    }
}

/// The text that `{:?}` writes for a string: the string in double quotes,
/// with std's escapes.
pub uninterp spec fn debug_quoted(s: Seq<char>) -> Seq<char>;

/// `format!("{:?}", s)` on a string slice. Only that the text depends on the
/// string alone is stated; std's escaping rules are not written out.
#[verifier::external_body]
pub(crate) fn debug_quote(s: &str) -> (r: String)
    ensures
        r@ == debug_quoted(s@),
{
    format!("{s:?}")
}

/// The concatenation of two texts.
pub fn concat2(a: &str, b: &str) -> (r: String)
    ensures
        r@ == a@ + b@,
{
    let mut r = String::new();
    push_str(&mut r, a);
    push_str(&mut r, b);
    assert(r@ =~= a@ + b@);
    r
}

/// The concatenation of three texts.
pub fn concat3(a: &str, b: &str, c: &str) -> (r: String)
    ensures
        r@ == a@ + b@ + c@,
{
    let mut r = String::new();
    push_str(&mut r, a);
    push_str(&mut r, b);
    push_str(&mut r, c);
    assert(r@ =~= a@ + b@ + c@);
    r
}

/// Whether `a` and `b` hold the same characters.
pub fn same_text(a: &str, b: &str) -> (r: bool)
    ensures
        r == (a@ == b@),
{
    let x = chars_of(a);
    let y = chars_of(b);
    if x.len() != y.len() {
        return false;
    }
    let mut i: usize = 0;
    while i < x.len()
        invariant
            x@ == a@,
            y@ == b@,
            x.len() == y.len(),
            i <= x.len(),
            forall|j: int| 0 <= j < i ==> x@[j] == y@[j],
        decreases x.len() - i,
    {
        if x[i] != y[i] {
            return false;
        }
        i = i + 1;
    }
    assert(x@ =~= y@);
    true
}


/// `char::is_whitespace`: the Unicode `White_Space` characters.
pub open spec fn is_whitespace(c: char) -> bool {
    ('\u{9}' <= c && c <= '\u{d}') || c == ' ' || c == '\u{85}' || c == '\u{a0}'
        || c == '\u{1680}' || ('\u{2000}' <= c && c <= '\u{200a}') || c == '\u{2028}'
        || c == '\u{2029}' || c == '\u{202f}' || c == '\u{205f}' || c == '\u{3000}'
}

pub fn char_is_whitespace(c: char) -> (b: bool)
    ensures
        b == is_whitespace(c),
{
    ('\u{9}' <= c && c <= '\u{d}') || c == ' ' || c == '\u{85}' || c == '\u{a0}'
        || c == '\u{1680}' || ('\u{2000}' <= c && c <= '\u{200a}') || c == '\u{2028}'
        || c == '\u{2029}' || c == '\u{202f}' || c == '\u{205f}' || c == '\u{3000}'
}

/// `s` without its leading whitespace.
pub open spec fn trim_start(s: Seq<char>) -> Seq<char>
    decreases s.len(),
{
    if s.len() > 0 && is_whitespace(s[0]) {
        trim_start(s.drop_first())
    } else {
        s
    }
}

/// `s` without its trailing whitespace.
pub open spec fn trim_end(s: Seq<char>) -> Seq<char>
    decreases s.len(),
{
    if s.len() > 0 && is_whitespace(s.last()) {
        trim_end(s.drop_last())
    } else {
        s
    }
}

/// `str::trim`: `s` without leading and trailing whitespace.
pub open spec fn trim(s: Seq<char>) -> Seq<char> {
    trim_end(trim_start(s))
}

pub proof fn lemma_trim_start(s: Seq<char>, i: int)
    requires
        0 <= i <= s.len(),
        forall|k: int| 0 <= k < i ==> is_whitespace(#[trigger] s[k]),
        i == s.len() || !is_whitespace(s[i]),
    ensures
        trim_start(s) == s.skip(i),
    decreases i,
{
    if i > 0 {
        assert(is_whitespace(s[0]));
        lemma_trim_start(s.drop_first(), i - 1);
        assert(s.drop_first().skip(i - 1) =~= s.skip(i));
    } else {
        assert(s.skip(0) =~= s);
    }
}

pub proof fn lemma_trim_end(s: Seq<char>, j: int)
    requires
        0 <= j <= s.len(),
        forall|k: int| j <= k < s.len() ==> is_whitespace(#[trigger] s[k]),
        j == 0 || !is_whitespace(s[j - 1]),
    ensures
        trim_end(s) == s.take(j),
    decreases s.len() - j,
{
    if j < s.len() {
        assert(is_whitespace(s.last()));
        lemma_trim_end(s.drop_last(), j);
        assert(s.drop_last().take(j) =~= s.take(j));
    } else {
        assert(s.take(j) =~= s);
    }
}

/// The characters of `s` with leading and trailing whitespace removed.
pub fn trimmed_chars(s: &str) -> (r: Vec<char>)
    ensures
        r@ == trim(s@),
{
    let v = chars_of(s);
    let mut i: usize = 0;
    while i < v.len() && char_is_whitespace(v[i])
        invariant
            v@ == s@,
            i <= v.len(),
            forall|k: int| 0 <= k < i ==> is_whitespace(#[trigger] v@[k]),
        decreases v.len() - i,
    {
        i = i + 1;
    }
    proof {
        lemma_trim_start(s@, i as int);
    }
    let mut j: usize = v.len();
    while j > i && char_is_whitespace(v[j - 1])
        invariant
            v@ == s@,
            i <= j <= v.len(),
            forall|k: int| j <= k < v.len() ==> is_whitespace(#[trigger] v@[k]),
        decreases j,
    {
        j = j - 1;
    }
    let mut r: Vec<char> = Vec::new();
    let mut k: usize = i;
    while k < j
        invariant
            i <= k <= j <= v.len(),
            r@ == v@.subrange(i as int, k as int),
        decreases j - k,
    {
        r.push(v[k]);
        assert(v@.subrange(i as int, k + 1) =~= v@.subrange(i as int, k as int).push(v@[k as int]));
        k = k + 1;
    }
    proof {
        let t = s@.skip(i as int);
        assert forall|m: int| (j - i) <= m < t.len() implies is_whitespace(#[trigger] t[m]) by {
            assert(t[m] == v@[i + m]);
        }
        if j > i {
            assert(t[j - i - 1] == v@[j - 1]);
        }
        lemma_trim_end(t, j - i);
        assert(t.take(j - i) =~= v@.subrange(i as int, j as int));
    }
    r
}

/// An ASCII decimal digit.
pub open spec fn is_digit(c: char) -> bool {
    '0' <= c && c <= '9'
}

/// The value of a decimal digit character.
pub open spec fn digit_value(c: char) -> nat {
    (c as u32 - '0' as u32) as nat
}

/// The number that a string of decimal digits spells.
pub open spec fn digits_value(s: Seq<char>) -> nat
    decreases s.len(),
{
    if s.len() == 0 {
        0
    } else {
        digits_value(s.drop_last()) * 10 + digit_value(s.last())
    }
}

pub proof fn lemma_digits_value_grows(s: Seq<char>, k: int)
    requires
        0 <= k <= s.len(),
    ensures
        digits_value(s.take(k)) <= digits_value(s),
    decreases s.len() - k,
{
    if k < s.len() {
        lemma_digits_value_grows(s, k + 1);
        assert(s.take(k + 1).drop_last() =~= s.take(k));
    } else {
        assert(s.take(k) =~= s);
    }
}

/// The value of a non-empty string of decimal digits that fits in a `u64`
/// (`str::parse::<u64>` on such text).
pub fn parse_digits(s: &Vec<char>) -> (r: Option<u64>)
    requires
        forall|k: int| 0 <= k < s@.len() ==> is_digit(#[trigger] s@[k]),
    ensures
        r is Some <==> s@.len() > 0 && digits_value(s@) <= u64::MAX,
        r matches Some(v) ==> v == digits_value(s@),
{
    if s.len() == 0 {
        return None;
    }
    let mut acc: u64 = 0;
    let mut i: usize = 0;
    while i < s.len()
        invariant
            i <= s.len(),
            forall|k: int| 0 <= k < s@.len() ==> is_digit(#[trigger] s@[k]),
            acc == digits_value(s@.take(i as int)),
        decreases s.len() - i,
    {
        assert(is_digit(s@[i as int]));
        let d: u32 = (s[i] as u32) - ('0' as u32);
        let next: u128 = acc as u128 * 10 + d as u128;
        proof {
            assert(s@.take(i + 1).drop_last() =~= s@.take(i as int));
            assert(next == digits_value(s@.take(i + 1)));
        }
        if next > u64::MAX as u128 {
            proof {
                lemma_digits_value_grows(s@, i + 1);
            }
            return None;
        }
        acc = next as u64;
        i = i + 1;
    }
    assert(s@.take(s@.len() as int) =~= s@);
    Some(acc)
}


/// A span written in seconds with six decimals, rounded to the nearest
/// microsecond (half a microsecond rounds up).
pub open spec fn fixed6(d: crate::time::Duration) -> Seq<char> {
    let micros = d.secs * 1_000_000 + (d.nanos + 500) / 1000;
    dec((micros / 1_000_000) as nat) + seq!['.'] + dec_padded((micros % 1_000_000) as nat, 6)
}

/// The text of `fixed6`.
pub fn seconds_fixed6(d: &crate::time::Duration) -> (s: String)
    ensures
        s@ == fixed6(*d),
{
    let micros: u128 = d.secs as u128 * 1_000_000 + ((d.nanos as u128 + 500) / 1000);
    let mut s = String::new();
    push_decimal(&mut s, micros / 1_000_000);
    push_char(&mut s, '.');
    push_decimal_padded(&mut s, micros % 1_000_000, 6);
    s
}


/// Whether `u` occurs in `t`: `t` is some text, then `u`, then some text.
pub open spec fn contains_text(t: Seq<char>, u: Seq<char>) -> bool {
    exists|p: Seq<char>, q: Seq<char>| #[trigger] (p + u + q) == t
}

/// `u` occurs in `p + u + q`.
pub proof fn lemma_contains_middle(p: Seq<char>, u: Seq<char>, q: Seq<char>)
    ensures
        contains_text(p + u + q, u),
{
    assert((p + u + q) == p + u + q);
}

/// Text that holds `u` holds whatever `u` holds.
pub proof fn lemma_contains_trans(t: Seq<char>, u: Seq<char>, v: Seq<char>)
    requires
        contains_text(t, u),
        contains_text(u, v),
    ensures
        contains_text(t, v),
{
    let (p, q) = choose|p: Seq<char>, q: Seq<char>| #[trigger] (p + u + q) == t;
    let (p2, q2) = choose|p: Seq<char>, q: Seq<char>| #[trigger] (p + v + q) == u;
    assert(t =~= (p + p2) + v + (q2 + q));
    lemma_contains_middle(p + p2, v, q2 + q);
}

/// Each of six texts written one after another occurs in the whole.
pub proof fn lemma_contains_each6(a: Seq<char>, b: Seq<char>, c: Seq<char>, d: Seq<char>, e: Seq<char>, f: Seq<char>)
    ensures
        contains_text(a + b + c + d + e + f, a),
        contains_text(a + b + c + d + e + f, b),
        contains_text(a + b + c + d + e + f, c),
        contains_text(a + b + c + d + e + f, d),
        contains_text(a + b + c + d + e + f, e),
        contains_text(a + b + c + d + e + f, f),
{
    let z = Seq::<char>::empty();
    let t = a + b + c + d + e + f;
    lemma_contains_middle(z, a, b + c + d + e + f);
    assert(z + a + (b + c + d + e + f) =~= t);
    lemma_contains_middle(a, b, c + d + e + f);
    assert(a + b + (c + d + e + f) =~= t);
    lemma_contains_middle(a + b, c, d + e + f);
    assert(a + b + c + (d + e + f) =~= t);
    lemma_contains_middle(a + b + c, d, e + f);
    assert(a + b + c + d + (e + f) =~= t);
    lemma_contains_middle(a + b + c + d, e, f);
    lemma_contains_middle(a + b + c + d + e, f, z);
    assert(a + b + c + d + e + f + z =~= t);
}

/// Text that holds `u` still holds it with more text before and after it.
pub proof fn lemma_contains_within(x: Seq<char>, t: Seq<char>, y: Seq<char>, u: Seq<char>)
    requires
        contains_text(t, u),
    ensures
        contains_text(x + t + y, u),
{
    let (p, q) = choose|p: Seq<char>, q: Seq<char>| #[trigger] (p + u + q) == t;
    assert(x + t + y =~= (x + p) + u + (q + y));
    lemma_contains_middle(x + p, u, q + y);
}

/// Lexicographic order of texts by character code, the order of `str`
/// comparison (for UTF-8 text, byte order and code point order agree).
pub open spec fn text_lt(a: Seq<char>, b: Seq<char>) -> bool
    decreases a.len(),
{
    if a.len() == 0 {
        b.len() > 0
    } else if b.len() == 0 {
        false
    } else if a[0] != b[0] {
        a[0] < b[0]
    } else {
        text_lt(a.drop_first(), b.drop_first())
    }
}

pub proof fn lemma_text_lt_irreflexive(a: Seq<char>)
    ensures
        !text_lt(a, a),
    decreases a.len(),
{
    if a.len() > 0 {
        lemma_text_lt_irreflexive(a.drop_first());
    }
}

pub proof fn lemma_text_lt_total(a: Seq<char>, b: Seq<char>)
    ensures
        a == b || text_lt(a, b) || text_lt(b, a),
    decreases a.len(),
{
    if a.len() > 0 && b.len() > 0 && a[0] == b[0] {
        lemma_text_lt_total(a.drop_first(), b.drop_first());
        if a.drop_first() == b.drop_first() {
            assert(a =~= seq![a[0]] + a.drop_first());
            assert(b =~= seq![b[0]] + b.drop_first());
        }
    } else if a.len() == 0 && b.len() == 0 {
        assert(a =~= b);
    } else if a.len() > 0 && b.len() > 0 {
        assert(a[0] < b[0] || b[0] < a[0]);
    }
}

pub proof fn lemma_text_lt_asymmetric(a: Seq<char>, b: Seq<char>)
    ensures
        !(text_lt(a, b) && text_lt(b, a)),
    decreases a.len(),
{
    if a.len() > 0 && b.len() > 0 && a[0] == b[0] {
        lemma_text_lt_asymmetric(a.drop_first(), b.drop_first());
    }
}

pub proof fn lemma_text_lt_transitive(a: Seq<char>, b: Seq<char>, c: Seq<char>)
    requires
        text_lt(a, b),
        text_lt(b, c),
    ensures
        text_lt(a, c),
    decreases a.len(),
{
    if a.len() > 0 && b.len() > 0 && c.len() > 0 && a[0] == b[0] && b[0] == c[0] {
        lemma_text_lt_transitive(a.drop_first(), b.drop_first(), c.drop_first());
    }
}

proof fn lemma_text_lt_skip(a: Seq<char>, b: Seq<char>, i: int)
    requires
        0 <= i <= a.len(),
        i <= b.len(),
        a.take(i) == b.take(i),
    ensures
        text_lt(a, b) == text_lt(a.skip(i), b.skip(i)),
    decreases i,
{
    if i > 0 {
        assert(a[0] == a.take(i)[0]);
        assert(b[0] == b.take(i)[0]);
        assert(a.drop_first().take(i - 1) =~= a.take(i).drop_first());
        assert(b.drop_first().take(i - 1) =~= b.take(i).drop_first());
        lemma_text_lt_skip(a.drop_first(), b.drop_first(), i - 1);
        assert(a.drop_first().skip(i - 1) =~= a.skip(i));
        assert(b.drop_first().skip(i - 1) =~= b.skip(i));
    } else {
        assert(a.skip(0) =~= a);
        assert(b.skip(0) =~= b);
    }
}

/// Whether `a` sorts before `b`.
pub fn text_less(a: &str, b: &str) -> (r: bool)
    ensures
        r == text_lt(a@, b@),
{
    let x = chars_of(a);
    let y = chars_of(b);
    let mut i: usize = 0;
    while i < x.len() && i < y.len()
        invariant
            x@ == a@,
            y@ == b@,
            i <= x.len(),
            i <= y.len(),
            x@.take(i as int) == y@.take(i as int),
        decreases x.len() - i,
    {
        if x[i] != y[i] {
            proof {
                lemma_text_lt_skip(x@, y@, i as int);
                assert(x@.skip(i as int)[0] == x@[i as int]);
                assert(y@.skip(i as int)[0] == y@[i as int]);
            }
            return x[i] < y[i];
        }
        assert(x@.take(i + 1) =~= x@.take(i as int).push(x@[i as int]));
        assert(y@.take(i + 1) =~= y@.take(i as int).push(y@[i as int]));
        i = i + 1;
    }
    proof {
        lemma_text_lt_skip(x@, y@, i as int);
    }
    i < y.len()
}

} // verus!
