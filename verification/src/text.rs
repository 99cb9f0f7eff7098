//! Text helpers: decimal numerals, comparison, concatenation and splitting of strings.

use vstd::prelude::*;
use vstd::string::*;
use vstd::utf8::*;

verus! {

/// The character of a decimal digit.
pub open spec fn digit_char(d: nat) -> char {
    ('0' as nat + d) as char
}

/// The shortest decimal numeral of `n`.
pub open spec fn dec(n: nat) -> Seq<char>
    decreases n,
{
    if n < 10 {
        seq![digit_char(n)]
    } else {
        dec(n / 10).push(digit_char(n % 10))
    }
}

/// Whether two strings hold the same characters.
pub fn same(a: &str, b: &str) -> (r: bool)
    ensures
        r == (a@ == b@),
{
    let x = a.to_owned();
    let y = b.to_owned();
    x == y
}

/// `a` followed by `b`.
pub fn cat2(a: &str, b: &str) -> (r: String)
    ensures
        r@ == a@ + b@,
{
    let mut s = a.to_owned();
    s.append(b);
    s
}

/// `a`, `b` and `c` in a row.
pub fn cat3(a: &str, b: &str, c: &str) -> (r: String)
    ensures
        r@ == a@ + b@ + c@,
{
    let mut s = a.to_owned();
    s.append(b);
    s.append(c);
    s
}

fn digit_str(d: u64) -> (r: &'static str)
    requires
        d < 10,
    ensures
        r@ == seq![digit_char(d as nat)],
{
    proof {
        reveal_strlit("0");
        reveal_strlit("1");
        reveal_strlit("2");
        reveal_strlit("3");
        reveal_strlit("4");
        reveal_strlit("5");
        reveal_strlit("6");
        reveal_strlit("7");
        reveal_strlit("8");
        reveal_strlit("9");
    }
    let r = match d {
        0 => "0",
        1 => "1",
        2 => "2",
        3 => "3",
        4 => "4",
        5 => "5",
        6 => "6",
        7 => "7",
        8 => "8",
        _ => "9",
    };
    assert(r@ =~= seq![digit_char(d as nat)]);
    r
}

/// Writes `n` in decimal.
pub fn decimal(n: u64) -> (r: String)
    ensures
        r@ == dec(n as nat),
    decreases n,
{
    if n < 10 {
        digit_str(n).to_owned()
    } else {
        let mut s = decimal(n / 10);
        s.append(digit_str(n % 10));
        proof {
            assert(s@ =~= dec((n / 10) as nat).push(digit_char((n % 10) as nat)));
        }
        s
    }
}

/// The words in which `std::str::from_utf8` refuses bytes.
pub uninterp spec fn utf8_refusal(bytes: Seq<u8>) -> Seq<char>;

/// Calls `std::str::from_utf8` and copies out the text: the characters that the bytes encode, or
/// the words in which bytes that are not valid UTF-8 are refused.
#[verifier::external_body]
pub(crate) fn text_of_utf8(bytes: &[u8]) -> (r: std::result::Result<String, String>)
    ensures
        match r {
            Ok(s) => valid_utf8(bytes@) && s@ == decode_utf8(bytes@),
            Err(words) => !valid_utf8(bytes@) && words@ == utf8_refusal(bytes@),
        },
{
    std::str::from_utf8(bytes).map(|s| s.to_string()).map_err(|e| e.to_string())
}

/// The position of the first `c` in `s`, or the length of `s` where there is none.
pub open spec fn first_of(s: Seq<char>, c: char) -> int
    decreases s.len(),
{
    if s.len() == 0 || s[0] == c {
        0
    } else {
        1 + first_of(s.skip(1), c)
    }
}

/// Where no character before `k` is `c`, and that at `k` is where there is one, `k` is the position
/// of the first `c`.
pub proof fn lemma_first_of(s: Seq<char>, c: char, k: int)
    requires
        0 <= k <= s.len(),
        forall|i: int| 0 <= i < k ==> s[i] != c,
        k < s.len() ==> s[k] == c,
    ensures
        first_of(s, c) == k,
    decreases s.len(),
{
    if k > 0 {
        lemma_first_of(s.skip(1), c, k - 1);
    }
}

/// The position of the first `c` in `s`, or the number of its characters where there is none.
pub fn find(s: &str, c: char) -> (r: usize)
    ensures
        r == first_of(s@, c),
        r <= s@.len(),
{
    let n = s.unicode_len();
    let mut i: usize = 0;
    while i < n
        invariant
            i <= n,
            n == s@.len(),
            forall|k: int| 0 <= k < i ==> s@[k] != c,
        decreases n - i,
    {
        if s.get_char(i) == c {
            proof {
                lemma_first_of(s@, c, i as int);
            }
            return i;
        }
        i = i + 1;
    }
    proof {
        lemma_first_of(s@, c, n as int);
    }
    n
}

/// Whether `s` begins with `p`.
pub open spec fn begins(s: Seq<char>, p: Seq<char>) -> bool {
    s.len() >= p.len() && s.take(p.len() as int) == p
}

/// Whether `s` ends with `p`.
pub open spec fn ends(s: Seq<char>, p: Seq<char>) -> bool {
    s.len() >= p.len() && s.skip(s.len() - p.len()) == p
}

/// What follows `p` in `s`.
pub fn strip_prefix<'a>(s: &'a str, p: &str) -> (r: Option<&'a str>)
    ensures
        match r {
            Some(t) => begins(s@, p@) && t@ == s@.skip(p@.len() as int),
            None => !begins(s@, p@),
        },
{
    let n = s.unicode_len();
    let m = p.unicode_len();
    if n < m {
        return None;
    }
    if same(s.substring_char(0, m), p) {
        let t = s.substring_char(m, n);
        assert(t@ =~= s@.skip(p@.len() as int));
        assert(s@.subrange(0, m as int) =~= s@.take(p@.len() as int));
        Some(t)
    } else {
        assert(s@.subrange(0, m as int) =~= s@.take(p@.len() as int));
        None
    }
}

/// What precedes `p` at the end of `s`.
pub fn strip_suffix<'a>(s: &'a str, p: &str) -> (r: Option<&'a str>)
    ensures
        match r {
            Some(t) => ends(s@, p@) && t@ == s@.take(s@.len() - p@.len()),
            None => !ends(s@, p@),
        },
{
    let n = s.unicode_len();
    let m = p.unicode_len();
    if n < m {
        return None;
    }
    if same(s.substring_char(n - m, n), p) {
        let t = s.substring_char(0, n - m);
        assert(t@ =~= s@.take(s@.len() - p@.len()));
        assert(s@.subrange(n - m, n as int) =~= s@.skip(s@.len() - p@.len()));
        Some(t)
    } else {
        assert(s@.subrange(n - m, n as int) =~= s@.skip(s@.len() - p@.len()));
        None
    }
}

/// Whether every character of `s` is a decimal digit.
pub open spec fn all_digits(s: Seq<char>) -> bool {
    forall|i: int| 0 <= i < s.len() ==> '0' <= #[trigger] s[i] && s[i] <= '9'
}

/// The number that a run of decimal digits stands for.
pub open spec fn digits_value(s: Seq<char>) -> nat
    decreases s.len(),
{
    if s.len() == 0 {
        0
    } else {
        digits_value(s.drop_last()) * 10 + (s.last() as nat - '0' as nat) as nat
    }
}

/// `s` without one leading plus sign.
pub open spec fn unsigned_part(s: Seq<char>) -> Seq<char> {
    if s.len() > 0 && s[0] == '+' {
        s.skip(1)
    } else {
        s
    }
}

/// Whether `s` is a numeral of a machine-size unsigned integer: at least one digit, after an
/// optional plus sign, of a value in range.
pub open spec fn is_index(s: Seq<char>) -> bool {
    let d = unsigned_part(s);
    d.len() > 0 && all_digits(d) && digits_value(d) <= usize::MAX
}

proof fn lemma_digits_value_grows(s: Seq<char>, i: int)
    requires
        0 <= i <= s.len(),
    ensures
        digits_value(s.take(i)) <= digits_value(s),
    decreases s.len(),
{
    if i < s.len() {
        lemma_digits_value_grows(s.drop_last(), i);
        assert(s.drop_last().take(i) =~= s.take(i));
    } else {
        assert(s.take(i) =~= s);
    }
}

/// Whether `s` is a numeral of a machine-size unsigned integer.
pub fn reads_as_index(s: &str) -> (r: bool)
    ensures
        r == is_index(s@),
{
    let n = s.unicode_len();
    let start: usize = if n > 0 && s.get_char(0) == '+' {
        1
    } else {
        0
    };
    let ghost d = unsigned_part(s@);
    assert(d =~= s@.skip(start as int));
    if n == start {
        return false;
    }
    let mut value: usize = 0;
    let mut i: usize = start;
    while i < n
        invariant
            start <= i <= n,
            n == s@.len(),
            start <= 1,
            d == s@.skip(start as int),
            d == unsigned_part(s@),
            forall|k: int| 0 <= k < i - start ==> '0' <= #[trigger] d[k] && d[k] <= '9',
            value == digits_value(d.take(i - start)),
        decreases n - i,
    {
        let c = s.get_char(i);
        assert(c == d[i - start]);
        if c < '0' || c > '9' {
            return false;
        }
        let x = (c as u32 - '0' as u32) as usize;
        let ghost next = d.take(i - start + 1);
        proof {
            assert(next.drop_last() =~= d.take(i - start));
            assert(digits_value(next) == value * 10 + x);
            lemma_digits_value_grows(d, i - start + 1);
        }
        if value > usize::MAX / 10 {
            return false;
        }
        let tens = value * 10;
        if tens > usize::MAX - x {
            return false;
        }
        value = tens + x;
        i = i + 1;
    }
    assert(d.take(n - start) =~= d);
    true
}

/// Whether `a` comes no later than `b` in the order of their characters.
pub open spec fn ordered(a: Seq<char>, b: Seq<char>) -> bool
    decreases a.len(),
{
    if a.len() == 0 {
        true
    } else if b.len() == 0 {
        false
    } else if a[0] != b[0] {
        a[0] < b[0]
    } else {
        ordered(a.skip(1), b.skip(1))
    }
}

proof fn lemma_ordered_from(a: Seq<char>, b: Seq<char>, k: int)
    requires
        0 <= k <= a.len(),
        k <= b.len(),
        forall|i: int| 0 <= i < k ==> a[i] == b[i],
    ensures
        ordered(a, b) == ordered(a.skip(k), b.skip(k)),
    decreases k,
{
    if k == 0 {
        assert(a.skip(0) =~= a);
        assert(b.skip(0) =~= b);
    } else {
        lemma_ordered_from(a.skip(1), b.skip(1), k - 1);
        assert(a.skip(1).skip(k - 1) =~= a.skip(k));
        assert(b.skip(1).skip(k - 1) =~= b.skip(k));
    }
}

/// Whether `a` comes no later than `b` in the order of their characters.
pub fn in_order(a: &str, b: &str) -> (r: bool)
    ensures
        r == ordered(a@, b@),
{
    let n = a.unicode_len();
    let m = b.unicode_len();
    let mut i: usize = 0;
    while i < n && i < m
        invariant
            i <= n,
            i <= m,
            n == a@.len(),
            m == b@.len(),
            forall|k: int| 0 <= k < i ==> a@[k] == b@[k],
        decreases n - i,
    {
        let x = a.get_char(i);
        let y = b.get_char(i);
        if x != y {
            proof {
                lemma_ordered_from(a@, b@, i as int);
                assert(a@.skip(i as int)[0] == x);
                assert(b@.skip(i as int)[0] == y);
            }
            return x < y;
        }
        i = i + 1;
    }
    proof {
        lemma_ordered_from(a@, b@, i as int);
    }
    i == n
}

/// Of two texts, one comes no later than the other.
pub proof fn lemma_ordered_total(a: Seq<char>, b: Seq<char>)
    ensures
        ordered(a, b) || ordered(b, a),
    decreases a.len(),
{
    if a.len() > 0 && b.len() > 0 && a[0] == b[0] {
        lemma_ordered_total(a.skip(1), b.skip(1));
    }
}

/// The order of texts is transitive.
pub proof fn lemma_ordered_transitive(a: Seq<char>, b: Seq<char>, c: Seq<char>)
    requires
        ordered(a, b),
        ordered(b, c),
    ensures
        ordered(a, c),
    decreases a.len(),
{
    if a.len() > 0 && b.len() > 0 && c.len() > 0 && a[0] == b[0] && b[0] == c[0] {
        lemma_ordered_transitive(a.skip(1), b.skip(1), c.skip(1));
    }
}

/// A numeral consists of digits and reads back as its number.
pub proof fn lemma_dec(n: nat)
    ensures
        dec(n).len() > 0,
        all_digits(dec(n)),
        digits_value(dec(n)) == n,
        is_index(dec(n)) <==> n <= usize::MAX,
    decreases n,
{
    reveal_with_fuel(digits_value, 2);
    if n >= 10 {
        lemma_dec(n / 10);
        assert(dec(n).drop_last() =~= dec(n / 10));
    } else {
        assert(dec(n).drop_last() =~= seq![]);
    }
    assert(dec(n).last() == digit_char(n % 10));
    assert(dec(n)[0] != '+');
}

/// A numeral has the decimal digits of its number, the last one for the units.
pub proof fn lemma_dec_digits(n: nat)
    ensures
        dec(n).last() as int == 48 + n % 10,
        n < 10 ==> dec(n).len() == 1,
        n >= 10 ==> dec(n) == dec(n / 10) + seq![dec(n).last()],
{
    assert('0' as int == 48);
    if n >= 10 {
        assert(dec(n) =~= dec(n / 10) + seq![dec(n).last()]);
    }
}

/// Texts are in the order of the first characters in which they differ; where they do not differ
/// the shorter one comes first.
pub proof fn lemma_ordered_by_first_difference(a: Seq<char>, b: Seq<char>, k: int)
    requires
        0 <= k <= a.len(),
        k <= b.len(),
        forall|i: int| 0 <= i < k ==> a[i] == b[i],
    ensures
        k < a.len() && k < b.len() && a[k] < b[k] ==> ordered(a, b) && !ordered(b, a),
        k == a.len() ==> ordered(a, b),
        k == a.len() && k < b.len() ==> !ordered(b, a),
{
    lemma_ordered_from(a, b, k);
    lemma_ordered_from(b, a, k);
    if k < a.len() {
        assert(a.skip(k)[0] == a[k]);
    }
    if k < b.len() {
        assert(b.skip(k)[0] == b[k]);
    }
}

/// What is put before or behind a text is found there, and nothing else is.
pub proof fn lemma_joined(p: Seq<char>, t: Seq<char>, s: Seq<char>)
    ensures
        begins(p + t, p),
        ends(t + p, p),
        begins(s, p) ==> s == p + s.skip(p.len() as int),
        ends(s, p) ==> s == s.take(s.len() - p.len()) + p,
{
    assert((p + t).take(p.len() as int) =~= p);
    assert((t + p).skip(t.len() as int) =~= p);
    if begins(s, p) {
        assert(s =~= s.take(p.len() as int) + s.skip(p.len() as int));
    }
    if ends(s, p) {
        assert(s =~= s.take(s.len() - p.len()) + s.skip(s.len() - p.len()));
    }
}

/// Zeros in front of a numeral and a plus sign before it change nothing; anything that is no digit
/// makes it no numeral.
pub proof fn lemma_index(n: nat, s: Seq<char>)
    ensures
        is_index(dec(n)) <==> n <= usize::MAX,
        is_index(seq!['+'] + dec(n)) <==> n <= usize::MAX,
        is_index(seq!['0'] + dec(n)) <==> n <= usize::MAX,
        !is_index(Seq::empty()),
        forall|i: int|
            0 < i < s.len() && !('0' <= #[trigger] s[i] && s[i] <= '9') ==> !is_index(s),
{
    lemma_dec(n);
    let d = dec(n);
    assert((seq!['+'] + d).skip(1) =~= d);
    let z = seq!['0'] + d;
    lemma_zero_in_front(d);
    assert forall|i: int| 0 <= i < z.len() implies '0' <= #[trigger] z[i] && z[i] <= '9' by {
        if i > 0 {
            assert(z[i] == d[i - 1]);
        }
    }
    assert(z[0] == '0');
    assert forall|i: int| 0 < i < s.len() && !('0' <= #[trigger] s[i] && s[i] <= '9') implies
        !is_index(s) by {
        let u = unsigned_part(s);
        if s[0] == '+' {
            assert(u[i - 1] == s[i]);
        } else {
            assert(u[i] == s[i]);
        }
    }
}

proof fn lemma_zero_in_front(d: Seq<char>)
    ensures
        digits_value(seq!['0'] + d) == digits_value(d),
    decreases d.len(),
{
    let z = seq!['0'] + d;
    reveal_with_fuel(digits_value, 2);
    if d.len() > 0 {
        lemma_zero_in_front(d.drop_last());
        assert(z.drop_last() =~= seq!['0'] + d.drop_last());
        assert(z.last() == d.last());
    } else {
        assert(z.drop_last() =~= Seq::<char>::empty());
        assert(z.last() == '0');
    }
}

} // verus!
