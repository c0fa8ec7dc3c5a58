//! Text operations that the service's messages are built and read with:
//! splitting at a separator, removing every occurrence of a tag, prefix
//! tests and the decimal reading of a signed 32-bit number.
use vstd::prelude::*;
use vstd::utf8::valid_utf8;
use vstd::utf8::decode_utf8;
use vstd::string::StringSliceAdditionalSpecFns;

verus! {

/// The pieces of `s` between the occurrences of `sep`, in order: one piece
/// more than there are separators, empty pieces included.
pub open spec fn split_spec(s: Seq<char>, sep: char) -> Seq<Seq<char>>
    decreases s.len(),
{
    if s.len() == 0 {
        seq![Seq::empty()]
    } else {
        let p = split_spec(s.drop_last(), sep);
        if s.last() == sep {
            p.push(Seq::empty())
        } else {
            p.update(p.len() - 1, p.last().push(s.last()))
        }
    }
}

/// Whether `pat` occurs in `s` at position `i`.
pub open spec fn occurs_at(s: Seq<char>, pat: Seq<char>, i: int) -> bool {
    0 <= i && i + pat.len() <= s.len() && s.subrange(i, i + pat.len()) == pat
}

/// `s` with every occurrence of `pat` removed, occurrences taken from the
/// left without overlap.
pub open spec fn removed(s: Seq<char>, pat: Seq<char>) -> Seq<char>
    decreases s.len(),
{
    if pat.len() == 0 || s.len() < pat.len() {
        s
    } else if occurs_at(s, pat, 0) {
        removed(s.skip(pat.len() as int), pat)
    } else {
        seq![s[0]] + removed(s.drop_first(), pat)
    }
}

/// Whether `s` begins with `prefix`.
pub open spec fn starts_with_spec(s: Seq<char>, prefix: Seq<char>) -> bool {
    prefix.len() <= s.len() && s.take(prefix.len() as int) == prefix
}

/// Whether `c` is an ASCII decimal digit.
pub open spec fn is_digit(c: char) -> bool {
    '0' <= c <= '9'
}

/// The number that the decimal digits `d` write.
pub open spec fn decimal_value(d: Seq<char>) -> nat
    decreases d.len(),
{
    if d.len() == 0 {
        0
    } else {
        decimal_value(d.drop_last()) * 10 + (d.last() as nat - '0' as nat) as nat
    }
}

/// Whether every character of `d` is an ASCII decimal digit.
pub open spec fn all_digits(d: Seq<char>) -> bool {
    forall|i: int| 0 <= i < d.len() ==> is_digit(#[trigger] d[i])
}

/// `s` without its leading sign, if it has one.
pub open spec fn unsigned_part(s: Seq<char>) -> Seq<char> {
    if s.len() > 0 && (s[0] == '-' || s[0] == '+') {
        s.drop_first()
    } else {
        s
    }
}

/// The 32-bit signed number that `s` writes in decimal, with an optional
/// leading sign and at least one digit, if it is in range.
pub open spec fn parse_i32_spec(s: Seq<char>) -> Option<i32> {
    let digits = unsigned_part(s);
    if digits.len() == 0 || !all_digits(digits) {
        None
    } else {
        let v: int = if s[0] == '-' {
            -decimal_value(digits)
        } else {
            decimal_value(digits) as int
        };
        if i32::MIN <= v <= i32::MAX {
            Some(v as i32)
        } else {
            None
        }
    }
}

/// The decimal digit of `k`, below ten.
pub open spec fn digit_char(k: nat) -> char {
    if k == 0 {
        '0'
    } else if k == 1 {
        '1'
    } else if k == 2 {
        '2'
    } else if k == 3 {
        '3'
    } else if k == 4 {
        '4'
    } else if k == 5 {
        '5'
    } else if k == 6 {
        '6'
    } else if k == 7 {
        '7'
    } else if k == 8 {
        '8'
    } else {
        '9'
    }
}

/// The decimal digits of `n`, most significant first, without leading
/// zeros.
pub open spec fn decimal_text(n: nat) -> Seq<char>
    decreases n,
{
    if n < 10 {
        seq![digit_char(n)]
    } else {
        decimal_text(n / 10).push(digit_char(n % 10))
    }
}

/// `v` written in decimal, with a `-` in front when it is negative.
pub open spec fn i32_text(v: i32) -> Seq<char> {
    if v < 0 {
        seq!['-'] + decimal_text((-v) as nat)
    } else {
        decimal_text(v as nat)
    }
}

proof fn lemma_digit_char(k: nat)
    requires
        k < 10,
    ensures
        is_digit(digit_char(k)),
        digit_char(k) as int - '0' as int == k,
{
}

proof fn lemma_decimal_text(n: nat)
    ensures
        decimal_text(n).len() > 0,
        all_digits(decimal_text(n)),
        decimal_value(decimal_text(n)) == n,
        is_digit(decimal_text(n)[0]),
    decreases n,
{
    if n >= 10 {
        lemma_decimal_text(n / 10);
        lemma_digit_char(n % 10);
        let t = decimal_text(n / 10);
        assert(decimal_text(n).last() == digit_char(n % 10));
        assert(n == (n / 10) * 10 + n % 10);
        assert(decimal_text(n).drop_last() =~= t);
        assert(decimal_text(n)[0] == t[0]);
        assert forall|i: int| 0 <= i < decimal_text(n).len() implies is_digit(#[trigger] decimal_text(n)[i]) by {
            if i < t.len() {
                assert(decimal_text(n)[i] == t[i]);
            }
        }
    } else {
        lemma_digit_char(n);
        assert(seq![digit_char(n)].drop_last() =~= Seq::<char>::empty());
        assert(decimal_value(Seq::<char>::empty()) == 0);
    }
}

/// Reading a signed decimal agrees with the value of its digits: digits
/// alone or after `+` read as their value, after `-` as its negation, as
/// long as that fits in 32 bits, and as nothing otherwise.
pub proof fn lemma_parse_i32_reads_digits(d: Seq<char>)
    requires
        d.len() > 0,
        forall|i: int| 0 <= i < d.len() ==> is_digit(#[trigger] d[i]),
    ensures
        decimal_value(d) <= i32::MAX ==> parse_i32_spec(d) == Some(decimal_value(d) as i32),
        decimal_value(d) > i32::MAX ==> parse_i32_spec(d) is None,
        parse_i32_spec(seq!['+'] + d) == parse_i32_spec(d),
        decimal_value(d) <= 0x8000_0000 ==> parse_i32_spec(seq!['-'] + d) == Some((-decimal_value(d)) as i32),
        decimal_value(d) > 0x8000_0000 ==> parse_i32_spec(seq!['-'] + d) is None,
{
    assert(unsigned_part(d) == d);
    assert((seq!['+'] + d).drop_first() =~= d);
    assert((seq!['-'] + d).drop_first() =~= d);
    assert(unsigned_part(seq!['+'] + d) == d);
    assert(unsigned_part(seq!['-'] + d) == d);
}

/// Every 32-bit number, written in decimal, reads back as itself.
pub proof fn lemma_parse_i32_roundtrip(v: i32)
    ensures
        parse_i32_spec(i32_text(v)) == Some(v),
{
    if v < 0 {
        let m = (-v) as nat;
        lemma_decimal_text(m);
        lemma_parse_i32_reads_digits(decimal_text(m));
    } else {
        lemma_decimal_text(v as nat);
        lemma_parse_i32_reads_digits(decimal_text(v as nat));
    }
}

/// Splitting always gives at least one piece.
pub proof fn lemma_split_nonempty(s: Seq<char>, sep: char)
    ensures
        split_spec(s, sep).len() >= 1,
    decreases s.len(),
{
    if s.len() > 0 {
        lemma_split_nonempty(s.drop_last(), sep);
    }
}

/// Text without the separator extends the last piece.
pub proof fn lemma_split_append_plain(s: Seq<char>, t: Seq<char>, sep: char)
    requires
        !t.contains(sep),
    ensures
        split_spec(s + t, sep) == split_spec(s, sep).update(
            split_spec(s, sep).len() - 1,
            split_spec(s, sep).last() + t,
        ),
    decreases t.len(),
{
    lemma_split_nonempty(s, sep);
    if t.len() == 0 {
        assert(s + t =~= s);
        assert(split_spec(s, sep).last() + t =~= split_spec(s, sep).last());
        assert(split_spec(s, sep).update(split_spec(s, sep).len() - 1, split_spec(s, sep).last())
            =~= split_spec(s, sep));
    } else {
        let t0 = t.drop_last();
        assert(!t0.contains(sep)) by {
            if t0.contains(sep) {
                let j = choose|j: int| 0 <= j < t0.len() && t0[j] == sep;
                assert(t[j] == sep);
            }
        }
        lemma_split_append_plain(s, t0, sep);
        assert((s + t).drop_last() =~= s + t0);
        assert((s + t).last() == t.last());
        assert(t.last() != sep) by {
            assert(t[t.len() - 1] == t.last());
        }
        lemma_split_nonempty(s + t0, sep);
        assert((split_spec(s, sep).last() + t0).push(t.last()) =~= split_spec(s, sep).last() + t);
        assert(split_spec(s + t, sep) =~= split_spec(s, sep).update(
            split_spec(s, sep).len() - 1,
            split_spec(s, sep).last() + t,
        ));
    }
}

/// A separator closes the last piece and opens an empty one.
pub proof fn lemma_split_append_sep(s: Seq<char>, sep: char)
    ensures
        split_spec(s.push(sep), sep) == split_spec(s, sep).push(Seq::empty()),
{
    assert(s.push(sep).drop_last() =~= s);
}

/// Pieces joined with a separator that none of them holds split back into
/// those pieces.
pub proof fn lemma_split_joined(a: Seq<char>, b: Seq<char>, sep: char)
    requires
        !a.contains(sep),
        !b.contains(sep),
    ensures
        split_spec(a.push(sep) + b, sep) == seq![a, b],
{
    lemma_split_append_plain(Seq::empty(), a, sep);
    assert(Seq::<char>::empty() + a =~= a);
    assert(split_spec(Seq::<char>::empty(), sep) == seq![Seq::<char>::empty()]);
    assert(split_spec(a, sep) =~= seq![a]);
    lemma_split_append_sep(a, sep);
    lemma_split_append_plain(a.push(sep), b, sep);
    assert(Seq::<char>::empty() + b =~= b);
    assert(split_spec(a.push(sep) + b, sep) =~= seq![a, b]);
}

/// The characters of `s`, in order.
pub fn chars_of(s: &str) -> (r: Vec<char>)
    ensures
        r@ == s@,
{
    broadcast use vstd::string::group_string_axioms;

    let mut it = s.chars();
    let mut r: Vec<char> = Vec::new();
    loop
        invariant
            r@ + vstd::std_specs::iter::IteratorSpec::remaining(&it) == s@,
            vstd::std_specs::iter::IteratorSpec::decrease(&it) is Some,
        ensures
            r@ == s@,
        decreases vstd::std_specs::iter::IteratorSpec::decrease(&it)->0,
    {
        match it.next() {
            Some(c) => {
                let ghost before = r@;
                r.push(c);
                assert(r@ + vstd::std_specs::iter::IteratorSpec::remaining(&it) =~= s@);
            },
            None => {
                return r;
            },
        }
    }
}

/// The views of a list of strings.
pub open spec fn views_of(v: Seq<String>) -> Seq<Seq<char>> {
    v.map_values(|x: String| x@)
}

/// The pieces of `s` between the occurrences of `sep`.
pub fn split(s: &str, sep: char) -> (r: Vec<String>)
    ensures
        views_of(r@) == split_spec(s@, sep),
{
    let cs = chars_of(s);
    let n = cs.len();
    let mut pieces: Vec<String> = Vec::new();
    let mut start: usize = 0;
    let mut i: usize = 0;
    assert(s@.take(0) =~= Seq::<char>::empty());
    while i < n
        invariant
            n == s@.len(),
            cs@ == s@,
            start <= i <= n,
            split_spec(s@.take(i as int), sep) == views_of(pieces@).push(s@.subrange(start as int, i as int)),
        decreases n - i,
    {
        let c = cs[i];
        assert(s@.take(i + 1).drop_last() =~= s@.take(i as int));
        assert(s@.take(i + 1).last() == c);
        if c == sep {
            let ghost old_pieces = views_of(pieces@);
            let ghost cur = s@.subrange(start as int, i as int);
            let piece = String::from_str(s.substring_char(start, i));
            pieces.push(piece);
            assert(views_of(pieces@) =~= old_pieces.push(cur));
            i = i + 1;
            start = i;
            assert(s@.subrange(start as int, i as int) =~= Seq::<char>::empty());
        } else {
            assert(s@.subrange(start as int, i as int).push(c) =~= s@.subrange(start as int, i + 1));
            i = i + 1;
        }
        assert(split_spec(s@.take(i as int), sep) =~= views_of(pieces@).push(s@.subrange(start as int, i as int)));
    }
    let last = String::from_str(s.substring_char(start, n));
    pieces.push(last);
    assert(s@.take(n as int) =~= s@);
    assert(views_of(pieces@) =~= split_spec(s@, sep));
    pieces
}

/// Whether `pat` occurs in `s` at position `i`.
fn occurs(s: &Vec<char>, pat: &Vec<char>, i: usize) -> (r: bool)
    ensures
        r == occurs_at(s@, pat@, i as int),
{
    if i > s.len() || s.len() - i < pat.len() {
        return false;
    }
    let mut k: usize = 0;
    while k < pat.len()
        invariant
            i + pat@.len() <= s@.len(),
            s@.len() == s.len(),
            k <= pat@.len(),
            forall|j: int| 0 <= j < k ==> s@[i + j] == pat@[j],
        decreases pat@.len() - k,
    {
        if s[i + k] != pat[k] {
            assert(s@.subrange(i as int, i + pat@.len())[k as int] != pat@[k as int]);
            return false;
        }
        k = k + 1;
    }
    assert(s@.subrange(i as int, i + pat@.len()) =~= pat@);
    true
}

/// `s` with every occurrence of `pat` removed, occurrences taken from the
/// left without overlap.
pub fn remove_all(s: &str, pat: &str) -> (r: String)
    ensures
        r@ == removed(s@, pat@),
{
    let cs = chars_of(s);
    let ps = chars_of(pat);
    let n = cs.len();
    let m = ps.len();
    if m == 0 {
        return String::from_str(s);
    }
    let mut out = String::new();
    let mut start: usize = 0;
    let mut i: usize = 0;
    assert(s@.skip(0) =~= s@);
    assert(s@.subrange(0, 0) + removed(s@, pat@) =~= removed(s@, pat@));
    while i < n
        invariant
            n == s@.len(),
            m == pat@.len(),
            m > 0,
            cs@ == s@,
            ps@ == pat@,
            start <= i <= n,
            removed(s@, pat@) == out@ + s@.subrange(start as int, i as int) + removed(s@.skip(i as int), pat@),
        decreases n - i,
    {
        let ghost t = s@.skip(i as int);
        let found = occurs(&cs, &ps, i);
        if found {
            assert(t.subrange(0, m as int) =~= s@.subrange(i as int, i + m));
            assert(t.skip(m as int) =~= s@.skip(i + m));
            let ghost before = out@;
            out.append(s.substring_char(start, i));
            assert(out@ =~= before + s@.subrange(start as int, i as int));
            i = i + m;
            start = i;
            assert(s@.subrange(start as int, i as int) =~= Seq::<char>::empty());
            assert(out@ + s@.subrange(start as int, i as int) =~= out@);
        } else {
            assert(t.drop_first() =~= s@.skip(i + 1));
            proof {
                if t.len() >= m {
                    assert(t.subrange(0, m as int) =~= s@.subrange(i as int, i + m));
                    assert(removed(t, pat@) == seq![t[0]] + removed(t.drop_first(), pat@));
                } else {
                    assert(removed(t, pat@) == t);
                    assert(removed(s@.skip(i + 1), pat@) == s@.skip(i + 1));
                    assert(t =~= seq![t[0]] + t.drop_first());
                }
            }
            assert(s@.subrange(start as int, i as int) + seq![t[0]] =~= s@.subrange(start as int, i + 1));
            i = i + 1;
            assert(out@ + s@.subrange(start as int, i as int) + removed(s@.skip(i as int), pat@) =~= out@ + (
            s@.subrange(start as int, i - 1) + seq![t[0]]) + removed(s@.skip(i as int), pat@));
        }
    }
    assert(s@.skip(n as int) =~= Seq::<char>::empty());
    let ghost before = out@;
    out.append(s.substring_char(start, n));
    assert(out@ =~= before + s@.subrange(start as int, n as int));
    out
}

/// Whether `s` begins with `prefix`.
pub fn starts_with(s: &str, prefix: &str) -> (r: bool)
    ensures
        r == starts_with_spec(s@, prefix@),
{
    let cs = chars_of(s);
    let ps = chars_of(prefix);
    let r = occurs(&cs, &ps, 0);
    assert(r == starts_with_spec(s@, prefix@)) by {
        if ps@.len() <= cs@.len() {
            assert(s@.subrange(0, ps@.len() as int) =~= s@.take(ps@.len() as int));
        }
    }
    r
}

/// Whether `a` and `b` are the same text.
pub fn same_text(a: &str, b: &str) -> (r: bool)
    ensures
        r == (a@ == b@),
{
    let ca = chars_of(a);
    let cb = chars_of(b);
    if ca.len() != cb.len() {
        return false;
    }
    let r = occurs(&ca, &cb, 0);
    assert(r == (a@ == b@)) by {
        assert(a@.subrange(0, b@.len() as int) =~= a@);
    }
    r
}

/// Prefixes of a string of digits write no larger numbers.
pub proof fn lemma_decimal_prefix(d: Seq<char>, k: int)
    requires
        0 <= k <= d.len(),
        forall|i: int| 0 <= i < d.len() ==> is_digit(#[trigger] d[i]),
    ensures
        decimal_value(d.take(k)) <= decimal_value(d),
    decreases d.len(),
{
    if k < d.len() {
        let d0 = d.drop_last();
        assert(forall|i: int| 0 <= i < d0.len() ==> is_digit(#[trigger] d0[i])) by {
            assert forall|i: int| 0 <= i < d0.len() implies is_digit(#[trigger] d0[i]) by {
                assert(d0[i] == d[i]);
            }
        }
        lemma_decimal_prefix(d0, k);
        assert(d0.take(k) =~= d.take(k));
    } else {
        assert(d.take(k) =~= d);
    }
}

/// The value of the decimal digit `c`, if it is one.
fn digit_value(c: char) -> (r: Option<u64>)
    ensures
        r is Some <==> is_digit(c),
        r matches Some(d) ==> d == c as int - '0' as int,
{
    match c {
        '0' => Some(0u64),
        '1' => Some(1u64),
        '2' => Some(2u64),
        '3' => Some(3u64),
        '4' => Some(4u64),
        '5' => Some(5u64),
        '6' => Some(6u64),
        '7' => Some(7u64),
        '8' => Some(8u64),
        '9' => Some(9u64),
        _ => None,
    }
}

/// The 32-bit signed number that `s` writes in decimal: an optional `+` or
/// `-`, then at least one ASCII digit, and nothing else; nothing if `s` is
/// not of that form or the number is out of range.
pub fn parse_i32(s: &str) -> (r: Option<i32>)
    ensures
        r == parse_i32_spec(s@),
{
    let cs = chars_of(s);
    let n = cs.len();
    if n == 0 {
        return None;
    }
    let negative = cs[0] == '-';
    let first: usize = if cs[0] == '-' || cs[0] == '+' {
        1
    } else {
        0
    };
    let ghost digits = s@.subrange(first as int, n as int);
    assert(digits =~= unsigned_part(s@));
    if first == n {
        return None;
    }
    let mut acc: u64 = 0;
    let mut i: usize = first;
    assert(digits.take(0) =~= Seq::<char>::empty());
    while i < n
        invariant
            first < n,
            n == s@.len(),
            cs@ == s@,
            digits == s@.subrange(first as int, n as int),
            digits == unsigned_part(s@),
            negative == (s@.len() > 0 && s@[0] == '-'),
            first <= i <= n,
            acc == decimal_value(digits.take(i - first)),
            acc <= 2147483648,
            forall|j: int| 0 <= j < i - first ==> is_digit(#[trigger] digits[j]),
        decreases n - i,
    {
        let c = cs[i];
        let digit = match digit_value(c) {
            Some(d) => d,
            None => {
                assert(!is_digit(digits[i - first]));
                return None;
            },
        };
        let ghost prefix = digits.take(i - first + 1);
        assert(prefix.drop_last() =~= digits.take(i - first));
        assert(prefix.last() == c);
        acc = acc * 10 + digit;
        assert(acc == decimal_value(prefix));
        i = i + 1;
        if acc > 2147483648 {
            proof {
                if all_digits(digits) {
                    lemma_decimal_prefix(digits, i - first);
                }
            }
            return None;
        }
    }
    assert(digits.take(n - first) =~= digits);
    if negative {
        let v: i64 = 0i64 - (acc as i64);
        Some(v as i32)
    } else if acc <= 2147483647 {
        Some(acc as i32)
    } else {
        None
    }
}

/// Whether `c` has the Unicode White_Space property.
pub open spec fn is_white_space(c: char) -> bool {
    ||| ('\u{9}' <= c <= '\u{d}')
    ||| c == ' '
    ||| c == '\u{85}'
    ||| c == '\u{a0}'
    ||| c == '\u{1680}'
    ||| ('\u{2000}' <= c <= '\u{200a}')
    ||| c == '\u{2028}'
    ||| c == '\u{2029}'
    ||| c == '\u{202f}'
    ||| c == '\u{205f}'
    ||| c == '\u{3000}'
}

/// `s` without the white space at its start.
pub open spec fn trim_start_spec(s: Seq<char>) -> Seq<char>
    decreases s.len(),
{
    if s.len() > 0 && is_white_space(s[0]) {
        trim_start_spec(s.drop_first())
    } else {
        s
    }
}

/// `s` without the white space at its end.
pub open spec fn trim_end_spec(s: Seq<char>) -> Seq<char>
    decreases s.len(),
{
    if s.len() > 0 && is_white_space(s.last()) {
        trim_end_spec(s.drop_last())
    } else {
        s
    }
}

/// `s` without the white space at either end.
pub open spec fn trimmed(s: Seq<char>) -> Seq<char> {
    trim_end_spec(trim_start_spec(s))
}

proof fn lemma_trim_start(s: Seq<char>) -> (a: int)
    ensures
        0 <= a <= s.len(),
        trim_start_spec(s) == s.subrange(a, s.len() as int),
        forall|i: int| 0 <= i < a ==> is_white_space(#[trigger] s[i]),
        a < s.len() ==> !is_white_space(s[a]),
    decreases s.len(),
{
    if s.len() > 0 && is_white_space(s[0]) {
        let a0 = lemma_trim_start(s.drop_first());
        assert(s.drop_first().subrange(a0, s.len() - 1) =~= s.subrange(a0 + 1, s.len() as int));
        assert forall|i: int| 0 <= i < a0 + 1 implies is_white_space(#[trigger] s[i]) by {
            if i > 0 {
                assert(s[i] == s.drop_first()[i - 1]);
            }
        }
        a0 + 1
    } else {
        assert(s.subrange(0, s.len() as int) =~= s);
        0
    }
}

proof fn lemma_trim_end(s: Seq<char>) -> (b: int)
    ensures
        0 <= b <= s.len(),
        trim_end_spec(s) == s.subrange(0, b),
        forall|i: int| b <= i < s.len() ==> is_white_space(#[trigger] s[i]),
        b > 0 ==> !is_white_space(s[b - 1]),
    decreases s.len(),
{
    if s.len() > 0 && is_white_space(s.last()) {
        let b0 = lemma_trim_end(s.drop_last());
        assert(s.drop_last().subrange(0, b0) =~= s.subrange(0, b0));
        assert forall|i: int| b0 <= i < s.len() implies is_white_space(#[trigger] s[i]) by {
            if i < s.len() - 1 {
                assert(s[i] == s.drop_last()[i]);
            }
        }
        b0
    } else {
        assert(s.subrange(0, s.len() as int) =~= s);
        s.len() as int
    }
}

/// Trimming keeps an inner piece of the text: what it removes at either
/// end is white space, and what it keeps neither starts nor ends with
/// white space.
pub proof fn lemma_trimmed_is_inner_piece(s: Seq<char>)
    ensures
        exists|a: int, b: int|
            #![trigger s.subrange(a, b)]
            0 <= a <= b <= s.len() && trimmed(s) == s.subrange(a, b) && (forall|i: int|
                0 <= i < a ==> is_white_space(#[trigger] s[i])) && (forall|i: int|
                b <= i < s.len() ==> is_white_space(#[trigger] s[i])),
        trimmed(s).len() > 0 ==> !is_white_space(trimmed(s)[0]) && !is_white_space(trimmed(s).last()),
{
    let a = lemma_trim_start(s);
    let t = s.subrange(a, s.len() as int);
    let b = lemma_trim_end(t);
    assert(t.subrange(0, b) =~= s.subrange(a, a + b));
    assert forall|i: int| a + b <= i < s.len() implies is_white_space(#[trigger] s[i]) by {
        assert(s[i] == t[i - a]);
    }
    if b > 0 {
        assert(t[0] == s[a]);
        assert(t.subrange(0, b)[0] == t[0]);
        assert(t.subrange(0, b).last() == t[b - 1]);
    }
    assert(0 <= a <= a + b <= s.len() && trimmed(s) == s.subrange(a, a + b));
}

/// Whether `c` has the Unicode White_Space property.
pub fn is_white(c: char) -> (r: bool)
    ensures
        r == is_white_space(c),
{
    c == '\t' || c == '\n' || c == '\u{b}' || c == '\u{c}' || c == '\r' || c == ' ' || c == '\u{85}'
        || c == '\u{a0}' || c == '\u{1680}' || c == '\u{2000}' || c == '\u{2001}' || c == '\u{2002}'
        || c == '\u{2003}' || c == '\u{2004}' || c == '\u{2005}' || c == '\u{2006}' || c == '\u{2007}'
        || c == '\u{2008}' || c == '\u{2009}' || c == '\u{200a}' || c == '\u{2028}' || c == '\u{2029}'
        || c == '\u{202f}' || c == '\u{205f}' || c == '\u{3000}'
}

/// `s` without the white space at either end.
pub fn trim(s: &str) -> (r: String)
    ensures
        r@ == trimmed(s@),
{
    let cs = chars_of(s);
    let n = cs.len();
    let mut a: usize = 0;
    assert(s@.subrange(0, n as int) =~= s@);
    while a < n && is_white(cs[a])
        invariant
            a <= n,
            n == s@.len(),
            cs@ == s@,
            trim_start_spec(s@) == trim_start_spec(s@.subrange(a as int, n as int)),
        decreases n - a,
    {
        assert(s@.subrange(a as int, n as int).drop_first() =~= s@.subrange(a + 1, n as int));
        a = a + 1;
    }
    let ghost front = s@.subrange(a as int, n as int);
    assert(trim_start_spec(front) == front);
    let mut b: usize = n;
    while b > a && is_white(cs[b - 1])
        invariant
            a <= b <= n,
            n == s@.len(),
            cs@ == s@,
            front == s@.subrange(a as int, n as int),
            trim_end_spec(front) == trim_end_spec(s@.subrange(a as int, b as int)),
        decreases b - a,
    {
        assert(s@.subrange(a as int, b as int).drop_last() =~= s@.subrange(a as int, b - 1));
        b = b - 1;
    }
    assert(trim_end_spec(s@.subrange(a as int, b as int)) == s@.subrange(a as int, b as int));
    String::from_str(s.substring_char(a, b))
}

/// The text that the bytes `bytes` encode in UTF-8, with the standard
/// library's `str::from_utf8`.
#[verifier::external_body]
fn utf8_str(bytes: &[u8]) -> (r: Option<&str>)
    ensures
        r is Some <==> valid_utf8(bytes@),
        r matches Some(t) ==> t.spec_bytes() == bytes@,
{
    std::str::from_utf8(bytes).ok()
}

/// The text that `bytes` encode in UTF-8, if they are valid UTF-8.
pub fn utf8_text(bytes: &[u8]) -> (r: Option<String>)
    ensures
        r is Some <==> valid_utf8(bytes@),
        r matches Some(t) ==> t@ == decode_utf8(bytes@),
{
    broadcast use vstd::utf8::encode_utf8_decode_utf8;

    match utf8_str(bytes) {
        Some(t) => Some(String::from_str(t)),
        None => None,
    }
}

/// The text of a received message: its bytes read as UTF-8, without white
/// space at either end; nothing if they are not valid UTF-8.
pub fn message_text(bytes: &[u8]) -> (r: Option<String>)
    ensures
        r is Some <==> valid_utf8(bytes@),
        r matches Some(t) ==> t@ == trimmed(decode_utf8(bytes@)),
{
    match utf8_text(bytes) {
        Some(t) => Some(trim(t.as_str())),
        None => None,
    }
}

} // verus!
