//! Byte and character helpers shared by the protocol modules: literals, searching,
//! ASCII case folding, decimal numbers, Unicode whitespace, and the few std string
//! conversions that vstd leaves unspecified.
use vstd::prelude::*;
use vstd::utf8::{decode_utf8, valid_utf8};

verus! {

// ---------------------------------------------------------------------------
// Bytes
// ---------------------------------------------------------------------------
/// The bytes of an ASCII character sequence.
pub open spec fn ascii(s: Seq<char>) -> Seq<u8> {
    Seq::new(s.len(), |i: int| s[i] as u8)
}

/// Whether every character of `s` is ASCII.
pub open spec fn all_ascii(s: Seq<char>) -> bool {
    vstd::utf8::is_ascii_chars(s)
}

/// The bytes of an ASCII string literal.
pub fn lit(s: &str) -> (b: &[u8])
    requires
        all_ascii(s@),
    ensures
        b@ == ascii(s@),
{
    proof {
        broadcast use vstd::string::group_string_axioms;

        assert(vstd::string::is_ascii(s));
    }
    let b = s.as_bytes();
    assert(b@ =~= ascii(s@));
    b
}

/// ASCII text is valid UTF-8, is its own encoding, and decodes back to itself.
pub proof fn lemma_ascii_utf8(cs: Seq<char>)
    requires
        all_ascii(cs),
    ensures
        vstd::utf8::encode_utf8(cs) == ascii(cs),
        valid_utf8(ascii(cs)),
        decode_utf8(ascii(cs)) == cs,
{
    vstd::utf8::is_ascii_chars_encode_utf8(cs);
    assert(vstd::utf8::encode_utf8(cs) =~= ascii(cs));
    vstd::utf8::encode_utf8_valid_utf8(cs);
    vstd::utf8::encode_utf8_decode_utf8(cs);
}

/// The encoding of joined text is the joined encodings.
pub proof fn lemma_encode_concat(a: Seq<char>, b: Seq<char>)
    ensures
        vstd::utf8::encode_utf8(a + b) == vstd::utf8::encode_utf8(a) + vstd::utf8::encode_utf8(b),
    decreases a.len(),
{
    if a.len() == 0 {
        assert(a + b =~= b);
        assert(vstd::utf8::encode_utf8(a) =~= Seq::<u8>::empty());
        assert(vstd::utf8::encode_utf8(a) + vstd::utf8::encode_utf8(b) =~= vstd::utf8::encode_utf8(b));
    } else {
        lemma_encode_concat(a.drop_first(), b);
        assert((a + b).drop_first() =~= a.drop_first() + b);
        assert((a + b)[0] == a[0]);
    }
}

/// Appends `s` to `v`.
pub fn extend_bytes(v: &mut Vec<u8>, s: &[u8])
    ensures
        final(v)@ == old(v)@ + s@,
{
    let mut i: usize = 0;
    while i < s.len()
        invariant
            0 <= i <= s@.len(),
            v@ == old(v)@ + s@.subrange(0, i as int),
        decreases s@.len() - i,
    {
        v.push(s[i]);
        i = i + 1;
        assert(s@.subrange(0, i as int) == s@.subrange(0, i - 1 as int).push(s@[i - 1]));
    }
    assert(s@.subrange(0, s@.len() as int) == s@);
}

/// A copy of `s[start..end]`.
pub fn copy_range(s: &[u8], start: usize, end: usize) -> (r: Vec<u8>)
    requires
        start <= end <= s@.len(),
    ensures
        r@ == s@.subrange(start as int, end as int),
{
    let mut r: Vec<u8> = Vec::new();
    let mut i = start;
    while i < end
        invariant
            start <= i <= end <= s@.len(),
            r@ == s@.subrange(start as int, i as int),
        decreases end - i,
    {
        r.push(s[i]);
        i = i + 1;
        assert(s@.subrange(start as int, i as int) == s@.subrange(start as int, i - 1 as int).push(
            s@[i - 1],
        ));
    }
    r
}

/// Whether the two byte sequences are equal.
pub fn bytes_equal(a: &[u8], b: &[u8]) -> (r: bool)
    ensures
        r == (a@ == b@),
{
    if a.len() != b.len() {
        return false;
    }
    let mut i: usize = 0;
    while i < a.len()
        invariant
            a@.len() == b@.len(),
            0 <= i <= a@.len(),
            forall|k: int| 0 <= k < i ==> a@[k] == b@[k],
        decreases a@.len() - i,
    {
        if a[i] != b[i] {
            return false;
        }
        i = i + 1;
    }
    assert(a@ =~= b@);
    true
}

/// Whether `s` begins with `prefix`.
pub open spec fn has_prefix(s: Seq<u8>, prefix: Seq<u8>) -> bool {
    prefix.len() <= s.len() && s.subrange(0, prefix.len() as int) == prefix
}

/// Whether `s` begins with `prefix`.
pub fn starts_with(s: &[u8], prefix: &[u8]) -> (r: bool)
    ensures
        r == has_prefix(s@, prefix@),
{
    if prefix.len() > s.len() {
        return false;
    }
    let mut i: usize = 0;
    while i < prefix.len()
        invariant
            prefix@.len() <= s@.len(),
            0 <= i <= prefix@.len(),
            forall|k: int| 0 <= k < i ==> s@[k] == prefix@[k],
        decreases prefix@.len() - i,
    {
        if s[i] != prefix[i] {
            assert(s@.subrange(0, prefix@.len() as int)[i as int] != prefix@[i as int]);
            return false;
        }
        i = i + 1;
    }
    assert(s@.subrange(0, prefix@.len() as int) =~= prefix@);
    true
}

/// Whether `pat` occurs in `s` at position `i`.
pub open spec fn occurs_at(s: Seq<u8>, pat: Seq<u8>, i: int) -> bool {
    0 <= i && i + pat.len() <= s.len() && s.subrange(i, i + pat.len()) == pat
}

/// The position of the first occurrence of `pat` in `s`, if any.
pub open spec fn first_occurrence(s: Seq<u8>, pat: Seq<u8>) -> Option<int> {
    if exists|i: int| occurs_at(s, pat, i) {
        Some(choose|i: int| occurs_at(s, pat, i) && forall|j: int| 0 <= j < i ==> !occurs_at(s, pat, j))
    } else {
        None
    }
}

fn occurs_at_exec(s: &[u8], pat: &[u8], i: usize) -> (r: bool)
    requires
        i + pat@.len() <= s@.len(),
    ensures
        r == occurs_at(s@, pat@, i as int),
{
    let n = s.len();
    let mut k: usize = 0;
    while k < pat.len()
        invariant
            i + pat@.len() <= s@.len(),
            n == s@.len(),
            0 <= k <= pat@.len(),
            forall|m: int| 0 <= m < k ==> s@[i + m] == pat@[m],
        decreases pat@.len() - k,
    {
        if s[i + k] != pat[k] {
            assert(s@.subrange(i as int, i + pat@.len())[k as int] != pat@[k as int]);
            return false;
        }
        k = k + 1;
    }
    assert(s@.subrange(i as int, i + pat@.len()) =~= pat@);
    true
}

/// Finds the first occurrence of `pat` in `s`.
pub fn find(s: &[u8], pat: &[u8]) -> (r: Option<usize>)
    ensures
        match r {
            Some(i) => occurs_at(s@, pat@, i as int) && forall|j: int|
                0 <= j < i ==> !occurs_at(s@, pat@, j),
            None => forall|j: int| !occurs_at(s@, pat@, j),
        },
        r matches Some(i) ==> first_occurrence(s@, pat@) == Some(i as int),
        r is None ==> first_occurrence(s@, pat@) is None,
{
    if pat.len() > s.len() {
        return None;
    }
    let last = s.len() - pat.len();
    let mut i: usize = 0;
    loop
        invariant
            last == s@.len() - pat@.len(),
            0 <= i <= last,
            forall|j: int| 0 <= j < i ==> !occurs_at(s@, pat@, j),
        decreases last - i,
    {
        if occurs_at_exec(s, pat, i) {
            proof {
                let w = choose|w: int|
                    occurs_at(s@, pat@, w) && forall|j: int| 0 <= j < w ==> !occurs_at(s@, pat@, j);
                assert(occurs_at(s@, pat@, w) && forall|j: int| 0 <= j < w ==> !occurs_at(
                    s@,
                    pat@,
                    j,
                )) by {
                    assert(occurs_at(s@, pat@, i as int) && forall|j: int|
                        0 <= j < i ==> !occurs_at(s@, pat@, j));
                }
                if w < i {
                } else if w > i {
                }
                assert(w == i);
            }
            return Some(i);
        }
        if i == last {
            assert forall|j: int| !occurs_at(s@, pat@, j) by {
                if 0 <= j && j <= i {
                }
            }
            return None;
        }
        i = i + 1;
    }
}

/// Finds the first position of byte `b` in `s`.
pub fn find_byte(s: &[u8], b: u8) -> (r: Option<usize>)
    ensures
        match r {
            Some(i) => i < s@.len() && s@[i as int] == b && forall|j: int| 0 <= j < i ==> s@[j] != b,
            None => forall|j: int| 0 <= j < s@.len() ==> s@[j] != b,
        },
{
    let mut i: usize = 0;
    while i < s.len()
        invariant
            0 <= i <= s@.len(),
            forall|j: int| 0 <= j < i ==> s@[j] != b,
        decreases s@.len() - i,
    {
        if s[i] == b {
            return Some(i);
        }
        i = i + 1;
    }
    None
}

/// ASCII lower case of one byte.
pub open spec fn lower_byte(b: u8) -> u8 {
    if 65 <= b <= 90 {
        (b + 32) as u8
    } else {
        b
    }
}

/// ASCII lower case of a byte sequence.
pub open spec fn lower_bytes(s: Seq<u8>) -> Seq<u8> {
    Seq::new(s.len(), |i: int| lower_byte(s[i]))
}

/// Whether `a` and `b` are equal up to ASCII case.
pub fn eq_ignore_ascii_case(a: &[u8], b: &[u8]) -> (r: bool)
    ensures
        r == (lower_bytes(a@) == lower_bytes(b@)),
{
    if a.len() != b.len() {
        assert(lower_bytes(a@).len() != lower_bytes(b@).len());
        return false;
    }
    let mut i: usize = 0;
    while i < a.len()
        invariant
            a@.len() == b@.len(),
            0 <= i <= a@.len(),
            forall|k: int| 0 <= k < i ==> lower_byte(a@[k]) == lower_byte(b@[k]),
        decreases a@.len() - i,
    {
        let x = a[i];
        let y = b[i];
        let lx = if 65 <= x && x <= 90 {
            x + 32
        } else {
            x
        };
        let ly = if 65 <= y && y <= 90 {
            y + 32
        } else {
            y
        };
        if lx != ly {
            assert(lower_bytes(a@)[i as int] != lower_bytes(b@)[i as int]);
            return false;
        }
        i = i + 1;
    }
    assert(lower_bytes(a@) =~= lower_bytes(b@));
    true
}

/// The pieces of `s` between the separator bytes, as `str::split` yields them
/// (an empty input gives one empty piece).
pub open spec fn split_on<A>(s: Seq<A>, sep: A) -> Seq<Seq<A>>
    decreases s.len(),
{
    if s.len() == 0 {
        seq![Seq::<A>::empty()]
    } else {
        let p = split_on(s.drop_last(), sep);
        if s.last() == sep {
            p.push(Seq::<A>::empty())
        } else {
            p.update(p.len() - 1, p.last().push(s.last()))
        }
    }
}

/// Splits the characters `s` at every `sep`.
pub fn split_chars(s: &[char], sep: char) -> (r: Vec<Vec<char>>)
    ensures
        char_views(r@) == split_on(s@, sep),
{
    let mut r: Vec<Vec<char>> = Vec::new();
    r.push(Vec::new());
    assert(char_views(r@) =~= split_on(s@.subrange(0, 0), sep));
    let mut i: usize = 0;
    while i < s.len()
        invariant
            0 <= i <= s@.len(),
            char_views(r@) == split_on(s@.subrange(0, i as int), sep),
        decreases s@.len() - i,
    {
        let b = s[i];
        let ghost pre = s@.subrange(0, i as int);
        let ghost cur = s@.subrange(0, i + 1);
        assert(cur.drop_last() =~= pre);
        proof {
            lemma_split_on_nonempty(pre, sep);
        }
        let ghost before = r@;
        if b == sep {
            r.push(Vec::new());
            assert(char_views(r@) =~= char_views(before).push(Seq::<char>::empty()));
        } else {
            let mut last = r.pop().unwrap();
            assert(last@ == char_views(before).last());
            last.push(b);
            r.push(last);
            assert(char_views(r@) =~= char_views(before).update(
                char_views(before).len() - 1,
                char_views(before).last().push(b),
            ));
        }
        i = i + 1;
    }
    assert(s@.subrange(0, s@.len() as int) =~= s@);
    r
}

/// Splitting always gives at least one piece.
pub proof fn lemma_split_on_nonempty<A>(s: Seq<A>, sep: A)
    ensures
        split_on(s, sep).len() >= 1,
    decreases s.len(),
{
    if s.len() > 0 {
        lemma_split_on_nonempty(s.drop_last(), sep);
    }
}

/// The byte sequences held by a vector of byte vectors.
pub open spec fn byte_seqs(v: Seq<Vec<u8>>) -> Seq<Seq<u8>> {
    Seq::new(v.len(), |i: int| v[i]@)
}

/// Text without the separator is a single piece.
pub proof fn lemma_split_on_single<A>(x: Seq<A>, sep: A)
    requires
        forall|i: int| 0 <= i < x.len() ==> x[i] != sep,
    ensures
        split_on(x, sep) == seq![x],
    decreases x.len(),
{
    if x.len() > 0 {
        lemma_split_on_single(x.drop_last(), sep);
        assert(x.drop_last().push(x.last()) =~= x);
        assert(seq![x.drop_last()].update(0, x.drop_last().push(x.last())) =~= seq![x]);
    } else {
        assert(x =~= Seq::<A>::empty());
    }
}

/// Splitting `a`, a separator, then `b` gives the pieces of `a` followed by those of `b`.
pub proof fn lemma_split_on_join<A>(a: Seq<A>, b: Seq<A>, sep: A)
    ensures
        split_on(a + seq![sep] + b, sep) == split_on(a, sep) + split_on(b, sep),
    decreases b.len(),
{
    let c = a + seq![sep] + b;
    if b.len() == 0 {
        assert(c.drop_last() =~= a);
        assert(split_on(b, sep) == seq![Seq::<A>::empty()]);
        assert(split_on(c, sep) =~= split_on(a, sep) + split_on(b, sep));
    } else {
        let bd = b.drop_last();
        assert(c.drop_last() =~= a + seq![sep] + bd);
        lemma_split_on_join(a, bd, sep);
        lemma_split_on_nonempty(bd, sep);
        let p = split_on(a, sep);
        let q = split_on(bd, sep);
        if b.last() == sep {
            assert(split_on(c, sep) =~= p + q.push(Seq::<A>::empty()));
        } else {
            assert(split_on(c, sep) =~= (p + q).update((p + q).len() - 1, (p + q).last().push(b.last())));
            assert((p + q).update((p + q).len() - 1, (p + q).last().push(b.last())) =~= p + q.update(
                q.len() - 1,
                q.last().push(b.last()),
            ));
        }
    }
}

/// Splits `s` at every `sep` byte.
pub fn split_bytes(s: &[u8], sep: u8) -> (r: Vec<Vec<u8>>)
    ensures
        byte_seqs(r@) == split_on(s@, sep),
{
    let mut r: Vec<Vec<u8>> = Vec::new();
    r.push(Vec::new());
    assert(byte_seqs(r@) =~= split_on(s@.subrange(0, 0), sep));
    let mut i: usize = 0;
    while i < s.len()
        invariant
            0 <= i <= s@.len(),
            byte_seqs(r@) == split_on(s@.subrange(0, i as int), sep),
        decreases s@.len() - i,
    {
        let b = s[i];
        let ghost pre = s@.subrange(0, i as int);
        let ghost cur = s@.subrange(0, i + 1);
        assert(cur.drop_last() =~= pre);
        proof {
            lemma_split_on_nonempty(pre, sep);
        }
        let ghost before = r@;
        if b == sep {
            r.push(Vec::new());
            assert(byte_seqs(r@) =~= byte_seqs(before).push(Seq::<u8>::empty()));
        } else {
            let mut last = r.pop().unwrap();
            assert(last@ == byte_seqs(before).last());
            last.push(b);
            r.push(last);
            assert(byte_seqs(r@) =~= byte_seqs(before).update(
                byte_seqs(before).len() - 1,
                byte_seqs(before).last().push(b),
            ));
        }
        i = i + 1;
    }
    assert(s@.subrange(0, s@.len() as int) =~= s@);
    r
}

// ---------------------------------------------------------------------------
// Decimal numbers
// ---------------------------------------------------------------------------
/// Whether `b` is an ASCII digit.
pub open spec fn is_digit(b: u8) -> bool {
    48 <= b <= 57
}

/// Whether every byte of `s` is an ASCII digit.
pub open spec fn all_digits(s: Seq<u8>) -> bool {
    forall|i: int| 0 <= i < s.len() ==> is_digit(s[i])
}

/// The value of a sequence of ASCII digits.
pub open spec fn digits_value(s: Seq<u8>) -> nat
    decreases s.len(),
{
    if s.len() == 0 {
        0
    } else {
        digits_value(s.drop_last()) * 10 + (s.last() - 48) as nat
    }
}

/// The digits of an unsigned number after an optional leading `+`.
pub open spec fn unsigned_body(s: Seq<u8>) -> Seq<u8> {
    if s.len() > 0 && s[0] == 43 {
        s.drop_first()
    } else {
        s
    }
}

/// How std parses an unsigned integer no larger than `max` from `s`: an optional `+`,
/// then one or more ASCII digits, whose value must not exceed `max`.
pub open spec fn parse_unsigned(s: Seq<u8>, max: nat) -> Option<nat> {
    if unsigned_body(s).len() > 0 && all_digits(unsigned_body(s)) && digits_value(unsigned_body(s))
        <= max {
        Some(digits_value(unsigned_body(s)))
    } else {
        None
    }
}

proof fn lemma_digits_value_prefix_bound(s: Seq<u8>, k: int)
    requires
        0 <= k <= s.len(),
        all_digits(s),
    ensures
        digits_value(s.subrange(0, k)) <= digits_value(s),
    decreases s.len() - k,
{
    if k < s.len() {
        lemma_digits_value_prefix_bound(s, k + 1);
        assert(s.subrange(0, k + 1).drop_last() =~= s.subrange(0, k));
    } else {
        assert(s.subrange(0, k) =~= s);
    }
}

/// Parses an unsigned decimal number no larger than `max`, as std's `from_str` does.
pub fn parse_unsigned_bytes(s: &[u8], max: u64) -> (r: Option<u64>)
    ensures
        match parse_unsigned(s@, max as nat) {
            Some(v) => r == Some(v as u64),
            None => r is None,
        },
{
    let mut start: usize = 0;
    if s.len() > 0 && s[0] == 43 {
        start = 1;
    }
    let ghost d = unsigned_body(s@);
    assert(d =~= s@.subrange(start as int, s@.len() as int));
    if start >= s.len() {
        return None;
    }
    let mut value: u64 = 0;
    let mut i = start;
    while i < s.len()
        invariant
            start <= i <= s@.len(),
            d == s@.subrange(start as int, s@.len() as int),
            d == unsigned_body(s@),
            all_digits(s@.subrange(start as int, i as int)),
            value as nat == digits_value(s@.subrange(start as int, i as int)),
            value <= max,
        decreases s@.len() - i,
    {
        let b = s[i];
        let ghost prev = s@.subrange(start as int, i as int);
        let ghost next = s@.subrange(start as int, i + 1 as int);
        assert(next.drop_last() =~= prev);
        if b < 48 || b > 57 {
            assert(d[i - start] == s@[i as int]);
            assert(!is_digit(d[i - start]));
            assert(!all_digits(d));
            assert(unsigned_body(s@) == d);
            assert(!all_digits(unsigned_body(s@)));
            assert(parse_unsigned(s@, max as nat) is None);
            return None;
        }
        let digit = (b - 48) as u64;
        assert(digits_value(next) == value * 10 + digit);
        if value > max / 10 || digit > max - value * 10 {
            proof {
                assert(value * 10 + digit > max) by (nonlinear_arith)
                    requires
                        value > max / 10 || digit + value * 10 > max,
                ;
                if all_digits(d) {
                    lemma_digits_value_prefix_bound(d, (i + 1 - start) as int);
                    assert(d.subrange(0, (i + 1 - start) as int) =~= next);
                    assert(digits_value(d) > max);
                }
                assert(parse_unsigned(s@, max as nat) is None);
            }
            return None;
        }
        value = value * 10 + digit;
        i = i + 1;
    }
    assert(s@.subrange(start as int, s@.len() as int) == d);
    Some(value)
}

/// The decimal digits of `n`, most significant first, without leading zeros.
pub open spec fn decimal(n: nat) -> Seq<u8>
    decreases n,
{
    if n < 10 {
        seq![(n + 48) as u8]
    } else {
        decimal(n / 10).push((n % 10 + 48) as u8)
    }
}

/// The decimal text of `n` as characters.
pub open spec fn decimal_chars(n: nat) -> Seq<char> {
    Seq::new(decimal(n).len(), |i: int| decimal(n)[i] as char)
}

/// Formats `n` in decimal.
pub fn decimal_bytes(n: u64) -> (r: Vec<u8>)
    ensures
        r@ == decimal(n as nat),
    decreases n,
{
    if n < 10 {
        let mut v: Vec<u8> = Vec::new();
        v.push((n + 48) as u8);
        assert(v@ =~= seq![(n + 48) as u8]);
        v
    } else {
        let mut v = decimal_bytes(n / 10);
        v.push((n % 10 + 48) as u8);
        v
    }
}

/// The decimal text of a number: non-empty ASCII digits, no sign, reading back as the number.
pub proof fn lemma_decimal_digits(n: nat)
    ensures
        decimal(n).len() > 0,
        all_digits(decimal(n)),
        digits_value(decimal(n)) == n,
        decimal(n)[0] != 43,
    decreases n,
{
    if n >= 10 {
        lemma_decimal_digits(n / 10);
        let d = decimal(n);
        assert((n / 10) * 10 + n % 10 == n) by (nonlinear_arith);
        assert(d.drop_last() =~= decimal(n / 10));
        assert(d[0] == decimal(n / 10)[0]);
        assert(d.last() == (n % 10 + 48) as u8);
        assert((d.last() - 48) as nat == n % 10);
        assert(digits_value(d) == digits_value(decimal(n / 10)) * 10 + n % 10);
        assert(digits_value(decimal(n / 10)) == n / 10);
        assert(digits_value(d) == n);
    } else {
        let d = decimal(n);
        assert(d.drop_last() =~= Seq::<u8>::empty());
        assert(d.last() as nat == n + 48);
        assert(digits_value(d.drop_last()) == 0);
        assert(digits_value(d) == n);
    }
}

/// Printing a number in decimal and parsing it back gives the number again.
pub proof fn lemma_parse_decimal(n: nat, max: nat)
    requires
        n <= max,
    ensures
        parse_unsigned(decimal(n), max) == Some(n),
{
    lemma_decimal_digits(n);
    assert(unsigned_body(decimal(n)) == decimal(n));
}

/// The decimal text of `n` as a `String`.
pub fn decimal_string(n: u64) -> (r: String)
    ensures
        r@ == decimal_chars(n as nat),
{
    let d = decimal_bytes(n);
    let mut s = String::new();
    let mut i: usize = 0;
    proof {
        lemma_decimal_digits(n as nat);
    }
    while i < d.len()
        invariant
            d@ == decimal(n as nat),
            all_digits(d@),
            0 <= i <= d@.len(),
            s@ == decimal_chars(n as nat).subrange(0, i as int),
        decreases d@.len() - i,
    {
        let c = d[i] as char;
        string_push(&mut s, c);
        i = i + 1;
        assert(s@ =~= decimal_chars(n as nat).subrange(0, i as int));
    }
    assert(s@ =~= decimal_chars(n as nat));
    s
}

/// The decimal text of a byte value.
pub open spec fn decimal_chars_u8(n: u8) -> Seq<char> {
    decimal_chars(n as nat)
}

/// Formats a byte value in decimal.
pub fn decimal_string_u8(n: u8) -> (r: String)
    ensures
        r@ == decimal_chars_u8(n),
{
    decimal_string(n as u64)
}

// ---------------------------------------------------------------------------
// Characters
// ---------------------------------------------------------------------------
/// Unicode `White_Space`, the property that `char::is_whitespace` tests.
pub open spec fn is_whitespace(c: char) -> bool {
    let u = c as u32;
    (9 <= u <= 13) || u == 32 || u == 0x85 || u == 0xA0 || u == 0x1680 || (0x2000 <= u <= 0x200A)
        || u == 0x2028 || u == 0x2029 || u == 0x202F || u == 0x205F || u == 0x3000
}

/// Whether `c` is Unicode whitespace.
pub fn char_is_whitespace(c: char) -> (r: bool)
    ensures
        r == is_whitespace(c),
{
    let u = c as u32;
    (9 <= u && u <= 13) || u == 32 || u == 0x85 || u == 0xA0 || u == 0x1680 || (0x2000 <= u && u
        <= 0x200A) || u == 0x2028 || u == 0x2029 || u == 0x202F || u == 0x205F || u == 0x3000
}

/// The characters of `s`.
pub fn to_chars(s: &str) -> (r: Vec<char>)
    ensures
        r@ == s@,
{
    let mut r: Vec<char> = Vec::new();
    for c in it: s.chars()
        invariant
            r@ == it.seq().subrange(0, it.index() as int),
            it.seq() == s@,
    {
        r.push(c);
    }
    r
}

/// A `String` holding the characters `cs[start..end]`.
pub fn string_of(cs: &[char], start: usize, end: usize) -> (r: String)
    requires
        start <= end <= cs@.len(),
    ensures
        r@ == cs@.subrange(start as int, end as int),
{
    let mut s = String::new();
    let mut i = start;
    while i < end
        invariant
            start <= i <= end <= cs@.len(),
            s@ == cs@.subrange(start as int, i as int),
        decreases end - i,
    {
        string_push(&mut s, cs[i]);
        i = i + 1;
        assert(s@ =~= cs@.subrange(start as int, i as int));
    }
    s
}

/// The position of the first character of `s` that is not whitespace (or `s.len()`).
pub open spec fn trim_start_index(s: Seq<char>) -> int
    decreases s.len(),
{
    if s.len() > 0 && is_whitespace(s[0]) {
        trim_start_index(s.drop_first()) + 1
    } else {
        0
    }
}

/// `s` without leading and trailing whitespace, as `str::trim` returns it.
pub open spec fn trimmed(s: Seq<char>) -> Seq<char>
    decreases s.len(),
{
    if s.len() > 0 && is_whitespace(s[0]) {
        trimmed(s.drop_first())
    } else if s.len() > 0 && is_whitespace(s.last()) {
        trimmed(s.drop_last())
    } else {
        s
    }
}

/// `s[start..end]` with leading and trailing whitespace removed.
pub fn trim_range(s: &[char], start: usize, end: usize) -> (r: (usize, usize))
    requires
        start <= end <= s@.len(),
    ensures
        start <= r.0 <= r.1 <= end,
        s@.subrange(r.0 as int, r.1 as int) == trimmed(s@.subrange(start as int, end as int)),
{
    let mut a = start;
    let mut b = end;
    while a < b && char_is_whitespace(s[a])
        invariant
            start <= a <= b <= end <= s@.len(),
            b == end,
            trimmed(s@.subrange(a as int, b as int)) == trimmed(s@.subrange(start as int, end as int)),
        decreases b - a,
    {
        assert(s@.subrange(a as int, b as int).drop_first() =~= s@.subrange(a + 1, b as int));
        a = a + 1;
    }
    while a < b && char_is_whitespace(s[b - 1])
        invariant
            start <= a <= b <= end <= s@.len(),
            a < b ==> !is_whitespace(s@[a as int]),
            trimmed(s@.subrange(a as int, b as int)) == trimmed(s@.subrange(start as int, end as int)),
        decreases b - a,
    {
        let ghost t = s@.subrange(a as int, b as int);
        assert(t.drop_last() =~= s@.subrange(a as int, b - 1));
        if b - 1 > a {
            assert(t[0] == s@[a as int]);
        } else {
            assert(t.len() == 1);
            assert(t[0] == s@[a as int]);
        }
        b = b - 1;
    }
    let ghost t = s@.subrange(a as int, b as int);
    if a < b {
        assert(t[0] == s@[a as int]);
        assert(t.last() == s@[b - 1]);
    }
    (a, b)
}

/// `s` with leading and trailing whitespace removed.
pub fn trim(s: &str) -> (r: String)
    ensures
        r@ == trimmed(s@),
{
    let cs = to_chars(s);
    let (a, b) = trim_range(cs.as_slice(), 0, cs.len());
    assert(cs@.subrange(0, cs@.len() as int) =~= cs@);
    string_of(cs.as_slice(), a, b)
}

/// The words of `s`: its maximal runs of non-whitespace characters, in order, as
/// `str::split_whitespace` yields them.
pub open spec fn words(s: Seq<char>) -> Seq<Seq<char>>
    decreases s.len(),
{
    if s.len() == 0 {
        Seq::empty()
    } else {
        let p = words(s.drop_last());
        let c = s.last();
        if is_whitespace(c) {
            p
        } else if s.len() >= 2 && !is_whitespace(s[s.len() - 2]) {
            p.update(p.len() - 1, p.last().push(c))
        } else {
            p.push(seq![c])
        }
    }
}

proof fn lemma_words_nonempty(s: Seq<char>)
    requires
        s.len() > 0,
        !is_whitespace(s.last()),
    ensures
        words(s).len() > 0,
    decreases s.len(),
{
    if s.len() >= 2 && !is_whitespace(s[s.len() - 2]) {
        assert(s.drop_last().last() == s[s.len() - 2]);
        lemma_words_nonempty(s.drop_last());
    }
}

/// The character sequences held by a vector of character vectors.
/// The texts of some strings.
pub open spec fn string_views(v: Seq<String>) -> Seq<Seq<char>> {
    Seq::new(v.len(), |i: int| v[i]@)
}

pub open spec fn char_views(v: Seq<Vec<char>>) -> Seq<Seq<char>> {
    Seq::new(v.len(), |i: int| v[i]@)
}

/// Splits `s` into its words.
pub fn split_whitespace(s: &[char]) -> (r: Vec<Vec<char>>)
    ensures
        char_views(r@) == words(s@),
{
    let mut r: Vec<Vec<char>> = Vec::new();
    let mut i: usize = 0;
    while i < s.len()
        invariant
            0 <= i <= s@.len(),
            char_views(r@) == words(s@.subrange(0, i as int)),
        decreases s@.len() - i,
    {
        let c = s[i];
        let ghost pre = s@.subrange(0, i as int);
        let ghost cur = s@.subrange(0, i + 1);
        assert(cur.drop_last() =~= pre);
        assert(cur.last() == c);
        if char_is_whitespace(c) {
        } else if i >= 1 && !char_is_whitespace(s[i - 1]) {
            proof {
                assert(pre.last() == s@[i - 1]);
                lemma_words_nonempty(pre);
                assert(cur[cur.len() - 2] == s@[i - 1]);
            }
            let ghost before = r@;
            let mut last = r.pop().unwrap();
            assert(last@ == char_views(before).last());
            last.push(c);
            r.push(last);
            assert(r@ == before.drop_last().push(last));
            assert(char_views(r@) =~= char_views(before).update(
                char_views(before).len() - 1,
                char_views(before).last().push(c),
            ));
        } else {
            let ghost before = r@;
            let mut w: Vec<char> = Vec::new();
            w.push(c);
            assert(w@ =~= seq![c]);
            r.push(w);
            proof {
                if i >= 1 {
                    assert(cur[cur.len() - 2] == s@[i - 1]);
                }
            }
            assert(char_views(r@) =~= char_views(before).push(seq![c]));
        }
        i = i + 1;
    }
    assert(s@.subrange(0, s@.len() as int) =~= s@);
    r
}

/// Whether `s` begins with the characters `prefix`.
pub fn chars_start_with(s: &[char], prefix: &[char]) -> (r: bool)
    ensures
        r == (prefix@.len() <= s@.len() && s@.subrange(0, prefix@.len() as int) == prefix@),
{
    if prefix.len() > s.len() {
        return false;
    }
    let mut i: usize = 0;
    while i < prefix.len()
        invariant
            prefix@.len() <= s@.len(),
            0 <= i <= prefix@.len(),
            forall|k: int| 0 <= k < i ==> s@[k] == prefix@[k],
        decreases prefix@.len() - i,
    {
        if s[i] != prefix[i] {
            assert(s@.subrange(0, prefix@.len() as int)[i as int] != prefix@[i as int]);
            return false;
        }
        i = i + 1;
    }
    assert(s@.subrange(0, prefix@.len() as int) =~= prefix@);
    true
}

/// Whether the characters `a` and `b` are the same.
pub fn chars_equal(a: &[char], b: &[char]) -> (r: bool)
    ensures
        r == (a@ == b@),
{
    if a.len() != b.len() {
        return false;
    }
    let mut i: usize = 0;
    while i < a.len()
        invariant
            a@.len() == b@.len(),
            0 <= i <= a@.len(),
            forall|k: int| 0 <= k < i ==> a@[k] == b@[k],
        decreases a@.len() - i,
    {
        if a[i] != b[i] {
            return false;
        }
        i = i + 1;
    }
    assert(a@ =~= b@);
    true
}

// ---------------------------------------------------------------------------
// std conversions that vstd leaves unspecified
// ---------------------------------------------------------------------------
/// `String::push`: appends one character.
#[verifier::external_body]
pub(crate) fn string_push(s: &mut String, c: char)
    ensures
        final(s)@ == old(s)@.push(c),
{
    s.push(c)
}

/// The text that `String::from_utf8_lossy` makes of `bytes`.
pub uninterp spec fn lossy_chars(bytes: Seq<u8>) -> Seq<char>;

/// `String::from_utf8_lossy`: decodes `bytes`, replacing each invalid sequence with
/// U+FFFD. The result is named `lossy_chars`; on valid UTF-8 it is exactly the decoded
/// text, as the documentation says. How invalid input is replaced is left unsaid.
#[verifier::external_body]
pub(crate) fn utf8_lossy(bytes: &[u8]) -> (r: String)
    ensures
        r@ == lossy_chars(bytes@),
        valid_utf8(bytes@) ==> r@ == decode_utf8(bytes@),
{
    String::from_utf8_lossy(bytes).into_owned()
}

/// The ASCII upper case of a character; other characters stay.
pub open spec fn ascii_upper(c: char) -> char {
    if 'a' <= c && c <= 'z' {
        ((c as u32) - 32) as char
    } else {
        c
    }
}

/// The ASCII lower case of a character; other characters stay.
pub open spec fn ascii_lower(c: char) -> char {
    if 'A' <= c && c <= 'Z' {
        ((c as u32) + 32) as char
    } else {
        c
    }
}

/// The ASCII upper case of each character.
pub open spec fn ascii_upper_chars(s: Seq<char>) -> Seq<char> {
    Seq::new(s.len(), |i: int| ascii_upper(s[i]))
}

/// The ASCII lower case of each character.
pub open spec fn ascii_lower_chars(s: Seq<char>) -> Seq<char> {
    Seq::new(s.len(), |i: int| ascii_lower(s[i]))
}

/// The text that `str::to_uppercase` makes of `s`.
pub uninterp spec fn uppercase_chars(s: Seq<char>) -> Seq<char>;

/// `str::to_uppercase`: the Unicode upper case of `s`, named `uppercase_chars`. Unicode
/// maps each ASCII letter to its ASCII case partner, so ASCII text gets its ASCII upper case.
#[verifier::external_body]
pub(crate) fn to_uppercase(s: &str) -> (r: String)
    ensures
        r@ == uppercase_chars(s@),
        all_ascii(s@) ==> r@ == ascii_upper_chars(s@),
{
    s.to_uppercase()
}

/// The text that `str::to_lowercase` makes of `s`.
pub uninterp spec fn lowercase_chars(s: Seq<char>) -> Seq<char>;

/// `str::to_lowercase`: the Unicode lower case of `s`, named `lowercase_chars`. Unicode
/// maps each ASCII letter to its ASCII case partner, so ASCII text gets its ASCII lower case.
#[verifier::external_body]
pub(crate) fn to_lowercase(s: &str) -> (r: String)
    ensures
        r@ == lowercase_chars(s@),
        all_ascii(s@) ==> r@ == ascii_lower_chars(s@),
{
    s.to_lowercase()
}

/// `std::str::from_utf8(..).is_ok()`: whether `bytes` is valid UTF-8.
#[verifier::external_body]
pub(crate) fn utf8_valid(bytes: &[u8]) -> (r: bool)
    ensures
        r == valid_utf8(bytes@),
{
    std::str::from_utf8(bytes).is_ok()
}

/// `std::str::from_utf8`: succeeds exactly on valid UTF-8 and then yields the decoded text.
#[verifier::external_body]
pub(crate) fn utf8_decode(bytes: &[u8]) -> (r: Option<String>)
    ensures
        r is Some <==> valid_utf8(bytes@),
        r matches Some(s) ==> s@ == decode_utf8(bytes@),
{
    match std::str::from_utf8(bytes) {
        Ok(s) => Some(s.to_string()),
        Err(_) => None,
    }
}


/// Parses the number that the characters `w` spell, no larger than `max`, as std's
/// `from_str` does on their UTF-8 encoding.
pub fn parse_unsigned_chars(w: &[char], max: u64) -> (r: Option<u64>)
    ensures
        match parse_unsigned(vstd::utf8::encode_utf8(w@), max as nat) {
            Some(v) => r == Some(v as u64),
            None => r is None,
        },
{
    let s = string_of(w, 0, w.len());
    assert(w@.subrange(0, w@.len() as int) =~= w@);
    parse_unsigned_bytes(s.as_str().as_bytes(), max)
}

} // verus!
