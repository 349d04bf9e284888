//! The 16-bit one's-complement checksum that guards every file sent with
//! the stop-and-wait protocol.
use vstd::prelude::*;

verus! {

/// Number of 16-bit words in `data`; an odd trailing byte forms a word of its own.
pub open spec fn num_words(data: Seq<u8>) -> nat {
    ((data.len() + 1) / 2) as nat
}

/// The `k`-th big-endian 16-bit word of `data`; a trailing odd byte is the high half of
/// a word whose low half is zero.
pub open spec fn word_at(data: Seq<u8>, k: int) -> nat {
    if 2 * k + 1 < data.len() {
        (data[2 * k] as nat) * 256 + (data[2 * k + 1] as nat)
    } else {
        (data[2 * k] as nat) * 256
    }
}

/// Adding a word to a running 16-bit sum with the carry wrapped around.
pub open spec fn fold_add(s: nat, w: nat) -> nat {
    if s + w > 0xFFFF {
        (s + w - 0xFFFF) as nat
    } else {
        s + w
    }
}

/// The running one's-complement sum of the first `k` words of `data`.
pub open spec fn ones_sum_prefix(data: Seq<u8>, k: nat) -> nat
    decreases k,
{
    if k == 0 {
        0
    } else {
        fold_add(ones_sum_prefix(data, (k - 1) as nat), word_at(data, k - 1))
    }
}

/// The one's-complement sum of all words of `data`.
pub open spec fn ones_sum(data: Seq<u8>) -> nat {
    ones_sum_prefix(data, num_words(data))
}

/// The checksum of `data`: the complement of its one's-complement sum.
pub open spec fn checksum_of(data: Seq<u8>) -> u16 {
    (0xFFFF - ones_sum(data)) as u16
}

/// Whether `checksum` is accepted as the checksum of `data`: adding it to the
/// sum of the data gives all ones.
pub open spec fn checksum_accepts(data: Seq<u8>, checksum: u16) -> bool {
    fold_add(ones_sum(data), checksum as nat) == 0xFFFF
}

/// The plain (unbounded) sum of the first `k` words of `data`.
pub open spec fn word_total_prefix(data: Seq<u8>, k: nat) -> nat
    decreases k,
{
    if k == 0 {
        0
    } else {
        word_total_prefix(data, (k - 1) as nat) + word_at(data, k - 1)
    }
}

/// The plain sum of all words of `data`.
pub open spec fn word_total(data: Seq<u8>) -> nat {
    word_total_prefix(data, num_words(data))
}

/// End-around-carry folding of an unbounded sum into 16 bits: zero stays zero,
/// anything else lands in 1..=0xFFFF with the same remainder modulo 0xFFFF.
pub open spec fn fold_total(t: nat) -> nat {
    if t == 0 {
        0
    } else {
        (((t - 1) as nat) % 0xFFFF) + 1
    }
}

/// `data` with its whole 16-bit words `i` and `j` exchanged.
pub open spec fn swap_words(data: Seq<u8>, i: int, j: int) -> Seq<u8> {
    data.update(2 * i, data[2 * j]).update(2 * i + 1, data[2 * j + 1]).update(
        2 * j,
        data[2 * i],
    ).update(2 * j + 1, data[2 * i + 1])
}

proof fn lemma_word_bound(data: Seq<u8>, k: int)
    requires
        0 <= k < num_words(data),
    ensures
        word_at(data, k) <= 0xFFFF,
{
    if 2 * k + 1 < data.len() {
        let a = data[2 * k] as nat;
        let b = data[2 * k + 1] as nat;
        assert(a * 256 + b <= 0xFFFF) by (nonlinear_arith)
            requires
                a <= 255,
                b <= 255,
        ;
    } else {
        let a = data[2 * k] as nat;
        assert(a * 256 <= 0xFFFF) by (nonlinear_arith)
            requires
                a <= 255,
        ;
    }
}

proof fn lemma_ones_sum_prefix_bound(data: Seq<u8>, k: nat)
    requires
        k <= num_words(data),
    ensures
        ones_sum_prefix(data, k) <= 0xFFFF,
    decreases k,
{
    if k > 0 {
        lemma_ones_sum_prefix_bound(data, (k - 1) as nat);
        lemma_word_bound(data, k - 1);
    }
}

proof fn lemma_word_total_prefix_bound(data: Seq<u8>, k: nat)
    requires
        k <= num_words(data),
    ensures
        word_total_prefix(data, k) <= 0xFFFF * k,
    decreases k,
{
    if k > 0 {
        lemma_word_total_prefix_bound(data, (k - 1) as nat);
        lemma_word_bound(data, k - 1);
    }
}

/// A bound on the plain word sum, used to show that a 32-bit accumulator does not overflow.
pub proof fn lemma_word_total_bound(data: Seq<u8>)
    ensures
        word_total(data) <= 0xFFFF * num_words(data),
{
    lemma_word_total_prefix_bound(data, num_words(data));
}

/// A sum that already fits 16 bits folds to itself.
pub proof fn lemma_fold_total_small(t: nat)
    requires
        t <= 0xFFFF,
    ensures
        fold_total(t) == t,
{
    if t > 0 {
        assert(((t - 1) as nat) % 0xFFFF == (t - 1) as nat) by (nonlinear_arith)
            requires
                t - 1 < 0xFFFF,
                t >= 1,
        ;
    }
}

/// Two positive numbers with the same folded value modulo 0xFFFF fold alike.
proof fn lemma_fold_total_congruent(a: nat, b: nat, q: int)
    requires
        a > 0,
        b > 0,
        a == b + 0xFFFF * q,
    ensures
        fold_total(a) == fold_total(b),
{
    let am = ((a - 1) as nat) % 0xFFFF;
    let bm = ((b - 1) as nat) % 0xFFFF;
    assert(am == bm) by (nonlinear_arith)
        requires
            a > 0,
            b > 0,
            a == b + 0xFFFF * q,
            am == ((a - 1) as nat) % 0xFFFF,
            bm == ((b - 1) as nat) % 0xFFFF,
    {
        vstd::arithmetic::div_mod::lemma_mod_multiples_vanish(q, (b - 1) as int, 0xFFFF);
    }
}

/// Folding a word into a folded total is folding it into the plain total.
proof fn lemma_fold_add_total(t: nat, w: nat)
    requires
        w <= 0xFFFF,
    ensures
        fold_add(fold_total(t), w) == fold_total(t + w),
{
    let f = fold_total(t);
    if t == 0 {
        lemma_fold_total_small(w);
    } else {
        // f == t - 0xFFFF * ((t - 1) / 0xFFFF)
        let q = ((t - 1) as nat) / 0xFFFF;
        assert(f == t - 0xFFFF * q) by (nonlinear_arith)
            requires
                t >= 1,
                f == (((t - 1) as nat) % 0xFFFF) + 1,
                q == ((t - 1) as nat) / 0xFFFF,
        {
            vstd::arithmetic::div_mod::lemma_fundamental_div_mod((t - 1) as int, 0xFFFF);
        }
        let r = fold_add(f, w);
        if f + w > 0xFFFF {
            assert(r == (t + w) - 0xFFFF * (q + 1));
            lemma_fold_total_congruent(t + w, r, (q + 1) as int);
            lemma_fold_total_small(r);
        } else {
            assert(r == (t + w) - 0xFFFF * q);
            lemma_fold_total_congruent(t + w, r, q as int);
            lemma_fold_total_small(r);
        }
    }
}

proof fn lemma_ones_sum_prefix_is_fold(data: Seq<u8>, k: nat)
    requires
        k <= num_words(data),
    ensures
        ones_sum_prefix(data, k) == fold_total(word_total_prefix(data, k)),
    decreases k,
{
    if k > 0 {
        lemma_ones_sum_prefix_is_fold(data, (k - 1) as nat);
        lemma_word_bound(data, k - 1);
        lemma_fold_add_total(word_total_prefix(data, (k - 1) as nat), word_at(data, k - 1));
    }
}

/// The one's-complement sum of `data` is the folded plain sum of its words.
pub proof fn lemma_ones_sum_is_fold(data: Seq<u8>)
    ensures
        ones_sum(data) == fold_total(word_total(data)),
{
    lemma_ones_sum_prefix_is_fold(data, num_words(data));
}

/// Folding the high half of a 32-bit sum into its low half keeps the folded value.
pub proof fn lemma_fold_step(t: nat)
    requires
        t > 0xFFFF,
    ensures
        t % 65536 + t / 65536 > 0,
        t % 65536 + t / 65536 < t,
        fold_total(t % 65536 + t / 65536) == fold_total(t),
{
    let lo = t % 65536;
    let hi = t / 65536;
    assert(t == hi * 65536 + lo && hi >= 1 && lo < 65536) by (nonlinear_arith)
        requires
            t > 0xFFFF,
            lo == t % 65536,
            hi == t / 65536,
    {
        vstd::arithmetic::div_mod::lemma_fundamental_div_mod(t as int, 65536);
    }
    assert(t == (lo + hi) + 0xFFFF * hi) by (nonlinear_arith)
        requires
            t == hi * 65536 + lo,
    ;
    assert(lo + hi < t) by (nonlinear_arith)
        requires
            t == hi * 65536 + lo,
            hi >= 1,
    ;
    lemma_fold_total_congruent(t, lo + hi, hi as int);
}

proof fn lemma_ones_sum_bound(data: Seq<u8>)
    ensures
        ones_sum(data) <= 0xFFFF,
{
    lemma_ones_sum_prefix_bound(data, num_words(data));
}

/// Computes the checksum of `data`: the complement of the one's-complement sum
/// of its big-endian 16-bit words (an odd trailing byte is padded with zero).
pub fn compute_checksum(data: &Vec<u8>) -> (r: u16)
    ensures
        r == checksum_of(data@),
{
    let sum = ones_sum_of(data.as_slice());
    proof {
        lemma_ones_sum_bound(data@);
    }
    let r = !(sum as u16);
    assert(sum <= 0xFFFF ==> !(sum as u16) == (0xFFFF - sum) as u16) by (bit_vector);
    r
}

/// The one's-complement sum of the words of `data`, as the checksum functions compute it.
fn ones_sum_of(data: &[u8]) -> (sum: u32)
    ensures
        sum as nat == ones_sum(data@),
        sum <= 0xFFFF,
{
    let mut sum: u32 = 0;
    let n = data.len();
    let mut i: usize = 0;
    while i + 1 < n
        invariant
            n == data@.len(),
            i % 2 == 0,
            i <= n,
            sum as nat == ones_sum_prefix(data@, (i / 2) as nat),
            sum <= 0xFFFF,
        decreases n - i,
    {
        let word = (data[i] as u32) * 256 + (data[i + 1] as u32);
        proof {
            assert(word_at(data@, (i / 2) as int) == word as nat);
            assert(word <= 0xFFFF);
        }
        let ghost before = sum;
        sum = sum + word;
        if sum > 0xFFFF {
            assert(sum <= 0x1FFFE && sum > 0xFFFF ==> (sum & 0xFFFF) + 1 == sum - 0xFFFF)
                by (bit_vector);
            sum = (sum & 0xFFFF) + 1;
        }
        proof {
            assert(((i + 2) / 2) as nat - 1 == (i / 2) as nat);
            assert(ones_sum_prefix(data@, ((i + 2) / 2) as nat) == fold_add(
                ones_sum_prefix(data@, (i / 2) as nat),
                word_at(data@, (i / 2) as int),
            ));
        }
        i = i + 2;
    }
    if i < n {
        let word = (data[i] as u32) * 256;
        proof {
            assert(word_at(data@, (i / 2) as int) == word as nat);
        }
        sum = sum + word;
        if sum > 0xFFFF {
            assert(sum <= 0x1FFFE && sum > 0xFFFF ==> (sum & 0xFFFF) + 1 == sum - 0xFFFF)
                by (bit_vector);
            sum = (sum & 0xFFFF) + 1;
        }
        proof {
            assert(num_words(data@) == (i / 2) as nat + 1);
            assert(ones_sum_prefix(data@, (i / 2) as nat + 1) == fold_add(
                ones_sum_prefix(data@, (i / 2) as nat),
                word_at(data@, (i / 2) as int),
            ));
        }
    } else {
        assert(num_words(data@) == (i / 2) as nat);
    }
    sum
}

/// Checks `data` against a received `checksum`: the sum of the data words and the
/// checksum must be all ones. This holds exactly when `checksum` is the computed
/// checksum, or when the data sum is already all ones and the checksum is 0xFFFF.
pub fn verify_checksum(data: Vec<u8>, checksum: u16) -> (r: bool)
    ensures
        r == checksum_accepts(data@, checksum),
        r <==> (checksum == checksum_of(data@) || (ones_sum(data@) == 0xFFFF && checksum
            == 0xFFFF)),
{
    let mut sum = ones_sum_of(data.as_slice());
    sum = sum + checksum as u32;
    if sum > 0xFFFF {
        assert(sum <= 0x1FFFE && sum > 0xFFFF ==> (sum & 0xFFFF) + 1 == sum - 0xFFFF)
            by (bit_vector);
        sum = (sum & 0xFFFF) + 1;
    }
    proof {
        lemma_checksum_accepts_exactly(data@, checksum);
    }
    sum == 0xFFFF
}

/// A checksum is accepted for `data` exactly when it is the computed checksum, or when
/// the data already sums to all ones and the checksum is the other encoding of zero.
pub proof fn lemma_checksum_accepts_exactly(data: Seq<u8>, checksum: u16)
    ensures
        checksum_accepts(data, checksum) <==> (checksum == checksum_of(data) || (ones_sum(data)
            == 0xFFFF && checksum == 0xFFFF)),
{
    lemma_ones_sum_bound(data);
}

/// Whatever the data, its computed checksum is accepted by the verification.
pub proof fn lemma_computed_checksum_verifies(data: Seq<u8>)
    ensures
        checksum_accepts(data, checksum_of(data)),
{
    lemma_checksum_accepts_exactly(data, checksum_of(data));
}

proof fn lemma_word_total_prefix_ext(a: Seq<u8>, b: Seq<u8>, k: nat)
    requires
        k <= num_words(a),
        k <= num_words(b),
        forall|m: int| 0 <= m < k ==> word_at(a, m) == word_at(b, m),
    ensures
        word_total_prefix(a, k) == word_total_prefix(b, k),
    decreases k,
{
    if k > 0 {
        lemma_word_total_prefix_ext(a, b, (k - 1) as nat);
    }
}

/// Changing word `m` of the data changes the plain word sum by the difference.
proof fn lemma_word_total_prefix_change(a: Seq<u8>, b: Seq<u8>, k: nat, m: int)
    requires
        k <= num_words(a),
        num_words(a) == num_words(b),
        0 <= m,
        forall|x: int| 0 <= x < num_words(a) && x != m ==> word_at(a, x) == word_at(b, x),
    ensures
        m < k ==> word_total_prefix(b, k) + word_at(a, m) == word_total_prefix(a, k) + word_at(
            b,
            m,
        ),
        m >= k ==> word_total_prefix(b, k) == word_total_prefix(a, k),
    decreases k,
{
    if k > 0 {
        lemma_word_total_prefix_change(a, b, (k - 1) as nat, m);
    }
}

/// The plain word sum with word `m` replaced changes by the difference of the words.
pub proof fn lemma_word_total_change(a: Seq<u8>, b: Seq<u8>, m: int)
    requires
        num_words(a) == num_words(b),
        0 <= m < num_words(a),
        forall|x: int| 0 <= x < num_words(a) && x != m ==> word_at(a, x) == word_at(b, x),
    ensures
        word_total(b) + word_at(a, m) == word_total(a) + word_at(b, m),
{
    lemma_word_total_prefix_change(a, b, num_words(a), m);
}

/// Plain prefix sums of words grow with the prefix.
pub proof fn lemma_word_total_prefix_monotone(data: Seq<u8>, j: nat, k: nat)
    requires
        j <= k <= num_words(data),
    ensures
        word_total_prefix(data, j) <= word_total_prefix(data, k),
    decreases k - j,
{
    if j < k {
        lemma_word_total_prefix_monotone(data, j, (k - 1) as nat);
    }
}

/// Adding the complement of a positive folded sum gives a sum that folds to all ones.
pub proof fn lemma_fold_complement(t: nat)
    requires
        t > 0,
    ensures
        fold_total((t + (0xFFFF - fold_total(t))) as nat) == 0xFFFF,
{
    let f = fold_total(t);
    let q = ((t - 1) as nat) / 0xFFFF;
    assert(f == t - 0xFFFF * q) by (nonlinear_arith)
        requires
            t >= 1,
            f == (((t - 1) as nat) % 0xFFFF) + 1,
            q == ((t - 1) as nat) / 0xFFFF,
    {
        vstd::arithmetic::div_mod::lemma_fundamental_div_mod((t - 1) as int, 0xFFFF);
    }
    assert(f <= 0xFFFF);
    let a = (t + (0xFFFF - f)) as nat;
    assert(a == 0xFFFF + 0xFFFF * q);
    lemma_fold_total_congruent(a, 0xFFFF, q as int);
    lemma_fold_total_small(0xFFFF);
}

/// The checksum depends on the data only through the plain sum of its 16-bit words.
pub proof fn lemma_checksum_depends_on_word_total(a: Seq<u8>, b: Seq<u8>)
    requires
        word_total(a) == word_total(b),
    ensures
        checksum_of(a) == checksum_of(b),
{
    lemma_ones_sum_is_fold(a);
    lemma_ones_sum_is_fold(b);
}

/// Exchanging two whole 16-bit words of the data leaves its checksum unchanged, so the
/// checksum cannot tell reordered words apart.
pub proof fn lemma_checksum_word_swap(data: Seq<u8>, i: int, j: int)
    requires
        0 <= i < j,
        2 * j + 1 < data.len(),
    ensures
        checksum_of(swap_words(data, i, j)) == checksum_of(data),
{
    let s = swap_words(data, i, j);
    assert(s.len() == data.len());
    assert(num_words(s) == num_words(data));
    let n = num_words(data);
    // Step 1: replace word i.
    let mid = data.update(2 * i, data[2 * j]).update(2 * i + 1, data[2 * j + 1]);
    assert(num_words(mid) == n);
    assert forall|x: int| 0 <= x < n && x != i implies word_at(data, x) == word_at(mid, x) by {
        if 2 * x + 1 < data.len() {
        } else {
        }
    }
    assert(word_at(mid, i) == word_at(data, j));
    lemma_word_total_prefix_change(data, mid, n, i);
    // Step 2: replace word j.
    assert forall|x: int| 0 <= x < n && x != j implies word_at(mid, x) == word_at(s, x) by {
        if 2 * x + 1 < data.len() {
        } else {
        }
    }
    assert(word_at(s, j) == word_at(data, i));
    assert(word_at(mid, j) == word_at(data, j));
    lemma_word_total_prefix_change(mid, s, n, j);
    assert(word_total(s) == word_total(data));
    lemma_checksum_depends_on_word_total(data, s);
}


/// Sums that differ by a nonzero amount smaller than 0xFFFF fold to different values.
proof fn lemma_fold_total_distinct(ta: nat, tb: nat)
    requires
        ta != tb,
        tb < ta + 0xFFFF,
        ta < tb + 0xFFFF,
    ensures
        fold_total(ta) != fold_total(tb),
{
    if ta > 0 && tb > 0 {
        let x = (ta - 1) as int;
        let y = (tb - 1) as int;
        vstd::arithmetic::div_mod::lemma_fundamental_div_mod(x, 0xFFFF);
        vstd::arithmetic::div_mod::lemma_fundamental_div_mod(y, 0xFFFF);
        let qx = x / 0xFFFF;
        let qy = y / 0xFFFF;
        if x % 0xFFFF == y % 0xFFFF {
            assert(y - x == 0xFFFF * (qy - qx));
            assert(false) by (nonlinear_arith)
                requires
                    y - x == 0xFFFF * (qy - qx),
                    y != x,
                    y - x < 0xFFFF,
                    x - y < 0xFFFF,
            ;
        }
    }
}

/// A word of the data is at most the plain sum of all words.
proof fn lemma_word_le_total(data: Seq<u8>, m: int)
    requires
        0 <= m < num_words(data),
    ensures
        word_at(data, m) <= word_total(data),
{
    lemma_word_total_prefix_monotone(data, (m + 1) as nat, num_words(data));
}

/// Inverting every bit of one byte of the data is always detected: the checksum computed
/// before the corruption is not accepted for the corrupted data.
pub proof fn lemma_inverted_byte_detected(data: Seq<u8>, i: int)
    requires
        0 <= i < data.len(),
    ensures
        !checksum_accepts(data.update(i, data[i] ^ 0xFF), checksum_of(data)),
{
    let x = data[i];
    let nb = x ^ 0xFF;
    assert(nb == 255 - x) by (bit_vector)
        requires
            nb == x ^ 0xFF,
    ;
    let b = data.update(i, nb);
    let m = i / 2;
    assert(num_words(b) == num_words(data));
    assert forall|k: int| 0 <= k < num_words(data) && k != m implies word_at(data, k) == word_at(b, k) by {
        if 2 * k + 1 < data.len() {
        } else {
        }
    }
    lemma_word_total_change(data, b, m);
    let ta = word_total(data);
    let tb = word_total(b);
    let wa = word_at(data, m);
    let wb = word_at(b, m);
    if i % 2 == 0 {
        assert(i == 2 * m);
        assert(wb + (x as nat) * 256 == wa + (nb as nat) * 256);
    } else {
        assert(i == 2 * m + 1);
        assert(wb + (x as nat) == wa + (nb as nat));
    }
    assert(tb + wa == ta + wb);
    assert(ta != tb);
    assert(tb < ta + 0xFFFF && ta < tb + 0xFFFF);
    lemma_fold_total_distinct(ta, tb);
    lemma_ones_sum_is_fold(data);
    lemma_ones_sum_is_fold(b);
    lemma_ones_sum_bound(data);
    lemma_ones_sum_bound(b);
    if ta == 0 {
        lemma_word_le_total(data, m);
        assert(wa == 0);
        assert(x == 0) by (nonlinear_arith)
            requires
                i % 2 == 0 ==> wa == (x as nat) * 256 + (if 2 * m + 1 < data.len() { data[2 * m + 1] as nat } else { 0 }),
                i % 2 == 1 ==> wa == (data[2 * m] as nat) * 256 + (x as nat),
                wa == 0,
        ;
        assert(tb == wb);
        assert(tb <= 0xFF00);
        lemma_fold_total_small(tb);
    }
}


/// The 16-bit words of `data`, in order.
pub open spec fn words(data: Seq<u8>) -> Seq<nat> {
    Seq::new(num_words(data), |k: int| word_at(data, k))
}

/// The plain sum of a sequence of numbers.
pub open spec fn seq_sum(s: Seq<nat>) -> nat
    decreases s.len(),
{
    if s.len() == 0 {
        0
    } else {
        seq_sum(s.drop_last()) + s.last()
    }
}

proof fn lemma_prefix_is_sum(data: Seq<u8>, k: nat)
    requires
        k <= num_words(data),
    ensures
        word_total_prefix(data, k) == seq_sum(words(data).take(k as int)),
    decreases k,
{
    if k > 0 {
        lemma_prefix_is_sum(data, (k - 1) as nat);
        assert(words(data).take(k as int).drop_last() =~= words(data).take(k - 1));
    }
}

proof fn lemma_sum_remove(t: Seq<nat>, j: int)
    requires
        0 <= j < t.len(),
    ensures
        seq_sum(t) == seq_sum(t.remove(j)) + t[j],
    decreases t.len(),
{
    if j < t.len() - 1 {
        lemma_sum_remove(t.drop_last(), j);
        assert(t.remove(j).drop_last() =~= t.drop_last().remove(j));
        assert(t.remove(j).last() == t.last());
    } else {
        assert(t.remove(j) =~= t.drop_last());
    }
}

proof fn lemma_sum_multiset(s: Seq<nat>, t: Seq<nat>)
    requires
        s.to_multiset() == t.to_multiset(),
    ensures
        seq_sum(s) == seq_sum(t),
    decreases s.len(),
{
    s.to_multiset_ensures();
    t.to_multiset_ensures();
    if s.len() == 0 {
        assert(t.len() == 0);
    } else {
        let x = s.last();
        let d = s.drop_last();
        d.to_multiset_ensures();
        assert(s =~= d.push(x));
        assert(s.to_multiset() =~= d.to_multiset().insert(x));
        assert(t.to_multiset().count(x) > 0);
        assert(t.contains(x));
        let j = choose|j: int| 0 <= j < t.len() && t[j] == x;
        let r = t.remove(j);
        assert(r.to_multiset() =~= t.to_multiset().remove(x));
        assert(d.to_multiset() =~= d.to_multiset().insert(x).remove(x));
        lemma_sum_multiset(d, r);
        lemma_sum_remove(t, j);
    }
}

/// The checksum does not depend on the order of the 16-bit words: data whose words are
/// a rearrangement of another's has the same checksum.
pub proof fn lemma_checksum_word_permutation(a: Seq<u8>, b: Seq<u8>)
    requires
        words(a).to_multiset() == words(b).to_multiset(),
    ensures
        checksum_of(a) == checksum_of(b),
{
    lemma_prefix_is_sum(a, num_words(a));
    lemma_prefix_is_sum(b, num_words(b));
    assert(words(a).take(num_words(a) as int) =~= words(a));
    assert(words(b).take(num_words(b) as int) =~= words(b));
    lemma_sum_multiset(words(a), words(b));
    lemma_checksum_depends_on_word_total(a, b);
}

/// Padding data of odd length with a zero byte leaves its checksum unchanged.
pub proof fn lemma_checksum_zero_pad(data: Seq<u8>)
    requires
        data.len() % 2 == 1,
    ensures
        checksum_of(data.push(0)) == checksum_of(data),
{
    let p = data.push(0);
    assert(words(p) =~= words(data)) by {
        assert forall|k: int| 0 <= k < num_words(data) implies word_at(p, k) == word_at(data, k) by {
            if 2 * k + 1 < data.len() {
            } else {
                assert(p[2 * k + 1] == 0);
            }
        }
    }
    lemma_checksum_word_permutation(data, p);
}

} // verus!
