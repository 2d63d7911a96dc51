//! The logarithmic height of AVL trees: a tree of height `h` has at least `fib(h + 2) - 1`
//! nodes, and `fib` grows faster than `2` to the power `20 / 29`.
use vstd::arithmetic::power::{lemma_pow_distributes, lemma_pow_multiplies, lemma_pow_positive, pow};
use vstd::prelude::*;

use crate::node::{height_of, heights_ok, is_avl, is_balanced, size_of, Node};
use crate::proofs::{lemma_height_nonneg, lemma_size_fits};

verus! {

/// The Fibonacci numbers.
pub open spec fn fib(k: nat) -> nat
    decreases k,
{
    if k == 0 {
        0
    } else if k == 1 {
        1
    } else {
        fib((k - 1) as nat) + fib((k - 2) as nat)
    }
}

proof fn lemma_fib_monotone(i: nat, j: nat)
    requires
        i <= j,
    ensures
        fib(i) <= fib(j),
    decreases j,
{
    if i < j {
        lemma_fib_monotone(i, (j - 1) as nat);
        if j >= 2 {
            assert(fib(j) == fib((j - 1) as nat) + fib((j - 2) as nat));
        }
    }
}

/// A balanced tree with correct heights of height `h` has at least `fib(h + 2) - 1` nodes.
proof fn lemma_min_size(t: Option<Box<Node>>)
    requires
        heights_ok(t),
        is_balanced(t),
    ensures
        size_of(t) + 1 >= fib((height_of(t) + 2) as nat),
    decreases t,
{
    reveal_with_fuel(fib, 3);
    if let Some(n) = t {
        lemma_min_size(n.left);
        lemma_min_size(n.right);
        lemma_height_nonneg(n.left);
        lemma_height_nonneg(n.right);
        let h = height_of(t);
        let hl = height_of(n.left);
        let hr = height_of(n.right);
        assert(fib((h + 2) as nat) == fib((h + 1) as nat) + fib(h as nat));
        if hl >= hr {
            lemma_fib_monotone(h as nat, (hr + 2) as nat);
        } else {
            lemma_fib_monotone(h as nat, (hl + 2) as nat);
        }
    }
}

/// `fib(k + 2)` is at least `(323 / 200)` to the power `k`.
proof fn lemma_fib_growth(k: nat)
    ensures
        pow(323, k) <= pow(200, k) * fib(k + 2),
    decreases k,
{
    reveal(pow);
    reveal_with_fuel(pow, 2);
    reveal_with_fuel(fib, 3);
    if k == 0 {
        assert(pow(323, 0) == 1 && pow(200, 0) == 1 && fib(2) == 1);
    } else if k == 1 {
        assert(pow(323, 1) == 323 && pow(200, 1) == 200 && fib(3) == 2);
    } else {
        lemma_fib_growth((k - 1) as nat);
        lemma_fib_growth((k - 2) as nat);
        let a = pow(323, (k - 2) as nat);
        let b = pow(200, (k - 2) as nat);
        let f1 = fib(k + 1) as int;
        let f0 = fib(k) as int;
        assert(pow(323, (k - 1) as nat) == 323 * a);
        assert(pow(200, (k - 1) as nat) == 200 * b);
        assert(fib(k + 1) == fib(k) + fib((k - 1) as nat));
        assert(pow(323, k) == 323 * (323 * a));
        assert(pow(200, k) == 200 * (200 * b));
        assert(fib(k + 2) == f1 + f0);
        lemma_pow_positive(323, (k - 2) as nat);
        assert(200 * (200 * b) * (f1 + f0) >= 323 * (323 * a)) by (nonlinear_arith)
            requires
                323 * a <= 200 * b * f1,
                a <= b * f0,
                a > 0,
        ;
    }
}

proof fn lemma_pow_base_monotone(a: int, b: int, e: nat)
    requires
        0 <= a <= b,
    ensures
        0 <= pow(a, e) <= pow(b, e),
    decreases e,
{
    reveal_with_fuel(pow, 1);
    if e > 0 {
        lemma_pow_base_monotone(a, b, (e - 1) as nat);
        let x = pow(a, (e - 1) as nat);
        let y = pow(b, (e - 1) as nat);
        assert(0 <= a * x <= b * y) by (nonlinear_arith)
            requires
                0 <= a <= b,
                0 <= x <= y,
        ;
    }
}

/// `(323 / 200)^29 >= 2^20`, in integers.
proof fn lemma_ratio_power()
    ensures
        pow(2, 20) * pow(200, 29) <= pow(323, 29),
{
    reveal(pow);
    assert(pow(2, 0) == 1) by { reveal(pow); }
    assert(pow(2, 1) == 2) by { reveal(pow); }
    assert(pow(2, 2) == 4) by { reveal(pow); }
    assert(pow(2, 3) == 8) by { reveal(pow); }
    assert(pow(2, 4) == 16) by { reveal(pow); }
    assert(pow(2, 5) == 32) by { reveal(pow); }
    assert(pow(2, 6) == 64) by { reveal(pow); }
    assert(pow(2, 7) == 128) by { reveal(pow); }
    assert(pow(2, 8) == 256) by { reveal(pow); }
    assert(pow(2, 9) == 512) by { reveal(pow); }
    assert(pow(2, 10) == 1024) by { reveal(pow); }
    assert(pow(2, 11) == 2048) by { reveal(pow); }
    assert(pow(2, 12) == 4096) by { reveal(pow); }
    assert(pow(2, 13) == 8192) by { reveal(pow); }
    assert(pow(2, 14) == 16384) by { reveal(pow); }
    assert(pow(2, 15) == 32768) by { reveal(pow); }
    assert(pow(2, 16) == 65536) by { reveal(pow); }
    assert(pow(2, 17) == 131072) by { reveal(pow); }
    assert(pow(2, 18) == 262144) by { reveal(pow); }
    assert(pow(2, 19) == 524288) by { reveal(pow); }
    assert(pow(2, 20) == 1048576) by { reveal(pow); }
    assert(pow(200, 0) == 1) by { reveal(pow); }
    assert(pow(200, 1) == 200) by { reveal(pow); }
    assert(pow(200, 2) == 40000) by { reveal(pow); }
    assert(pow(200, 3) == 8000000) by { reveal(pow); }
    assert(pow(200, 4) == 1600000000) by { reveal(pow); }
    assert(pow(200, 5) == 320000000000) by { reveal(pow); }
    assert(pow(200, 6) == 64000000000000) by { reveal(pow); }
    assert(pow(200, 7) == 12800000000000000) by { reveal(pow); }
    assert(pow(200, 8) == 2560000000000000000) by { reveal(pow); }
    assert(pow(200, 9) == 512000000000000000000) by { reveal(pow); }
    assert(pow(200, 10) == 102400000000000000000000) by { reveal(pow); }
    assert(pow(200, 11) == 20480000000000000000000000) by { reveal(pow); }
    assert(pow(200, 12) == 4096000000000000000000000000) by { reveal(pow); }
    assert(pow(200, 13) == 819200000000000000000000000000) by { reveal(pow); }
    assert(pow(200, 14) == 163840000000000000000000000000000) by { reveal(pow); }
    assert(pow(200, 15) == 32768000000000000000000000000000000) by { reveal(pow); }
    assert(pow(200, 16) == 6553600000000000000000000000000000000) by { reveal(pow); }
    assert(pow(200, 17) == 1310720000000000000000000000000000000000) by { reveal(pow); }
    assert(pow(200, 18) == 262144000000000000000000000000000000000000) by { reveal(pow); }
    assert(pow(200, 19) == 52428800000000000000000000000000000000000000) by { reveal(pow); }
    assert(pow(200, 20) == 10485760000000000000000000000000000000000000000) by { reveal(pow); }
    assert(pow(200, 21) == 2097152000000000000000000000000000000000000000000) by { reveal(pow); }
    assert(pow(200, 22) == 419430400000000000000000000000000000000000000000000) by { reveal(pow); }
    assert(pow(200, 23) == 83886080000000000000000000000000000000000000000000000) by { reveal(pow); }
    assert(pow(200, 24) == 16777216000000000000000000000000000000000000000000000000) by { reveal(pow); }
    assert(pow(200, 25) == 3355443200000000000000000000000000000000000000000000000000) by { reveal(pow); }
    assert(pow(200, 26) == 671088640000000000000000000000000000000000000000000000000000) by { reveal(pow); }
    assert(pow(200, 27) == 134217728000000000000000000000000000000000000000000000000000000) by { reveal(pow); }
    assert(pow(200, 28) == 26843545600000000000000000000000000000000000000000000000000000000) by { reveal(pow); }
    assert(pow(200, 29) == 5368709120000000000000000000000000000000000000000000000000000000000) by { reveal(pow); }
    assert(pow(323, 0) == 1) by { reveal(pow); }
    assert(pow(323, 1) == 323) by { reveal(pow); }
    assert(pow(323, 2) == 104329) by { reveal(pow); }
    assert(pow(323, 3) == 33698267) by { reveal(pow); }
    assert(pow(323, 4) == 10884540241) by { reveal(pow); }
    assert(pow(323, 5) == 3515706497843) by { reveal(pow); }
    assert(pow(323, 6) == 1135573198803289) by { reveal(pow); }
    assert(pow(323, 7) == 366790143213462347) by { reveal(pow); }
    assert(pow(323, 8) == 118473216257948338081) by { reveal(pow); }
    assert(pow(323, 9) == 38266848851317313200163) by { reveal(pow); }
    assert(pow(323, 10) == 12360192178975492163652649) by { reveal(pow); }
    assert(pow(323, 11) == 3992342073809083968859805627) by { reveal(pow); }
    assert(pow(323, 12) == 1289526489840334121941717217521) by { reveal(pow); }
    assert(pow(323, 13) == 416517056218427921387174661259283) by { reveal(pow); }
    assert(pow(323, 14) == 134535009158552218608057415586748409) by { reveal(pow); }
    assert(pow(323, 15) == 43454807958212366610402545234519736107) by { reveal(pow); }
    assert(pow(323, 16) == 14035902970502594415160022110749874762561) by { reveal(pow); }
    assert(pow(323, 17) == 4533596659472337996096687141772209548307203) by { reveal(pow); }
    assert(pow(323, 18) == 1464351721009565172739229946792423684103226569) by { reveal(pow); }
    assert(pow(323, 19) == 472985605886089550794771272813952849965342181787) by { reveal(pow); }
    assert(pow(323, 20) == 152774350701206924906711121118906770538805524717201) by { reveal(pow); }
    assert(pow(323, 21) == 49346115276489836744867692121406886884034184483655923) by { reveal(pow); }
    assert(pow(323, 22) == 15938795234306217268592264555214424463543041588220863129) by { reveal(pow); }
    assert(pow(323, 23) == 5148230860680908177755301451334259101724402432995338790667) by { reveal(pow); }
    assert(pow(323, 24) == 1662878567999933341414962368780965689856981985857494429385441) by { reveal(pow); }
    assert(pow(323, 25) == 537109777463978469277032845116251917823805181431970700691497443) by { reveal(pow); }
    assert(pow(323, 26) == 173486458120865045576481608972549369457089073602526536323353674089) by { reveal(pow); }
    assert(pow(323, 27) == 56036125973039409721203559698133446334639770773616071232443236730747) by { reveal(pow); }
    assert(pow(323, 28) == 18099668689291729339948749782497103166088645959877991008079165464031281) by { reveal(pow); }
    assert(pow(323, 29) == 5846192986641228576803446179746564322646632645040591095609570444882103763) by { reveal(pow); }
}

/// An AVL tree of height `h` and `n` nodes has `h <= 1.45 * log2(n + 2)`, in integers:
/// `2^(20 * h) <= (n + 2)^29`.
pub proof fn lemma_height_logarithmic(t: Option<Box<Node>>)
    requires
        is_avl(t),
    ensures
        pow(2, (20 * height_of(t)) as nat) <= pow(size_of(t) + 2 as int, 29),
{
    lemma_height_nonneg(t);
    let h = height_of(t) as nat;
    let f = fib(h + 2) as int;
    lemma_min_size(t);
    lemma_fib_growth(h);
    lemma_pow_positive(323, h);
    lemma_pow_base_monotone(pow(323, h), pow(200, h) * f, 29);
    lemma_pow_multiplies(323, h, 29);
    lemma_pow_multiplies(323, 29, h);
    lemma_pow_distributes(pow(200, h), f, 29);
    lemma_pow_multiplies(200, h, 29);
    lemma_pow_multiplies(200, 29, h);
    lemma_pow_multiplies(2, 20, h);
    lemma_ratio_power();
    lemma_pow_positive(2, 20);
    lemma_pow_positive(200, 29);
    lemma_pow_base_monotone(pow(2, 20) * pow(200, 29), pow(323, 29), h);
    lemma_pow_distributes(pow(2, 20), pow(200, 29), h);
    assert(h * 29 == 29 * h);
    let p = pow(200, 29 * h);
    lemma_pow_positive(200, 29 * h);
    let l = pow(2, 20 * h);
    let r = pow(f, 29);
    assert(l * p <= p * r);
    assert(l <= r) by (nonlinear_arith)
        requires
            l * p <= p * r,
            p > 0,
    ;
    lemma_pow_base_monotone(f, size_of(t) + 2 as int, 29);
}

/// The height of an AVL tree of `i32` keys is at most 47.
pub proof fn lemma_height_fits(t: Option<Box<Node>>)
    requires
        is_avl(t),
    ensures
        height_of(t) <= 47,
{
    lemma_height_nonneg(t);
    lemma_height_logarithmic(t);
    lemma_size_fits(t);
    let h = height_of(t) as nat;
    assert(pow(2, 33) == 0x2_0000_0000) by {
        reveal(pow);
        reveal_with_fuel(pow, 34);
    }
    lemma_pow_base_monotone(size_of(t) + 2 as int, pow(2, 33), 29);
    lemma_pow_multiplies(2, 33, 29);
    if h >= 48 {
        vstd::arithmetic::power::lemma_pow_strictly_increases(2, 957, 20 * h);
    }
}

} // verus!
