use vstd::prelude::*;

verus! {

/// The base of a limb.
pub open spec fn base() -> nat {
    0x1_0000_0000
}

/// `base()` to the power `n`.
pub open spec fn pow_base(n: nat) -> nat
    decreases n,
{
    if n == 0 {
        1
    } else {
        base() * pow_base((n - 1) as nat)
    }
}

/// The limb at `i`, or zero past the end.
pub open spec fn limb(s: Seq<u32>, i: nat) -> nat {
    if i < s.len() {
        s[i as int] as nat
    } else {
        0
    }
}

/// The value of the lowest `n` limbs of `s`, least significant first.
pub open spec fn value_upto(s: Seq<u32>, n: nat) -> nat
    decreases n,
{
    if n == 0 {
        0
    } else {
        value_upto(s, (n - 1) as nat) + limb(s, (n - 1) as nat) * pow_base((n - 1) as nat)
    }
}

/// The natural number that the limbs `s` stand for.
pub open spec fn value(s: Seq<u32>) -> nat {
    value_upto(s, s.len())
}

proof fn lemma_pow_pos(n: nat)
    ensures
        pow_base(n) > 0,
    decreases n,
{
    if n > 0 {
        lemma_pow_pos((n - 1) as nat);
        assert(base() * pow_base((n - 1) as nat) > 0) by (nonlinear_arith)
            requires
                pow_base((n - 1) as nat) > 0,
        ;
    }
}

proof fn lemma_upto_bound(s: Seq<u32>, n: nat)
    ensures
        value_upto(s, n) < pow_base(n),
    decreases n,
{
    if n > 0 {
        let m = (n - 1) as nat;
        lemma_upto_bound(s, m);
        let p = pow_base(m);
        let l = limb(s, m);
        assert(l < base());
        assert(value_upto(s, m) + l * p < base() * p) by (nonlinear_arith)
            requires
                value_upto(s, m) < p,
                l < base(),
        ;
    }
}

proof fn lemma_upto_pad(s: Seq<u32>, n: nat)
    requires
        n >= s.len(),
    ensures
        value_upto(s, n) == value(s),
    decreases n,
{
    if n > s.len() {
        let m = (n - 1) as nat;
        lemma_upto_pad(s, m);
        assert(limb(s, m) == 0);
        assert(limb(s, m) * pow_base(m) == 0);
    }
}

proof fn lemma_upto_same(s: Seq<u32>, t: Seq<u32>, n: nat)
    requires
        forall|i: nat| i < n ==> limb(s, i) == limb(t, i),
    ensures
        value_upto(s, n) == value_upto(t, n),
    decreases n,
{
    if n > 0 {
        lemma_upto_same(s, t, (n - 1) as nat);
        assert(limb(s, (n - 1) as nat) == limb(t, (n - 1) as nat));
    }
}

proof fn lemma_shift_one(s: Seq<u32>, n: nat)
    ensures
        value_upto(seq![0u32] + s, n + 1) == base() * value_upto(s, n),
    decreases n,
{
    let z = seq![0u32] + s;
    if n == 0 {
        assert(limb(z, 0) == 0);
        assert(value_upto(z, 1) == value_upto(z, 0) + limb(z, 0) * pow_base(0));
        assert(value_upto(z, 0) == 0);
        assert(value_upto(s, 0) == 0);
    } else {
        let m = (n - 1) as nat;
        lemma_shift_one(s, m);
        assert(limb(z, n) == limb(s, m));
        assert(pow_base(n) == base() * pow_base(m));
        let a = value_upto(s, m);
        let l = limb(s, m);
        let p = pow_base(m);
        assert(base() * a + l * (base() * p) == base() * (a + l * p)) by (nonlinear_arith);
    }
}

/// Prepending `k` zero limbs multiplies the value by `base()^k`.
proof fn lemma_shift(s: Seq<u32>, k: nat)
    ensures
        value(Seq::new(k, |i: int| 0u32) + s) == pow_base(k) * value(s),
    decreases k,
{
    if k == 0 {
        assert(Seq::new(0, |i: int| 0u32) + s =~= s);
        assert(pow_base(0) == 1);
        assert(1 * value(s) == value(s));
    } else {
        let m = (k - 1) as nat;
        lemma_shift(s, m);
        let inner = Seq::new(m, |i: int| 0u32) + s;
        assert(Seq::new(k, |i: int| 0u32) + s =~= seq![0u32] + inner);
        lemma_shift_one(inner, inner.len());
        assert((seq![0u32] + inner).len() == inner.len() + 1);
        assert(pow_base(k) == base() * pow_base(m));
        assert(base() * (pow_base(m) * value(s)) == (base() * pow_base(m)) * value(s))
            by (nonlinear_arith);
    }
}

/// Appending one limb adds it at the top.
proof fn lemma_push(s: Seq<u32>, x: u32)
    ensures
        value(s.push(x)) == value(s) + x * pow_base(s.len()),
{
    let t = s.push(x);
    assert forall|i: nat| i < s.len() implies limb(s, i) == limb(t, i) by {}
    lemma_upto_same(s, t, s.len());
}

/// The limbs of `x`.
pub fn wide_from(x: u128) -> (r: Vec<u32>)
    ensures
        value(r@) == x,
        r.len() == 4,
{
    let l0 = (x % 0x1_0000_0000) as u32;
    let q1 = x / 0x1_0000_0000;
    let l1 = (q1 % 0x1_0000_0000) as u32;
    let q2 = q1 / 0x1_0000_0000;
    let l2 = (q2 % 0x1_0000_0000) as u32;
    let l3 = (q2 / 0x1_0000_0000) as u32;
    let mut r: Vec<u32> = Vec::new();
    r.push(l0);
    r.push(l1);
    r.push(l2);
    r.push(l3);
    proof {
        assert(pow_base(0) == 1);
        assert(pow_base(1) == 0x1_0000_0000);
        assert(pow_base(2) == 0x1_0000_0000_0000_0000);
        assert(pow_base(3) == 0x1_0000_0000_0000_0000_0000_0000);
        let t = r@;
        assert(limb(t, 0) == l0 && limb(t, 1) == l1 && limb(t, 2) == l2 && limb(t, 3) == l3);
        assert(value_upto(t, 0) == 0);
        assert(limb(t, 0) * pow_base(0) == l0 && limb(t, 1) * pow_base(1) == l1 * 0x1_0000_0000
            && limb(t, 2) * pow_base(2) == l2 * 0x1_0000_0000_0000_0000 && limb(t, 3) * pow_base(3)
            == l3 * 0x1_0000_0000_0000_0000_0000_0000) by (nonlinear_arith)
            requires
                limb(t, 0) == l0 && limb(t, 1) == l1 && limb(t, 2) == l2 && limb(t, 3) == l3,
                pow_base(0) == 1,
                pow_base(1) == 0x1_0000_0000,
                pow_base(2) == 0x1_0000_0000_0000_0000,
                pow_base(3) == 0x1_0000_0000_0000_0000_0000_0000,
        ;
        assert(value_upto(t, 1) == l0);
        assert(value_upto(t, 2) == l0 + l1 * 0x1_0000_0000);
        assert(value_upto(t, 3) == l0 + l1 * 0x1_0000_0000 + l2 * 0x1_0000_0000_0000_0000);
        assert(value_upto(t, 4) == value_upto(t, 3) + l3 * 0x1_0000_0000_0000_0000_0000_0000);
    }
    r
}

/// The limbs of `a + b`.
pub fn wide_add(a: &Vec<u32>, b: &Vec<u32>) -> (r: Vec<u32>)
    requires
        a.len() < 0x1000_0000,
        b.len() < 0x1000_0000,
    ensures
        value(r@) == value(a@) + value(b@),
        r.len() == if a.len() >= b.len() { a.len() + 1 } else { b.len() + 1 },
{
    let n = if a.len() >= b.len() { a.len() } else { b.len() };
    let mut r: Vec<u32> = Vec::new();
    let mut carry: u64 = 0;
    let mut i: usize = 0;
    while i < n
        invariant
            n == if a.len() >= b.len() { a.len() } else { b.len() },
            i <= n,
            r.len() == i,
            carry <= 1,
            value(r@) + carry * pow_base(i as nat) == value_upto(a@, i as nat) + value_upto(
                b@,
                i as nat,
            ),
        decreases n - i,
    {
        let x: u64 = if i < a.len() { a[i] as u64 } else { 0 };
        let y: u64 = if i < b.len() { b[i] as u64 } else { 0 };
        let s = x + y + carry;
        let d = (s % 0x1_0000_0000) as u32;
        let c = s / 0x1_0000_0000;
        proof {
            assert(x == limb(a@, i as nat) && y == limb(b@, i as nat));
            lemma_push(r@, d);
            let p = pow_base(i as nat);
            assert(carry * p + x * p + y * p == d * p + c * (base() * p)) by (nonlinear_arith)
                requires
                    s == x + y + carry,
                    s == d + c * base(),
            ;
        }
        r.push(d);
        carry = c;
        i = i + 1;
    }
    proof {
        lemma_upto_pad(a@, n as nat);
        lemma_upto_pad(b@, n as nat);
        lemma_push(r@, carry as u32);
    }
    r.push(carry as u32);
    r
}

/// The limbs of `a * m`.
fn mul_limb(a: &Vec<u32>, m: u32) -> (r: Vec<u32>)
    requires
        a.len() < 0x1000_0000,
    ensures
        value(r@) == value(a@) * m,
        r.len() == a.len() + 1,
{
    let mut r: Vec<u32> = Vec::new();
    let mut carry: u64 = 0;
    let mut i: usize = 0;
    proof {
        assert(value(r@) == 0);
        assert(value_upto(a@, 0) == 0);
        assert(value_upto(a@, 0) * m == 0);
    }
    while i < a.len()
        invariant
            i <= a.len(),
            r.len() == i,
            carry < 0x1_0000_0000,
            value(r@) + carry * pow_base(i as nat) == value_upto(a@, i as nat) * m,
        decreases a.len() - i,
    {
        let x = a[i] as u64;
        assert(x * (m as u64) <= 0xffff_fffe_0000_0001) by (nonlinear_arith)
            requires
                x < 0x1_0000_0000,
                m < 0x1_0000_0000,
        ;
        let s = x * (m as u64) + carry;
        let d = (s % 0x1_0000_0000) as u32;
        let c = s / 0x1_0000_0000;
        proof {
            assert(x == limb(a@, i as nat));
            lemma_push(r@, d);
            let p = pow_base(i as nat);
            let v = value_upto(a@, i as nat);
            assert(carry * p + (v + x * p) * m == v * m + d * p + c * (base() * p))
                by (nonlinear_arith)
                requires
                    s == x * m + carry,
                    s == d + c * base(),
            ;
        }
        r.push(d);
        carry = c;
        i = i + 1;
    }
    proof {
        lemma_push(r@, carry as u32);
    }
    r.push(carry as u32);
    r
}

/// The limbs of `a * b`.
pub fn wide_mul(a: &Vec<u32>, b: &Vec<u32>) -> (r: Vec<u32>)
    requires
        a.len() < 0x100_0000,
        b.len() < 0x100_0000,
    ensures
        value(r@) == value(a@) * value(b@),
        r.len() <= a.len() + 2 * b.len() + 1,
{
    let mut acc: Vec<u32> = Vec::new();
    let mut i: usize = 0;
    while i < b.len()
        invariant
            i <= b.len(),
            a.len() < 0x100_0000,
            b.len() < 0x100_0000,
            acc.len() <= a.len() + 2 * i + 1,
            value(acc@) == value(a@) * value_upto(b@, i as nat),
        decreases b.len() - i,
    {
        let part = mul_limb(a, b[i]);
        let mut shifted: Vec<u32> = Vec::new();
        let mut k: usize = 0;
        while k < i
            invariant
                k <= i,
                shifted@ == Seq::new(k as nat, |j: int| 0u32),
            decreases i - k,
        {
            shifted.push(0);
            k = k + 1;
            proof {
                assert(shifted@ =~= Seq::new(k as nat, |j: int| 0u32));
            }
        }
        let mut j: usize = 0;
        while j < part.len()
            invariant
                j <= part.len(),
                shifted@ == Seq::new(i as nat, |t: int| 0u32) + part@.take(j as int),
            decreases part.len() - j,
        {
            shifted.push(part[j]);
            j = j + 1;
            proof {
                assert(shifted@ =~= Seq::new(i as nat, |t: int| 0u32) + part@.take(j as int));
            }
        }
        proof {
            assert(part@.take(part.len() as int) =~= part@);
            lemma_shift(part@, i as nat);
            let p = pow_base(i as nat);
            let va = value(a@);
            assert(limb(b@, i as nat) == b[i as int]);
            assert(va * value_upto(b@, i as nat) + p * (va * b[i as int]) == va * (value_upto(
                b@,
                i as nat,
            ) + b[i as int] * p)) by (nonlinear_arith);
        }
        acc = wide_add(&acc, &shifted);
        i = i + 1;
    }
    proof {
        lemma_upto_pad(b@, b.len() as nat);
    }
    acc
}

/// Whether `value(a) < value(b)`.
pub fn wide_lt(a: &Vec<u32>, b: &Vec<u32>) -> (r: bool)
    ensures
        r == (value(a@) < value(b@)),
{
    let n = if a.len() >= b.len() { a.len() } else { b.len() };
    proof {
        lemma_upto_pad(a@, n as nat);
        lemma_upto_pad(b@, n as nat);
    }
    let mut i: usize = n;
    while i > 0
        invariant
            i <= n,
            n >= a.len(),
            n >= b.len(),
            (value(a@) < value(b@)) == (value_upto(a@, i as nat) < value_upto(b@, i as nat)),
            (value(a@) == value(b@)) == (value_upto(a@, i as nat) == value_upto(b@, i as nat)),
        decreases i,
    {
        let x: u32 = if i - 1 < a.len() { a[i - 1] } else { 0 };
        let y: u32 = if i - 1 < b.len() { b[i - 1] } else { 0 };
        let ghost m = (i - 1) as nat;
        proof {
            assert(x == limb(a@, m) && y == limb(b@, m));
            lemma_upto_bound(a@, m);
            lemma_upto_bound(b@, m);
            let p = pow_base(m);
            let va = value_upto(a@, m);
            let vb = value_upto(b@, m);
            assert(x < y ==> va + x * p < vb + y * p) by (nonlinear_arith)
                requires
                    va < p,
                    vb >= 0,
            ;
            assert(x > y ==> va + x * p > vb + y * p) by (nonlinear_arith)
                requires
                    vb < p,
                    va >= 0,
            ;
        }
        if x != y {
            return x < y;
        }
        i = i - 1;
    }
    false
}

} // verus!
