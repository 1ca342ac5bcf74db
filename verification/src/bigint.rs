//! Arbitrary-precision signed integers stored as base-10 digits.
//!
//! A value is a sign flag together with a little-endian sequence of decimal
//! digits with no leading zero; zero is the empty sequence. Every operation
//! is specified against the mathematical value of the number.

use vstd::prelude::*;

verus! {

/// Mathematical value of a little-endian sequence of base-10 digits.
pub open spec fn dval(s: Seq<u8>) -> int
    decreases s.len(),
{
    if s.len() == 0 {
        0
    } else {
        s[0] + 10 * dval(s.subrange(1, s.len() as int))
    }
}

pub open spec fn pow10(n: nat) -> int
    decreases n,
{
    if n == 0 {
        1
    } else {
        10 * pow10((n - 1) as nat)
    }
}

pub open spec fn digits_ok(s: Seq<u8>) -> bool {
    forall|i: int| 0 <= i < s.len() ==> s[i] < 10
}

/// Digits with no leading zero (the most significant digit is last).
pub open spec fn canonical(s: Seq<u8>) -> bool {
    digits_ok(s) && (s.len() > 0 ==> s[s.len() - 1] != 0)
}

/// Value of big-endian ASCII decimal digits, as they stand in source text.
pub open spec fn dec_val(s: Seq<u8>) -> int
    decreases s.len(),
{
    if s.len() == 0 {
        0
    } else {
        (s[0] - 48) * pow10((s.len() - 1) as nat) + dec_val(s.subrange(1, s.len() as int))
    }
}

pub open spec fn is_ascii_digits(s: Seq<u8>) -> bool {
    s.len() > 0 && forall|i: int| 0 <= i < s.len() ==> 48 <= #[trigger] s[i] <= 57
}

/// ASCII decimal rendering of a non-negative integer.
pub open spec fn dec_mag(n: nat) -> Seq<u8>
    decreases n,
{
    if n < 10 {
        seq![(48 + n) as u8]
    } else {
        dec_mag(n / 10).push((48 + n % 10) as u8)
    }
}

/// ASCII decimal rendering of an integer, with a leading minus sign if negative.
pub open spec fn dec_of(v: int) -> Seq<u8> {
    if v < 0 {
        seq![45u8] + dec_mag((-v) as nat)
    } else {
        dec_mag(v as nat)
    }
}

proof fn lemma_pow10_pos(n: nat)
    ensures
        pow10(n) >= 1,
    decreases n,
{
    if n > 0 {
        lemma_pow10_pos((n - 1) as nat);
    }
}

proof fn lemma_pow10_mono(a: nat, b: nat)
    requires
        a <= b,
    ensures
        pow10(a) <= pow10(b),
    decreases b,
{
    if a < b {
        lemma_pow10_mono(a, (b - 1) as nat);
        lemma_pow10_pos((b - 1) as nat);
    }
}

proof fn lemma_dval_push(s: Seq<u8>, d: u8)
    ensures
        dval(s.push(d)) == dval(s) + d * pow10(s.len()),
    decreases s.len(),
{
    if s.len() == 0 {
        assert(s.push(d).subrange(1, 1) =~= Seq::<u8>::empty());
        assert(dval(s.push(d).subrange(1, 1)) == 0);
        assert(s.push(d)[0] == d);
        assert(dval(s.push(d)) == d + 10 * dval(s.push(d).subrange(1, 1)));
        assert(dval(s) == 0);
        assert(pow10(s.len()) == 1);
        assert(d * 1 == d) by (nonlinear_arith);
    } else {
        let t = s.subrange(1, s.len() as int);
        lemma_dval_push(t, d);
        assert(s.push(d).subrange(1, s.push(d).len() as int) =~= t.push(d));
        assert(pow10(s.len()) == 10 * pow10(t.len()));
        assert(10 * (dval(t) + d * pow10(t.len())) == 10 * dval(t) + d * (10 * pow10(t.len())))
            by (nonlinear_arith);
    }
}

proof fn lemma_dval_bound(s: Seq<u8>)
    requires
        digits_ok(s),
    ensures
        0 <= dval(s) < pow10(s.len()),
    decreases s.len(),
{
    if s.len() > 0 {
        let t = s.subrange(1, s.len() as int);
        assert(digits_ok(t));
        lemma_dval_bound(t);
        assert(pow10(s.len()) == 10 * pow10(t.len()));
        assert(10 * dval(t) <= 10 * (pow10(t.len()) - 1)) by (nonlinear_arith)
            requires
                dval(t) <= pow10(t.len()) - 1,
        ;
    }
}

proof fn lemma_dval_lower(s: Seq<u8>)
    requires
        canonical(s),
        s.len() > 0,
    ensures
        dval(s) >= pow10((s.len() - 1) as nat),
        dval(s) >= 1,
    decreases s.len(),
{
    let t = s.subrange(1, s.len() as int);
    if s.len() == 1 {
        assert(dval(s) == s[0]);
    } else {
        assert(canonical(t));
        assert(t[t.len() - 1] == s[s.len() - 1]);
        lemma_dval_lower(t);
        assert(pow10((s.len() - 1) as nat) == 10 * pow10((t.len() - 1) as nat));
        assert(10 * dval(t) >= 10 * pow10((t.len() - 1) as nat)) by (nonlinear_arith)
            requires
                dval(t) >= pow10((t.len() - 1) as nat),
        ;
    }
}

proof fn lemma_dval_take_succ(s: Seq<u8>, i: int)
    requires
        0 <= i < s.len(),
    ensures
        dval(s.take(i + 1)) == dval(s.take(i)) + s[i] * pow10(i as nat),
{
    assert(s.take(i + 1) =~= s.take(i).push(s[i]));
    lemma_dval_push(s.take(i), s[i]);
}

proof fn lemma_dval_drop_last_zero(s: Seq<u8>)
    requires
        s.len() > 0,
        s[s.len() - 1] == 0,
    ensures
        dval(s.drop_last()) == dval(s),
{
    assert(s =~= s.drop_last().push(s[s.len() - 1]));
    lemma_dval_push(s.drop_last(), s[s.len() - 1]);
}

proof fn lemma_dval_split(s: Seq<u8>, k: int)
    requires
        0 <= k <= s.len(),
    ensures
        dval(s) == dval(s.take(k)) + pow10(k as nat) * dval(s.skip(k)),
    decreases k,
{
    if k == 0 {
        assert(s.take(0) =~= Seq::<u8>::empty());
        assert(s.skip(0) =~= s);
    } else {
        lemma_dval_split(s, k - 1);
        assert(s.skip(k - 1).subrange(1, s.skip(k - 1).len() as int) =~= s.skip(k));
        assert(dval(s.skip(k - 1)) == s[k - 1] + 10 * dval(s.skip(k)));
        lemma_dval_take_succ(s, k - 1);
        assert(pow10(k as nat) == 10 * pow10((k - 1) as nat));
        assert(pow10((k - 1) as nat) * (s[k - 1] + 10 * dval(s.skip(k))) == s[k - 1] * pow10(
            (k - 1) as nat,
        ) + (10 * pow10((k - 1) as nat)) * dval(s.skip(k))) by (nonlinear_arith);
    }
}

/// Value of the first `i` digits, the whole value once `i` passes the end.
pub open spec fn dtake(s: Seq<u8>, i: int) -> int {
    if i <= s.len() {
        dval(s.take(i))
    } else {
        dval(s)
    }
}

proof fn lemma_add_step(pi: int, outv: int, d: int, c2: int, carry: int, ta: int, tb: int, da: int, db: int)
    requires
        outv + pi * carry == ta + tb,
        d + 10 * c2 == da + db + carry,
    ensures
        outv + d * pi + (10 * pi) * c2 == (ta + da * pi) + (tb + db * pi),
{
    assert(outv + d * pi + (10 * pi) * c2 == (ta + da * pi) + (tb + db * pi)) by (nonlinear_arith)
        requires
            outv + pi * carry == ta + tb,
            d + 10 * c2 == da + db + carry,
    ;
}

proof fn lemma_sub_step(pi: int, outv: int, d: int, b2: int, borrow: int, ta: int, tb: int, da: int, db: int)
    requires
        outv == ta - tb + pi * borrow,
        d == da - db - borrow + 10 * b2,
    ensures
        outv + d * pi == (ta + da * pi) - (tb + db * pi) + (10 * pi) * b2,
{
    assert(outv + d * pi == (ta + da * pi) - (tb + db * pi) + (10 * pi) * b2) by (nonlinear_arith)
        requires
            outv == ta - tb + pi * borrow,
            d == da - db - borrow + 10 * b2,
    ;
}

pub(crate) fn copy_bytes(v: &Vec<u8>) -> (r: Vec<u8>)
    ensures
        r@ == v@,
{
    let mut r: Vec<u8> = Vec::new();
    let mut i: usize = 0;
    while i < v.len()
        invariant
            i <= v@.len(),
            r@ == v@.take(i as int),
        decreases v@.len() - i,
    {
        r.push(v[i]);
        proof {
            assert(v@.take(i + 1) =~= v@.take(i as int).push(v@[i as int]));
        }
        i += 1;
    }
    proof {
        assert(v@.take(v@.len() as int) =~= v@);
    }
    r
}

pub(crate) fn bytes_eq(a: &Vec<u8>, b: &Vec<u8>) -> (r: bool)
    ensures
        r == (a@ == b@),
{
    if a.len() != b.len() {
        return false;
    }
    let mut i: usize = 0;
    while i < a.len()
        invariant
            a@.len() == b@.len(),
            i <= a@.len(),
            forall|k: int| 0 <= k < i ==> a@[k] == b@[k],
        decreases a@.len() - i,
    {
        if a[i] != b[i] {
            return false;
        }
        i += 1;
    }
    proof {
        assert(a@ =~= b@);
    }
    true
}

fn trim(v: Vec<u8>) -> (r: Vec<u8>)
    requires
        digits_ok(v@),
    ensures
        canonical(r@),
        dval(r@) == dval(v@),
{
    let ghost orig = v@;
    let mut v = v;
    while v.len() > 0 && v[v.len() - 1] == 0
        invariant
            digits_ok(v@),
            dval(v@) == dval(orig),
        decreases v@.len(),
    {
        proof {
            lemma_dval_drop_last_zero(v@);
        }
        v.pop();
    }
    v
}

fn mag_add(a: &Vec<u8>, b: &Vec<u8>) -> (r: Vec<u8>)
    requires
        digits_ok(a@),
        digits_ok(b@),
    ensures
        digits_ok(r@),
        dval(r@) == dval(a@) + dval(b@),
{
    let la = a.len();
    let lb = b.len();
    let n = if la > lb {
        la
    } else {
        lb
    };
    let mut out: Vec<u8> = Vec::new();
    let mut carry: u8 = 0;
    let mut i: usize = 0;
    while i < n
        invariant
            digits_ok(a@),
            digits_ok(b@),
            la == a@.len(),
            lb == b@.len(),
            n == if la > lb { la } else { lb },
            i <= n,
            carry <= 1,
            out@.len() == i,
            digits_ok(out@),
            dval(out@) + pow10(i as nat) * carry == dtake(a@, i as int) + dtake(b@, i as int),
        decreases n - i,
    {
        let da: u8 = if i < la {
            a[i]
        } else {
            0
        };
        let db: u8 = if i < lb {
            b[i]
        } else {
            0
        };
        let s: u8 = da + db + carry;
        let d: u8 = s % 10;
        let c2: u8 = s / 10;
        proof {
            lemma_dval_push(out@, d);
            assert(pow10((i + 1) as nat) == 10 * pow10(i as nat));
            if i < la {
                lemma_dval_take_succ(a@, i as int);
            } else {
                assert(a@.take(la as int) =~= a@);
            }
            if i < lb {
                lemma_dval_take_succ(b@, i as int);
            } else {
                assert(b@.take(lb as int) =~= b@);
            }
            lemma_add_step(
                pow10(i as nat),
                dval(out@),
                d as int,
                c2 as int,
                carry as int,
                dtake(a@, i as int),
                dtake(b@, i as int),
                da as int,
                db as int,
            );
        }
        out.push(d);
        carry = c2;
        i += 1;
    }
    proof {
        assert(a@.take(la as int) =~= a@);
        assert(b@.take(lb as int) =~= b@);
    }
    if carry == 1 {
        proof {
            lemma_dval_push(out@, 1);
        }
        out.push(1);
    }
    out
}

fn mag_sub(a: &Vec<u8>, b: &Vec<u8>) -> (r: Vec<u8>)
    requires
        digits_ok(a@),
        digits_ok(b@),
        b@.len() <= a@.len(),
        dval(b@) <= dval(a@),
    ensures
        digits_ok(r@),
        dval(r@) == dval(a@) - dval(b@),
{
    let la = a.len();
    let lb = b.len();
    let mut out: Vec<u8> = Vec::new();
    let mut borrow: u8 = 0;
    let mut i: usize = 0;
    while i < la
        invariant
            digits_ok(a@),
            digits_ok(b@),
            la == a@.len(),
            lb == b@.len(),
            lb <= la,
            i <= la,
            borrow <= 1,
            out@.len() == i,
            digits_ok(out@),
            dval(out@) == dtake(a@, i as int) - dtake(b@, i as int) + pow10(i as nat) * borrow,
        decreases la - i,
    {
        let av: u8 = a[i];
        let bv: u8 = if i < lb {
            b[i]
        } else {
            0
        };
        let d: u8;
        let b2: u8;
        if av >= bv + borrow {
            d = av - bv - borrow;
            b2 = 0;
        } else {
            d = av + 10 - bv - borrow;
            b2 = 1;
        }
        proof {
            lemma_dval_push(out@, d);
            assert(pow10((i + 1) as nat) == 10 * pow10(i as nat));
            lemma_dval_take_succ(a@, i as int);
            if i < lb {
                lemma_dval_take_succ(b@, i as int);
            } else {
                assert(b@.take(lb as int) =~= b@);
            }
            lemma_sub_step(
                pow10(i as nat),
                dval(out@),
                d as int,
                b2 as int,
                borrow as int,
                dtake(a@, i as int),
                dtake(b@, i as int),
                av as int,
                bv as int,
            );
        }
        out.push(d);
        borrow = b2;
        i += 1;
    }
    proof {
        assert(a@.take(la as int) =~= a@);
        assert(b@.take(lb as int) =~= b@);
        if borrow == 1 {
            lemma_dval_bound(out@);
            lemma_pow10_pos(la as nat);
        }
    }
    out
}

enum Cmp {
    Lt,
    Eq,
    Gt,
}

fn mag_cmp(a: &Vec<u8>, b: &Vec<u8>) -> (r: Cmp)
    requires
        canonical(a@),
        canonical(b@),
    ensures
        r == Cmp::Lt <==> dval(a@) < dval(b@),
        r == Cmp::Eq <==> dval(a@) == dval(b@),
        r == Cmp::Gt <==> dval(a@) > dval(b@),
{
    let la = a.len();
    let lb = b.len();
    if la < lb {
        proof {
            lemma_dval_bound(a@);
            lemma_dval_lower(b@);
            lemma_pow10_mono(la as nat, (lb - 1) as nat);
        }
        return Cmp::Lt;
    }
    if la > lb {
        proof {
            lemma_dval_bound(b@);
            lemma_dval_lower(a@);
            lemma_pow10_mono(lb as nat, (la - 1) as nat);
        }
        return Cmp::Gt;
    }
    let mut j = la;
    while j > 0
        invariant
            canonical(a@),
            canonical(b@),
            la == a@.len(),
            la == b@.len(),
            j <= la,
            forall|k: int| j <= k < la ==> a@[k] == b@[k],
        decreases j,
    {
        let i = j - 1;
        if a[i] > b[i] {
            proof {
                lemma_cmp_decide(a@, b@, i as int);
            }
            return Cmp::Gt;
        }
        if a[i] < b[i] {
            proof {
                lemma_cmp_decide(b@, a@, i as int);
            }
            return Cmp::Lt;
        }
        j = i;
    }
    proof {
        assert(a@ =~= b@);
    }
    Cmp::Eq
}

proof fn lemma_cmp_decide(a: Seq<u8>, b: Seq<u8>, i: int)
    requires
        digits_ok(a),
        digits_ok(b),
        a.len() == b.len(),
        0 <= i < a.len(),
        forall|k: int| i < k < a.len() ==> a[k] == b[k],
        a[i] > b[i],
    ensures
        dval(a) > dval(b),
{
    lemma_dval_split(a, i);
    lemma_dval_split(b, i);
    assert(a.skip(i).subrange(1, a.skip(i).len() as int) =~= a.skip(i + 1));
    assert(b.skip(i).subrange(1, b.skip(i).len() as int) =~= b.skip(i + 1));
    assert(a.skip(i + 1) =~= b.skip(i + 1));
    assert(dval(a.skip(i)) - dval(b.skip(i)) == a[i] - b[i]);
    assert(digits_ok(a.take(i)));
    assert(digits_ok(b.take(i)));
    lemma_dval_bound(a.take(i));
    lemma_dval_bound(b.take(i));
    lemma_pow10_pos(i as nat);
    assert(pow10(i as nat) * dval(a.skip(i)) - pow10(i as nat) * dval(b.skip(i)) >= pow10(i as nat))
        by (nonlinear_arith)
        requires
            dval(a.skip(i)) - dval(b.skip(i)) >= 1,
            pow10(i as nat) >= 1,
    ;
}

/// An arbitrary-precision signed integer.
#[derive(Debug, PartialEq, Eq)]
pub struct BigInt {
    neg: bool,
    mag: Vec<u8>,
}

impl View for BigInt {
    type V = int;

    closed spec fn view(&self) -> int {
        if self.neg {
            -dval(self.mag@)
        } else {
            dval(self.mag@)
        }
    }
}

impl BigInt {
    #[verifier::type_invariant]
    spec fn wf(self) -> bool {
        canonical(self.mag@) && (self.neg ==> self.mag@.len() > 0)
    }

    /// The integer zero.
    pub fn zero() -> (r: BigInt)
        ensures
            r@ == 0,
    {
        BigInt { neg: false, mag: Vec::new() }
    }

    /// An equal copy of this integer.
    pub fn dup(&self) -> (r: BigInt)
        ensures
            r@ == self@,
    {
        proof {
            use_type_invariant(self);
        }
        BigInt { neg: self.neg, mag: copy_bytes(&self.mag) }
    }

    /// The negation of this integer.
    pub fn negated(&self) -> (r: BigInt)
        ensures
            r@ == -self@,
    {
        proof {
            use_type_invariant(self);
        }
        let nonzero = self.mag.len() > 0;
        BigInt { neg: !self.neg && nonzero, mag: copy_bytes(&self.mag) }
    }

    /// A machine integer, widened.
    pub fn from_u64(v: u64) -> (r: BigInt)
        ensures
            r@ == v,
    {
        let mut mag: Vec<u8> = Vec::new();
        let mut x: u64 = v;
        while x > 0
            invariant
                digits_ok(mag@),
                dval(mag@) + x * pow10(mag@.len()) == v,
                mag@.len() > 0 && x == 0 ==> mag@[mag@.len() - 1] != 0,
            decreases x,
        {
            let d: u8 = (x % 10) as u8;
            let x2: u64 = x / 10;
            proof {
                lemma_dval_push(mag@, d);
                assert(pow10((mag@.len() + 1) as nat) == 10 * pow10(mag@.len()));
                lemma_pow10_pos(mag@.len());
                assert(dval(mag@) + d * pow10(mag@.len()) + x2 * (10 * pow10(mag@.len())) == dval(
                    mag@,
                ) + (d + 10 * x2) * pow10(mag@.len())) by (nonlinear_arith);
            }
            mag.push(d);
            x = x2;
        }
        proof {
            lemma_pow10_pos(mag@.len());
        }
        BigInt { neg: false, mag }
    }

    /// The value written by the given big-endian ASCII decimal digits.
    pub fn from_decimal(s: &Vec<u8>) -> (r: BigInt)
        requires
            is_ascii_digits(s@),
        ensures
            r@ == dec_val(s@),
    {
        let mut mag: Vec<u8> = Vec::new();
        let mut i: usize = s.len();
        while i > 0
            invariant
                is_ascii_digits(s@),
                i <= s@.len(),
                mag@.len() == s@.len() - i,
                digits_ok(mag@),
                dval(mag@) == dec_val(s@.skip(i as int)),
            decreases i,
        {
            let d: u8 = s[i - 1] - 48;
            proof {
                lemma_dval_push(mag@, d);
                assert(s@.skip(i - 1).subrange(1, s@.skip(i - 1).len() as int) =~= s@.skip(
                    i as int,
                ));
                assert(dec_val(s@.skip(i - 1)) == (s@[i - 1] - 48) * pow10(
                    (s@.len() - i) as nat,
                ) + dec_val(s@.skip(i as int)));
            }
            mag.push(d);
            i -= 1;
        }
        proof {
            assert(s@.skip(0) =~= s@);
        }
        let mag = trim(mag);
        BigInt { neg: false, mag }
    }

    /// Whether this integer is at least the other.
    pub fn ge(&self, other: &BigInt) -> (r: bool)
        ensures
            r == (self@ >= other@),
    {
        proof {
            use_type_invariant(self);
            use_type_invariant(other);
            if self.mag@.len() > 0 {
                lemma_dval_lower(self.mag@);
            }
            if other.mag@.len() > 0 {
                lemma_dval_lower(other.mag@);
            }
        }
        if !self.neg && other.neg {
            return true;
        }
        if self.neg && !other.neg {
            return false;
        }
        let c = mag_cmp(&self.mag, &other.mag);
        if self.neg {
            match c {
                Cmp::Gt => false,
                _ => true,
            }
        } else {
            match c {
                Cmp::Lt => false,
                _ => true,
            }
        }
    }

    /// The sum of two integers.
    pub fn add(&self, other: &BigInt) -> (r: BigInt)
        ensures
            r@ == self@ + other@,
    {
        proof {
            use_type_invariant(self);
            use_type_invariant(other);
        }
        if self.neg == other.neg {
            let mag = trim(mag_add(&self.mag, &other.mag));
            let nonzero = mag.len() > 0;
            proof {
                if mag@.len() == 0 {
                    assert(dval(mag@) == 0);
                }
            }
            return BigInt { neg: self.neg && nonzero, mag };
        }
        let c = mag_cmp(&self.mag, &other.mag);
        match c {
            Cmp::Eq => BigInt { neg: false, mag: Vec::new() },
            Cmp::Gt => {
                proof {
                    lemma_len_le(&other.mag@, &self.mag@);
                }
                let mag = trim(mag_sub(&self.mag, &other.mag));
                proof {
                    if mag@.len() == 0 {
                        assert(dval(mag@) == 0);
                    }
                }
                BigInt { neg: self.neg, mag }
            },
            Cmp::Lt => {
                proof {
                    lemma_len_le(&self.mag@, &other.mag@);
                }
                let mag = trim(mag_sub(&other.mag, &self.mag));
                proof {
                    if mag@.len() == 0 {
                        assert(dval(mag@) == 0);
                    }
                }
                BigInt { neg: other.neg, mag }
            },
        }
    }

    /// The difference of two integers.
    pub fn sub(&self, other: &BigInt) -> (r: BigInt)
        ensures
            r@ == self@ - other@,
    {
        let n = other.negated();
        self.add(&n)
    }

    /// The ASCII decimal rendering of this integer.
    pub fn to_decimal(&self) -> (r: Vec<u8>)
        ensures
            r@ == dec_of(self@),
    {
        proof {
            use_type_invariant(self);
        }
        let mut out: Vec<u8> = Vec::new();
        if self.mag.len() == 0 {
            out.push(48);
            proof {
                assert(out@ =~= dec_mag(0));
            }
            return out;
        }
        if self.neg {
            out.push(45);
        }
        proof {
            lemma_dec_mag_digits(self.mag@);
            lemma_dval_lower(self.mag@);
        }
        let ghost pre = out@;
        let mut j: usize = self.mag.len();
        while j > 0
            invariant
                canonical(self.mag@),
                self.mag@.len() > 0,
                j <= self.mag@.len(),
                out@ == pre + Seq::new((self.mag@.len() - j) as nat, |i: int| (self.mag@[self.mag@.len() - 1 - i] + 48) as u8),
            decreases j,
        {
            out.push(self.mag[j - 1] + 48);
            proof {
                assert(out@ =~= pre + Seq::new(
                    (self.mag@.len() - (j - 1)) as nat,
                    |i: int| (self.mag@[self.mag@.len() - 1 - i] + 48) as u8,
                ));
            }
            j -= 1;
        }
        proof {
            assert(out@ == pre + dec_mag(dval(self.mag@) as nat));
            if self.neg {
                assert(out@ =~= seq![45u8] + dec_mag(dval(self.mag@) as nat));
            } else {
                assert(out@ =~= dec_mag(dval(self.mag@) as nat));
            }
        }
        out
    }
}

proof fn lemma_len_le(a: &Seq<u8>, b: &Seq<u8>)
    requires
        canonical(*a),
        canonical(*b),
        dval(*a) < dval(*b),
    ensures
        a.len() <= b.len(),
{
    if a.len() > b.len() {
        lemma_dval_lower(*a);
        lemma_dval_bound(*b);
        lemma_pow10_mono(b.len(), (a.len() - 1) as nat);
    }
}

/// The decimal rendering of a canonical digit sequence is its digits,
/// most significant first.
proof fn lemma_dec_mag_digits(s: Seq<u8>)
    requires
        canonical(s),
        s.len() > 0,
    ensures
        dec_mag(dval(s) as nat) == Seq::new(s.len(), |i: int| (s[s.len() - 1 - i] + 48) as u8),
    decreases s.len(),
{
    lemma_dval_bound(s);
    let n = dval(s) as nat;
    let t = s.subrange(1, s.len() as int);
    assert(dval(s) == s[0] + 10 * dval(t));
    if s.len() == 1 {
        assert(t.len() == 0);
        assert(n == s[0]);
        assert(dec_mag(n) =~= Seq::new(1, |i: int| (s[0] + 48) as u8));
    } else {
        assert(canonical(t)) by {
            assert(t[t.len() - 1] == s[s.len() - 1]);
        }
        lemma_dval_lower(t);
        assert(dval(t) >= 1);
        assert(n >= 10) by (nonlinear_arith)
            requires
                n == s[0] + 10 * dval(t),
                dval(t) >= 1,
                s[0] >= 0,
        ;
        assert(n / 10 == dval(t) && n % 10 == s[0]) by (nonlinear_arith)
            requires
                n == s[0] + 10 * dval(t),
                0 <= s[0] < 10,
                dval(t) >= 0,
        ;
        lemma_dec_mag_digits(t);
        assert(dec_mag(n) == dec_mag(dval(t) as nat).push((48 + s[0]) as u8));
        assert(dec_mag(n) =~= Seq::new(s.len(), |i: int| (s[s.len() - 1 - i] + 48) as u8));
    }
}

} // verus!
