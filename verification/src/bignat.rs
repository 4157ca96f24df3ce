use vstd::prelude::*;
use vstd::arithmetic::div_mod::lemma_fundamental_div_mod;
use vstd::string::StringExecFns;

verus! {

/// The numeric value of a decimal digit character; ten for anything else.
pub open spec fn digit_of_char(c: char) -> nat {
    if c == '0' {
        0
    } else if c == '1' {
        1
    } else if c == '2' {
        2
    } else if c == '3' {
        3
    } else if c == '4' {
        4
    } else if c == '5' {
        5
    } else if c == '6' {
        6
    } else if c == '7' {
        7
    } else if c == '8' {
        8
    } else if c == '9' {
        9
    } else {
        10
    }
}

/// Whether every character of `s` is a decimal digit.
pub open spec fn all_dec_digits(s: Seq<char>) -> bool {
    forall|i: int| 0 <= i < s.len() ==> digit_of_char(s[i]) < 10
}

/// The number that a digit string names, read from left to right.
pub open spec fn str_val(s: Seq<char>) -> nat
    decreases s.len(),
{
    if s.len() == 0 {
        0
    } else {
        10 * str_val(s.drop_last()) + digit_of_char(s.last())
    }
}

/// Little-endian positional value of a digit sequence `s` in base `b`:
/// `s[0] + b*s[1] + b^2*s[2] + ...`.
spec fn place_val(s: Seq<u64>, b: nat) -> nat
    decreases s.len(),
{
    if s.len() == 0 {
        0
    } else {
        (s[0] + b * place_val(s.skip(1), b)) as nat
    }
}

/// `b` raised to the power `n`.
spec fn pow_of(b: nat, n: nat) -> nat
    decreases n,
{
    if n == 0 {
        1
    } else {
        b * pow_of(b, (n - 1) as nat)
    }
}

/// The radix of one `u64` limb.
spec fn limb_base() -> nat {
    0x1_0000_0000_0000_0000
}

/// The natural number represented by a limb sequence.
spec fn limbs_val(s: Seq<u64>) -> nat {
    place_val(s, limb_base())
}

/// Appending a digit at the top adds its value at the next place.
proof fn lemma_place_val_push(s: Seq<u64>, b: nat, x: u64)
    ensures
        place_val(s.push(x), b) == place_val(s, b) + x * pow_of(b, s.len()),
    decreases s.len(),
{
    if s.len() == 0 {
        assert(s =~= Seq::<u64>::empty());
        assert(s.push(x) =~= seq![x]);
        assert(seq![x].skip(1) =~= Seq::<u64>::empty());
        assert(place_val(Seq::<u64>::empty(), b) == 0);
        assert(place_val(seq![x], b) == x + b * place_val(seq![x].skip(1), b));
        assert(place_val(s.push(x), b) == x);
        assert(pow_of(b, 0) == 1);
        assert(x * pow_of(b, 0) == x * 1);
    } else {
        let n1 = (s.len() - 1) as nat;
        assert(s.push(x).skip(1) =~= s.skip(1).push(x));
        lemma_place_val_push(s.skip(1), b, x);
        assert(place_val(s.push(x), b)
            == s[0] + b * (place_val(s.skip(1), b) + x * pow_of(b, n1)));
        assert(b * (place_val(s.skip(1), b) + x * pow_of(b, n1))
            == b * place_val(s.skip(1), b) + x * (b * pow_of(b, n1))) by (nonlinear_arith);
        assert(place_val(s, b) == s[0] + b * place_val(s.skip(1), b));
        assert(pow_of(b, s.len()) == b * pow_of(b, n1));
    }
}

/// A prefix one longer is the prefix plus the next digit at its place.
proof fn lemma_place_val_take_succ(s: Seq<u64>, b: nat, i: int)
    requires
        0 <= i < s.len(),
    ensures
        place_val(s.take(i + 1), b) == place_val(s.take(i), b) + s[i] * pow_of(b, i as nat),
{
    assert(s.take(i + 1) =~= s.take(i).push(s[i]));
    lemma_place_val_push(s.take(i), b, s[i]);
}

/// The value of the first `i` limbs of `s`; limbs past the end count as zero.
spec fn prefix_val(s: Seq<u64>, i: int) -> nat {
    if i <= s.len() {
        limbs_val(s.take(i))
    } else {
        limbs_val(s)
    }
}

/// Extending a prefix by one place adds the limb there, or nothing past the end.
proof fn lemma_prefix_val_step(s: Seq<u64>, i: int)
    requires
        0 <= i,
    ensures
        prefix_val(s, i + 1) == prefix_val(s, i) + (if i < s.len() {
            s[i]
        } else {
            0u64
        }) * pow_of(limb_base(), i as nat),
{
    if i < s.len() {
        lemma_place_val_take_succ(s, limb_base(), i);
    } else {
        if i == s.len() {
            assert(s.take(i) =~= s);
        }
    }
}

/// The whole sequence is its own full prefix.
proof fn lemma_prefix_val_full(s: Seq<u64>, i: int)
    requires
        s.len() <= i,
    ensures
        prefix_val(s, i) == limbs_val(s),
{
    if i == s.len() {
        assert(s.take(i) =~= s);
    }
}

/// Rearrangement behind one step of the carry-propagating addition loop.
proof fn lemma_carry_step(
    ov: nat,
    av: nat,
    bv: nat,
    carry: nat,
    ai: nat,
    bi: nat,
    limb: nat,
    c2: nat,
    p: nat,
    base: nat,
)
    requires
        ov + carry * p == av + bv,
        ai + bi + carry == limb + base * c2,
    ensures
        (ov + limb * p) + c2 * (base * p) == (av + ai * p) + (bv + bi * p),
{
    assert((ov + limb * p) + c2 * (base * p) == ov + (limb + base * c2) * p) by (nonlinear_arith);
    assert(ov + (limb + base * c2) * p == ov + (ai + bi + carry) * p);
    assert(ov + (ai + bi + carry) * p == (ov + carry * p) + ai * p + bi * p) by (nonlinear_arith);
}

/// `pow_of` of a positive base is positive.
proof fn lemma_pow_of_pos(b: nat, n: nat)
    requires
        b > 0,
    ensures
        pow_of(b, n) > 0,
    decreases n,
{
    if n > 0 {
        lemma_pow_of_pos(b, (n - 1) as nat);
        assert(b * pow_of(b, (n - 1) as nat) > 0) by (nonlinear_arith)
            requires
                b > 0,
                pow_of(b, (n - 1) as nat) > 0,
        ;
    }
}

/// The value of a sequence is at least any one limb at its place.
proof fn lemma_place_val_lower_bound(s: Seq<u64>, b: nat, i: int)
    requires
        0 <= i < s.len(),
    ensures
        place_val(s, b) >= s[i] * pow_of(b, i as nat),
    decreases i,
{
    assert(place_val(s, b) == s[0] + b * place_val(s.skip(1), b));
    if i == 0 {
        assert(pow_of(b, 0) == 1);
        assert(s[0] * pow_of(b, 0) == s[0] * 1);
    } else {
        lemma_place_val_lower_bound(s.skip(1), b, i - 1);
        assert(s.skip(1)[i - 1] == s[i]);
        assert(b * place_val(s.skip(1), b) >= s[i] * (b * pow_of(b, (i - 1) as nat)))
            by (nonlinear_arith)
            requires
                place_val(s.skip(1), b) >= s[i] * pow_of(b, (i - 1) as nat),
        ;
        assert(pow_of(b, i as nat) == b * pow_of(b, (i - 1) as nat));
    }
}

/// A sequence of zero limbs has value zero.
proof fn lemma_place_val_all_zero(s: Seq<u64>, b: nat)
    requires
        forall|j: int| 0 <= j < s.len() ==> s[j] == 0,
    ensures
        place_val(s, b) == 0,
    decreases s.len(),
{
    if s.len() > 0 {
        assert(forall|j: int| 0 <= j < s.skip(1).len() ==> s.skip(1)[j] == 0);
        lemma_place_val_all_zero(s.skip(1), b);
        assert(s[0] == 0);
        assert(b * place_val(s.skip(1), b) == 0);
        assert(place_val(s, b) == s[0] + b * place_val(s.skip(1), b));
    }
}

/// Rearrangement behind one step of the long division by ten.
proof fn lemma_div10_step(low: nat, hi: nat, q: nat, rem: nat, qi: nat, rem2: nat, base: nat)
    requires
        hi == 10 * q + rem,
        low + base * rem == 10 * qi + rem2,
    ensures
        low + base * hi == 10 * (qi + base * q) + rem2,
{
    assert(low + base * hi == (low + base * rem) + 10 * (base * q)) by (nonlinear_arith)
        requires
            hi == 10 * q + rem,
    ;
    assert(10 * qi + rem2 + 10 * (base * q) == 10 * (qi + base * q) + rem2) by (nonlinear_arith);
}

/// The one-character string for a decimal digit.
fn digit_str(d: u64) -> (r: &'static str)
    requires
        d < 10,
    ensures
        r@.len() == 1,
        digit_of_char(r@[0]) == d,
{
    if d == 0 {
        proof {
            reveal_strlit("0");
        }
        "0"
    } else if d == 1 {
        proof {
            reveal_strlit("1");
        }
        "1"
    } else if d == 2 {
        proof {
            reveal_strlit("2");
        }
        "2"
    } else if d == 3 {
        proof {
            reveal_strlit("3");
        }
        "3"
    } else if d == 4 {
        proof {
            reveal_strlit("4");
        }
        "4"
    } else if d == 5 {
        proof {
            reveal_strlit("5");
        }
        "5"
    } else if d == 6 {
        proof {
            reveal_strlit("6");
        }
        "6"
    } else if d == 7 {
        proof {
            reveal_strlit("7");
        }
        "7"
    } else if d == 8 {
        proof {
            reveal_strlit("8");
        }
        "8"
    } else {
        proof {
            reveal_strlit("9");
        }
        "9"
    }
}

/// An arbitrary-precision natural number, stored as little-endian `u64` limbs.
/// Trailing zero limbs are allowed and do not change the value.
pub struct BigNat {
    limbs: Vec<u64>,
}

impl BigNat {
    /// The natural number this value stands for.
    pub closed spec fn val(&self) -> nat {
        limbs_val(self.limbs@)
    }

    /// A big natural holding the value `v`.
    pub fn from_u64(v: u64) -> (r: BigNat)
        ensures
            r.val() == v,
    {
        let mut limbs: Vec<u64> = Vec::new();
        limbs.push(v);
        proof {
            assert(limbs@ =~= seq![v]);
            assert(seq![v].skip(1) =~= Seq::<u64>::empty());
            assert(place_val(Seq::<u64>::empty(), limb_base()) == 0);
            assert(place_val(seq![v], limb_base())
                == v + limb_base() * place_val(seq![v].skip(1), limb_base()));
        }
        BigNat { limbs }
    }

    /// The sum of two big naturals, by limbwise addition with carry.
    pub fn add(&self, other: &BigNat) -> (r: BigNat)
        ensures
            r.val() == self.val() + other.val(),
    {
        let a = &self.limbs;
        let b = &other.limbs;
        let n: usize = if a.len() > b.len() {
            a.len()
        } else {
            b.len()
        };
        let mut out: Vec<u64> = Vec::new();
        let mut carry: u64 = 0;
        let mut i: usize = 0;
        while i < n
            invariant
                i <= n,
                a@.len() <= n,
                b@.len() <= n,
                n == a@.len() || n == b@.len(),
                out@.len() == i,
                carry <= 1,
                limbs_val(out@) + carry * pow_of(limb_base(), i as nat) == prefix_val(a@, i as int)
                    + prefix_val(b@, i as int),
            decreases n - i,
        {
            let ai: u64 = if i < a.len() {
                a[i]
            } else {
                0
            };
            let bi: u64 = if i < b.len() {
                b[i]
            } else {
                0
            };
            let t: u128 = ai as u128 + bi as u128 + carry as u128;
            proof {
                lemma_fundamental_div_mod(t as int, 0x1_0000_0000_0000_0000);
                assert(t % 0x1_0000_0000_0000_0000 < 0x1_0000_0000_0000_0000);
                assert(t / 0x1_0000_0000_0000_0000 <= 1) by {
                    if t / 0x1_0000_0000_0000_0000 >= 2 {
                        vstd::arithmetic::mul::lemma_mul_inequality(
                            2,
                            (t / 0x1_0000_0000_0000_0000) as int,
                            0x1_0000_0000_0000_0000,
                        );
                    }
                }
            }
            let limb: u64 = (t % 0x1_0000_0000_0000_0000u128) as u64;
            let c2: u64 = (t / 0x1_0000_0000_0000_0000u128) as u64;
            proof {
                lemma_place_val_push(out@, limb_base(), limb);
                lemma_prefix_val_step(a@, i as int);
                lemma_prefix_val_step(b@, i as int);
                lemma_carry_step(
                    limbs_val(out@),
                    prefix_val(a@, i as int),
                    prefix_val(b@, i as int),
                    carry as nat,
                    ai as nat,
                    bi as nat,
                    limb as nat,
                    c2 as nat,
                    pow_of(limb_base(), i as nat),
                    limb_base(),
                );
                assert(pow_of(limb_base(), (i + 1) as nat) == limb_base() * pow_of(
                    limb_base(),
                    i as nat,
                ));
            }
            out.push(limb);
            carry = c2;
            i = i + 1;
        }
        proof {
            lemma_prefix_val_full(a@, n as int);
            lemma_prefix_val_full(b@, n as int);
        }
        if carry > 0 {
            proof {
                lemma_place_val_push(out@, limb_base(), carry);
            }
            out.push(carry);
        }
        BigNat { limbs: out }
    }

    /// Whether this big natural is zero.
    fn is_zero(&self) -> (r: bool)
        ensures
            r == (self.val() == 0),
    {
        let mut i: usize = 0;
        while i < self.limbs.len()
            invariant
                i <= self.limbs@.len(),
                forall|j: int| 0 <= j < i ==> self.limbs@[j] == 0,
            decreases self.limbs@.len() - i,
        {
            if self.limbs[i] != 0 {
                proof {
                    lemma_place_val_lower_bound(self.limbs@, limb_base(), i as int);
                    lemma_pow_of_pos(limb_base(), i as nat);
                    assert(self.limbs@[i as int] * pow_of(limb_base(), i as nat) > 0)
                        by (nonlinear_arith)
                        requires
                            self.limbs@[i as int] > 0,
                            pow_of(limb_base(), i as nat) > 0,
                    ;
                }
                return false;
            }
            i = i + 1;
        }
        proof {
            lemma_place_val_all_zero(self.limbs@, limb_base());
        }
        true
    }

    /// The quotient and remainder of this big natural divided by ten.
    fn divmod10(&self) -> (qr: (BigNat, u64))
        ensures
            qr.1 < 10,
            self.val() == 10 * qr.0.val() + qr.1,
    {
        let n: usize = self.limbs.len();
        let mut q: Vec<u64> = Vec::new();
        let mut k: usize = 0;
        while k < n
            invariant
                k <= n,
                n == self.limbs@.len(),
                q@.len() == k,
                forall|j: int| 0 <= j < k ==> q@[j] == self.limbs@[j],
            decreases n - k,
        {
            q.push(self.limbs[k]);
            k = k + 1;
        }
        let mut rem: u64 = 0;
        let mut i: usize = n;
        proof {
            assert(self.limbs@.skip(n as int) =~= Seq::<u64>::empty());
            assert(q@.skip(n as int) =~= Seq::<u64>::empty());
        }
        while i > 0
            invariant
                i <= n,
                n == self.limbs@.len(),
                q@.len() == n,
                rem < 10,
                forall|j: int| 0 <= j < i ==> q@[j] == self.limbs@[j],
                place_val(self.limbs@.skip(i as int), limb_base()) == 10 * place_val(
                    q@.skip(i as int),
                    limb_base(),
                ) + rem,
            decreases i,
        {
            i = i - 1;
            let ghost old_q = q@;
            let ghost old_rem = rem as nat;
            let low: u64 = self.limbs[i];
            let cur: u128 = (rem as u128) * 0x1_0000_0000_0000_0000u128 + (low as u128);
            proof {
                lemma_fundamental_div_mod(cur as int, 10);
                assert(cur / 10 < 0x1_0000_0000_0000_0000) by {
                    if cur / 10 >= 0x1_0000_0000_0000_0000 {
                        vstd::arithmetic::mul::lemma_mul_inequality(
                            0x1_0000_0000_0000_0000,
                            (cur / 10) as int,
                            10,
                        );
                    }
                }
            }
            let qi: u64 = (cur / 10) as u64;
            let r2: u64 = (cur % 10) as u64;
            q[i] = qi;
            rem = r2;
            proof {
                let b = limb_base();
                let s_lo = self.limbs@.skip(i as int);
                let q_lo = q@.skip(i as int);
                assert(s_lo.skip(1) =~= self.limbs@.skip(i + 1));
                assert(q_lo.skip(1) =~= old_q.skip(i + 1));
                assert(s_lo[0] == low);
                assert(q_lo[0] == qi);
                assert(place_val(s_lo, b) == low + b * place_val(s_lo.skip(1), b));
                assert(place_val(q_lo, b) == qi + b * place_val(q_lo.skip(1), b));
                lemma_div10_step(
                    low as nat,
                    place_val(self.limbs@.skip(i + 1), b),
                    place_val(old_q.skip(i + 1), b),
                    old_rem,
                    qi as nat,
                    rem as nat,
                    b,
                );
            }
        }
        proof {
            assert(self.limbs@.skip(0) =~= self.limbs@);
            assert(q@.skip(0) =~= q@);
        }
        (BigNat { limbs: q }, rem)
    }

    /// The decimal representation of this big natural: digits only, no
    /// leading zero except for the single digit of zero itself.
    pub fn to_decimal(&self) -> (r: String)
        ensures
            all_dec_digits(r@),
            r@.len() >= 1,
            r@.len() > 1 ==> r@[0] != '0',
            str_val(r@) == self.val(),
    {
        let (q0, r0) = self.divmod10();
        let mut digits: Vec<u64> = Vec::new();
        digits.push(r0);
        let mut cur = q0;
        let mut done = cur.is_zero();
        proof {
            assert(digits@ =~= seq![r0]);
            assert(seq![r0].skip(1) =~= Seq::<u64>::empty());
            assert(place_val(Seq::<u64>::empty(), 10) == 0);
            assert(place_val(digits@, 10) == r0 + 10 * place_val(seq![r0].skip(1), 10));
            assert(pow_of(10, 1) == 10 * pow_of(10, 0));
        }
        while !done
            invariant
                done == (cur.val() == 0),
                digits@.len() >= 1,
                forall|j: int| 0 <= j < digits@.len() ==> digits@[j] < 10,
                place_val(digits@, 10) + cur.val() * pow_of(10, digits@.len()) == self.val(),
                (cur.val() == 0 && digits@.len() > 1) ==> digits@.last() != 0,
            decreases cur.val(),
        {
            let (q, r) = cur.divmod10();
            proof {
                lemma_place_val_push(digits@, 10, r);
                assert(pow_of(10, (digits@.len() + 1) as nat) == 10 * pow_of(10, digits@.len()));
                assert(r * pow_of(10, digits@.len()) + q.val() * (10 * pow_of(
                    10,
                    digits@.len(),
                )) == cur.val() * pow_of(10, digits@.len())) by (nonlinear_arith)
                    requires
                        cur.val() == 10 * q.val() + r,
                ;
                assert(q.val() < cur.val());
            }
            digits.push(r);
            cur = q;
            done = cur.is_zero();
        }
        let mut s = String::new();
        let k: usize = digits.len();
        let mut t: usize = k;
        proof {
            assert(digits@.skip(k as int) =~= Seq::<u64>::empty());
        }
        while t > 0
            invariant
                t <= k,
                k == digits@.len(),
                k >= 1,
                forall|j: int| 0 <= j < digits@.len() ==> digits@[j] < 10,
                s@.len() == k - t,
                all_dec_digits(s@),
                str_val(s@) == place_val(digits@.skip(t as int), 10),
                s@.len() > 0 ==> digit_of_char(s@[0]) == digits@[k - 1],
            decreases t,
        {
            t = t - 1;
            let ghost old_s = s@;
            let c = digit_str(digits[t]);
            s.append(c);
            proof {
                assert(s@ =~= old_s + c@);
                assert(s@.drop_last() =~= old_s);
                assert(s@.last() == c@[0]);
                let lo = digits@.skip(t as int);
                assert(lo.skip(1) =~= digits@.skip(t + 1));
                assert(lo[0] == digits@[t as int]);
                assert(place_val(lo, 10) == lo[0] + 10 * place_val(lo.skip(1), 10));
            }
        }
        proof {
            assert(digits@.skip(0) =~= digits@);
            if k > 1 {
                assert(digit_of_char('0') == 0);
            }
        }
        s
    }
}

} // verus!
