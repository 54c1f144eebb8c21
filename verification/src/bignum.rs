use vstd::prelude::*;

verus! {

/// An arbitrary-precision natural number, held as base-2^64 limbs, least
/// significant first. Guess scores are products of up to pool-size many pool
/// sizes, which no machine integer can hold exactly.
pub struct BigNat {
    limbs: Vec<u64>,
}

/// The number a limb sequence denotes, least significant limb first.
pub closed spec fn limbs_value(s: Seq<u64>) -> nat
    decreases s.len(),
{
    if s.len() == 0 {
        0
    } else {
        s[0] as nat + 0x10000000000000000 * limbs_value(s.drop_first())
    }
}

/// 2^64 raised to the `e`-th power: the weight of limb `e`.
pub closed spec fn base_pow(e: int) -> nat
    decreases e,
{
    if e <= 0 {
        1
    } else {
        0x10000000000000000 * base_pow(e - 1)
    }
}

proof fn lemma_value_push(s: Seq<u64>, x: u64)
    ensures
        limbs_value(s.push(x)) == limbs_value(s) + (x as nat) * base_pow(s.len() as int),
    decreases s.len(),
{
    let w: nat = 0x10000000000000000;
    if s.len() == 0 {
        assert(s.push(x) =~= seq![x]);
        assert(seq![x].drop_first() =~= Seq::<u64>::empty());
        assert(limbs_value(seq![x]) == x as nat + w * limbs_value(Seq::<u64>::empty()));
        assert((x as nat) * base_pow(0) == x as nat) by (nonlinear_arith);
    } else {
        assert(s.push(x).drop_first() =~= s.drop_first().push(x));
        lemma_value_push(s.drop_first(), x);
        let v = limbs_value(s.drop_first());
        let b = base_pow(s.len() - 1);
        assert(limbs_value(s.push(x)) == s[0] as nat + w * (v + (x as nat) * b));
        assert(base_pow(s.len() as int) == w * b);
        assert(s[0] as nat + w * (v + (x as nat) * b) == (s[0] as nat + w * v) + (x as nat) * (w
            * b)) by (nonlinear_arith);
    }
}

proof fn lemma_value_bound(s: Seq<u64>)
    ensures
        limbs_value(s) < base_pow(s.len() as int),
    decreases s.len(),
{
    let w: nat = 0x10000000000000000;
    if s.len() == 0 {
    } else {
        lemma_value_bound(s.drop_first());
        let v = limbs_value(s.drop_first());
        let b = base_pow(s.len() - 1);
        assert(v + 1 <= b);
        assert(s[0] as nat + w * v < w * b) by (nonlinear_arith)
            requires
                s[0] < w,
                v + 1 <= b,
        ;
        assert(base_pow(s.len() as int) == w * b);
    }
}

proof fn lemma_base_pow_mono(e1: int, e2: int)
    requires
        e1 <= e2,
    ensures
        base_pow(e1) <= base_pow(e2),
    decreases e2 - e1,
{
    if e1 < e2 {
        lemma_base_pow_mono(e1, e2 - 1);
        let b = base_pow(e2 - 1);
        lemma_base_pow_pos(e2 - 1);
        assert(b <= 0x10000000000000000 * b);
    }
}

proof fn lemma_base_pow_pos(e: int)
    ensures
        base_pow(e) >= 1,
    decreases e,
{
    if e > 0 {
        lemma_base_pow_pos(e - 1);
        let b = base_pow(e - 1);
        assert(0x10000000000000000 * b >= b);
    }
}

/// Splits a limb sequence at position `i`: the low `i` limbs plus the weighted
/// tail make up the whole value.
proof fn lemma_value_split(s: Seq<u64>, i: int)
    requires
        0 <= i <= s.len(),
    ensures
        limbs_value(s) == limbs_value(s.take(i)) + base_pow(i) * limbs_value(s.skip(i)),
    decreases i,
{
    let w: nat = 0x10000000000000000;
    if i == 0 {
        assert(s.take(0) =~= Seq::<u64>::empty());
        assert(s.skip(0) =~= s);
        assert(base_pow(0) * limbs_value(s) == limbs_value(s)) by (nonlinear_arith);
    } else {
        lemma_value_split(s, i - 1);
        assert(s.take(i) =~= s.take(i - 1).push(s[i - 1]));
        lemma_value_push(s.take(i - 1), s[i - 1]);
        assert(s.skip(i - 1).drop_first() =~= s.skip(i));
        assert(s.skip(i - 1)[0] == s[i - 1]);
        assert(limbs_value(s.skip(i - 1)) == s[i - 1] as nat + w * limbs_value(s.skip(i)));
        let b1 = base_pow(i - 1);
        let t = limbs_value(s.skip(i));
        let x = s[i - 1] as nat;
        assert(base_pow(i) == w * b1);
        assert(b1 * (x + w * t) == x * b1 + (w * b1) * t) by (nonlinear_arith);
    }
}

impl BigNat {
    /// The natural number this value denotes.
    pub closed spec fn value(self) -> nat {
        limbs_value(self.limbs@)
    }

    /// The number one: the empty product.
    pub fn one() -> (r: BigNat)
        ensures
            r.value() == 1,
    {
        let mut limbs: Vec<u64> = Vec::new();
        limbs.push(1u64);
        proof {
            assert(limbs@.drop_first() =~= Seq::<u64>::empty());
            assert(limbs_value(Seq::<u64>::empty()) == 0);
            assert(limbs_value(limbs@) == 1 + 0x10000000000000000 * 0);
        }
        BigNat { limbs }
    }

    /// Multiplies in place by a machine-word factor.
    pub fn mul_usize(&mut self, m: usize)
        ensures
            final (self).value() == old(self).value() * m,
    {
        let w_exec: u128 = 0x10000000000000000;
        let ghost w: nat = 0x10000000000000000;
        let mm: u64 = m as u64;
        let mut out: Vec<u64> = Vec::new();
        let mut carry: u64 = 0;
        let mut i: usize = 0;
        let n = self.limbs.len();
        proof {
            assert(self.limbs@.take(0) =~= Seq::<u64>::empty());
            assert(limbs_value(Seq::<u64>::empty()) == 0);
            assert(base_pow(0) == 1);
        }
        while i < n
            invariant
                n == self.limbs@.len(),
                i <= n,
                out@.len() == i,
                mm == m,
                w_exec == 0x10000000000000000,
                w == 0x10000000000000000,
                limbs_value(out@) + (carry as nat) * base_pow(i as int) == limbs_value(
                    self.limbs@.take(i as int),
                ) * (m as nat),
            decreases n - i,
        {
            let limb = self.limbs[i];
            proof {
                assert((limb as u128) * (mm as u128) + (carry as u128) < 0x100000000000000000000000000000000)
                    by (nonlinear_arith)
                    requires
                        limb <= 0xffffffffffffffff,
                        mm <= 0xffffffffffffffff,
                        carry <= 0xffffffffffffffff,
                ;
            }
            let p: u128 = (limb as u128) * (mm as u128) + (carry as u128);
            proof {
                vstd::arithmetic::div_mod::lemma_mod_bound(p as int, w_exec as int);
                vstd::arithmetic::div_mod::lemma_fundamental_div_mod(p as int, w_exec as int);
                // The quotient fits in a limb: a larger quotient would put
                // w_exec * quotient above p.
                assert(p as int == w_exec * (p as int / w_exec as int) + p as int % w_exec as int);
                if p as int / w_exec as int >= 0x10000000000000000 {
                    assert(0x10000000000000000 * (p as int / w_exec as int)
                        >= 0x10000000000000000 * 0x10000000000000000) by (nonlinear_arith)
                        requires
                            p as int / w_exec as int >= 0x10000000000000000,
                    ;
                    assert(false);
                }
                assert(p as int / w_exec as int >= 0) by {
                    vstd::arithmetic::div_mod::lemma_div_pos_is_pos(p as int, w_exec as int);
                }
            }
            let lo: u64 = (p % w_exec) as u64;
            let hi: u64 = (p / w_exec) as u64;
            proof {
                assert(p as nat == (hi as nat) * w + lo as nat);
                lemma_value_push(out@, lo);
                let vo = limbs_value(out@);
                let vt = limbs_value(self.limbs@.take(i as int));
                let bi = base_pow(i as int);
                assert(self.limbs@.take(i + 1) =~= self.limbs@.take(i as int).push(limb));
                lemma_value_push(self.limbs@.take(i as int), limb);
                assert(limbs_value(self.limbs@.take(i + 1)) == vt + (limb as nat) * bi);
                assert(base_pow(i + 1) == w * bi);
                // vo + lo*bi + hi*(w*bi) == vo + (lo + hi*w)*bi == vo + carry*bi + (limb*m)*bi
                assert(vo + (lo as nat) * bi + (hi as nat) * (w * bi) == vo + ((lo as nat) + (
                hi as nat) * w) * bi) by (nonlinear_arith);
                assert((lo as nat) + (hi as nat) * w == (limb as nat) * (m as nat) + carry as nat);
                assert(vo + ((limb as nat) * (m as nat) + carry as nat) * bi == (vo + (
                carry as nat) * bi) + ((limb as nat) * bi) * (m as nat)) by (nonlinear_arith);
                assert((vt + (limb as nat) * bi) * (m as nat) == vt * (m as nat) + ((limb as nat)
                    * bi) * (m as nat)) by (nonlinear_arith);
            }
            out.push(lo);
            carry = hi;
            i += 1;
        }
        proof {
            assert(self.limbs@.take(n as int) =~= self.limbs@);
        }
        if carry > 0 {
            proof {
                lemma_value_push(out@, carry);
            }
            out.push(carry);
        }
        self.limbs = out;
    }

    /// Whether this number is strictly smaller than `other`.
    pub fn lt(&self, other: &BigNat) -> (r: bool)
        ensures
            r == (self.value() < other.value()),
    {
        let la = self.limbs.len();
        let lb = other.limbs.len();
        let n = if la < lb {
            lb
        } else {
            la
        };
        let ghost w: nat = 0x10000000000000000;
        let mut i: usize = n;
        while i > 0
            invariant
                i <= n,
                la == self.limbs@.len(),
                lb == other.limbs@.len(),
                la <= n,
                lb <= n,
                ext_tail(self.limbs@, i as int) == ext_tail(other.limbs@, i as int),
            decreases i,
        {
            let av: u64 = if i - 1 < la {
                self.limbs[i - 1]
            } else {
                0
            };
            let bv: u64 = if i - 1 < lb {
                other.limbs[i - 1]
            } else {
                0
            };
            proof {
                lemma_ext_tail_step(self.limbs@, i - 1);
                lemma_ext_tail_step(other.limbs@, i - 1);
            }
            if av != bv {
                proof {
                    let ta = ext_tail(self.limbs@, i - 1);
                    let tb = ext_tail(other.limbs@, i - 1);
                    if av < bv {
                        assert(ta < tb);
                        lemma_tail_decides(self.limbs@, other.limbs@, i - 1);
                    } else {
                        assert(tb < ta);
                        lemma_tail_decides(other.limbs@, self.limbs@, i - 1);
                    }
                }
                return av < bv;
            }
            i -= 1;
        }
        proof {
            assert(self.limbs@.skip(0) =~= self.limbs@);
            assert(other.limbs@.skip(0) =~= other.limbs@);
        }
        false
    }
}

/// The value of the limbs from position `i` on, reading past the end as
/// zeros.
pub closed spec fn ext_tail(s: Seq<u64>, i: int) -> nat {
    if i >= s.len() {
        0
    } else {
        limbs_value(s.skip(i))
    }
}

proof fn lemma_ext_tail_step(s: Seq<u64>, i: int)
    requires
        0 <= i,
    ensures
        ext_tail(s, i) == (if 0 <= i < s.len() {
            s[i] as nat
        } else {
            0
        }) + 0x10000000000000000 * ext_tail(s, i + 1),
{
    let w: nat = 0x10000000000000000;
    if i < s.len() {
        assert(s.skip(i).len() > 0);
        assert(s.skip(i)[0] == s[i]);
        assert(limbs_value(s.skip(i)) == s[i] as nat + w * limbs_value(s.skip(i).drop_first()));
        if i + 1 < s.len() {
            assert(s.skip(i).drop_first() =~= s.skip(i + 1));
            assert(ext_tail(s, i + 1) == limbs_value(s.skip(i + 1)));
        } else {
            assert(s.skip(i).drop_first() =~= Seq::<u64>::empty());
            assert(limbs_value(Seq::<u64>::empty()) == 0);
            assert(ext_tail(s, i + 1) == 0);
            assert(w * 0 == 0);
        }
    } else {
        assert(ext_tail(s, i) == 0);
        assert(ext_tail(s, i + 1) == 0);
        assert(w * 0 == 0);
    }
}

/// If the zero-extended tails from position `i + 1` agree but `a`'s tail from
/// `i` is smaller, then `a`'s whole value is smaller.
proof fn lemma_tail_decides(a: Seq<u64>, b: Seq<u64>, i: int)
    requires
        0 <= i,
        ext_tail(a, i) < ext_tail(b, i),
    ensures
        limbs_value(a) < limbs_value(b),
{
    let bi = base_pow(i);
    // b's tail is nonzero, so i is inside b.
    assert(i < b.len());
    if i >= a.len() {
        lemma_value_bound(a);
        lemma_base_pow_mono(a.len() as int, i);
        lemma_value_split(b, i);
        assert(limbs_value(b.skip(i)) >= 1);
        assert(bi * limbs_value(b.skip(i)) >= bi) by (nonlinear_arith)
            requires
                limbs_value(b.skip(i)) >= 1,
                bi >= 0,
        ;
        assert(limbs_value(a) < base_pow(a.len() as int));
        assert(limbs_value(a) < bi);
    } else {
        lemma_value_split(a, i);
        lemma_value_split(b, i);
        lemma_value_bound(a.take(i));
        assert(a.take(i).len() == i);
        let va = limbs_value(a.skip(i));
        let vb = limbs_value(b.skip(i));
        assert(va < vb);
        assert(limbs_value(a.take(i)) + bi * va < bi * vb) by (nonlinear_arith)
            requires
                limbs_value(a.take(i)) < bi,
                va < vb,
                bi >= 0,
        ;
    }
}

} // verus!
