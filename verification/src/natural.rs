//! Arbitrary-precision natural numbers, represented as little-endian bit
//! vectors with no trailing zero bit, so that every natural has exactly one
//! representation. The rest of the crate sees a `Natural` only through its
//! view `n@: nat` and the contracts below.

use vstd::prelude::*;
use vstd::arithmetic::power2::*;
use vstd::arithmetic::div_mod::*;

verus! {

/// The natural number denoted by a little-endian bit sequence:
/// `s[0]` is the least significant bit.
spec fn from_bits(s: Seq<bool>) -> nat
    decreases s.len(),
{
    if s.len() == 0 {
        0
    } else {
        (if s[0] { 1nat } else { 0nat }) + 2 * from_bits(s.drop_first())
    }
}

/// A bit sequence is canonical when it has no trailing (most significant)
/// zero bit; zero is the empty sequence.
spec fn canonical(s: Seq<bool>) -> bool {
    s.len() == 0 || s[s.len() - 1]
}

proof fn lemma_from_bits_bound(s: Seq<bool>)
    ensures
        from_bits(s) < pow2(s.len()),
    decreases s.len(),
{
    if s.len() == 0 {
        assert(pow2(0) == 1) by { lemma2_to64(); }
    } else {
        lemma_from_bits_bound(s.drop_first());
        lemma_pow2_unfold(s.len());
    }
}

proof fn lemma_canonical_low(s: Seq<bool>)
    requires
        canonical(s),
        s.len() > 0,
    ensures
        from_bits(s) >= pow2((s.len() - 1) as nat),
    decreases s.len(),
{
    if s.len() == 1 {
        assert(pow2(0) == 1) by { lemma2_to64(); }
    } else {
        let t = s.drop_first();
        assert(t[t.len() - 1] == s[s.len() - 1]);
        lemma_canonical_low(t);
        lemma_pow2_unfold((s.len() - 1) as nat);
    }
}

proof fn lemma_canonical_zero(s: Seq<bool>)
    requires
        canonical(s),
    ensures
        (from_bits(s) == 0) <==> (s.len() == 0),
{
    if s.len() > 0 {
        lemma_canonical_low(s);
        lemma_pow2_pos((s.len() - 1) as nat);
    }
}

proof fn lemma_from_bits_all_false(s: Seq<bool>)
    requires
        forall|i: int| 0 <= i < s.len() ==> !s[i],
    ensures
        from_bits(s) == 0,
    decreases s.len(),
{
    if s.len() > 0 {
        lemma_from_bits_all_false(s.drop_first());
    }
}

proof fn lemma_from_bits_all_true(s: Seq<bool>)
    requires
        forall|i: int| 0 <= i < s.len() ==> s[i],
    ensures
        from_bits(s) == pow2(s.len()) - 1,
    decreases s.len(),
{
    if s.len() == 0 {
        assert(pow2(0) == 1) by { lemma2_to64(); }
    } else {
        lemma_from_bits_all_true(s.drop_first());
        lemma_pow2_unfold(s.len());
    }
}

/// The value of a bit sequence splits at any position `k` into the low
/// `k` bits plus `2^k` times the value of the remaining bits.
proof fn lemma_from_bits_split(s: Seq<bool>, k: int)
    requires
        0 <= k <= s.len(),
    ensures
        from_bits(s) == from_bits(s.take(k)) + pow2(k as nat) * from_bits(s.skip(k)),
    decreases k,
{
    if k == 0 {
        assert(s.take(0) =~= Seq::<bool>::empty());
        assert(s.skip(0) =~= s);
        assert(pow2(0) == 1) by { lemma2_to64(); }
    } else {
        let t = s.drop_first();
        lemma_from_bits_split(t, k - 1);
        assert(s.take(k).drop_first() =~= t.take(k - 1));
        assert(s.skip(k) =~= t.skip(k - 1));
        assert(s.take(k)[0] == s[0]);
        lemma_pow2_unfold(k as nat);
        assert(2 * (pow2((k - 1) as nat) * from_bits(t.skip(k - 1))) == (2 * pow2(
            (k - 1) as nat,
        )) * from_bits(t.skip(k - 1))) by (nonlinear_arith);
    }
}

proof fn lemma_from_bits_push(s: Seq<bool>, b: bool)
    ensures
        from_bits(s.push(b)) == from_bits(s) + pow2(s.len()) * (if b {
            1nat
        } else {
            0nat
        }),
{
    lemma_from_bits_split(s.push(b), s.len() as int);
    assert(s.push(b).take(s.len() as int) =~= s);
    let tail = s.push(b).skip(s.len() as int);
    assert(tail.len() == 1 && tail[0] == b);
    assert(from_bits(tail.drop_first()) == 0);
    assert(from_bits(tail) == (if b {
        1nat
    } else {
        0nat
    }));
}

/// An arbitrary-precision natural number. The representation is canonical,
/// so two values are equal exactly when their bit vectors are.
#[derive(Clone, Debug, PartialEq, Eq)]
pub struct Natural {
    bits: Vec<bool>,
}

impl View for Natural {
    type V = nat;

    closed spec fn view(&self) -> nat {
        from_bits(self.bits@)
    }
}

impl Natural {
    /// The representation invariant: the stored bits are canonical.
    pub closed spec fn wf(&self) -> bool {
        canonical(self.bits@)
    }

    /// The number zero.
    pub fn zero() -> (r: Natural)
        ensures
            r.wf(),
            r@ == 0,
    {
        Natural { bits: Vec::new() }
    }

    /// Builds the natural with the given machine-word value, bit by bit.
    pub fn from_u128(v: u128) -> (r: Natural)
        ensures
            r.wf(),
            r@ == v as nat,
    {
        let mut bits: Vec<bool> = Vec::new();
        let mut rest: u128 = v;
        proof {
            lemma2_to64();
            assert(bits@.len() == 0);
            assert(from_bits(bits@) == 0);
            assert(pow2(0) == 1);
        }
        while rest != 0
            invariant
                from_bits(bits@) + pow2(bits@.len()) * (rest as nat) == v as nat,
                rest == 0 ==> canonical(bits@),
            decreases rest,
        {
            let b: bool = rest % 2 == 1;
            let ghost old_bits = bits@;
            let ghost old_rest = rest as nat;
            bits.push(b);
            rest = rest / 2;
            proof {
                lemma_from_bits_push(old_bits, b);
                lemma_pow2_unfold(old_bits.len() + 1);
                let bb: nat = if b {
                    1nat
                } else {
                    0nat
                };
                assert(old_rest == bb + 2 * (rest as nat));
                assert(pow2(old_bits.len()) * old_rest == pow2(old_bits.len()) * bb + (2 * pow2(
                    old_bits.len(),
                )) * (rest as nat)) by (nonlinear_arith)
                    requires
                        old_rest == bb + 2 * (rest as nat),
                ;
            }
        }
        Natural { bits }
    }

    pub fn from_usize(v: usize) -> (r: Natural)
        ensures
            r.wf(),
            r@ == v as nat,
    {
        Natural::from_u128(v as u128)
    }

    /// Converts back to a machine word; the value must fit.
    pub fn to_u128(&self) -> (r: u128)
        requires
            self.wf(),
            self@ <= u128::MAX,
        ensures
            r as nat == self@,
    {
        let s = Ghost(self.bits@);
        let n = self.bits.len();
        let mut r: u128 = 0;
        let mut i: usize = n;
        while i > 0
            invariant
                i <= n == s@.len(),
                s@ == self.bits@,
                from_bits(s@) <= u128::MAX,
                r as nat == from_bits(s@.skip(i as int)),
            decreases i,
        {
            i = i - 1;
            let b = self.bits[i];
            proof {
                assert(s@.skip(i as int).drop_first() =~= s@.skip(i as int + 1));
                assert(from_bits(s@.skip(i as int)) == (if b {
                    1nat
                } else {
                    0nat
                }) + 2 * from_bits(s@.skip(i as int + 1)));
                lemma_from_bits_split(s@, i as int);
                lemma_pow2_pos(i as nat);
                assert(pow2(i as nat) * from_bits(s@.skip(i as int)) >= from_bits(
                    s@.skip(i as int),
                )) by (nonlinear_arith)
                    requires
                        pow2(i as nat) >= 1,
                ;
            }
            r = 2 * r + (if b {
                1
            } else {
                0
            });
        }
        proof {
            assert(s@.skip(0) =~= s@);
        }
        r
    }

    /// Converts to a `usize` index; the value must fit.
    pub fn to_usize(&self) -> (r: usize)
        requires
            self.wf(),
            self@ <= usize::MAX,
        ensures
            r as nat == self@,
    {
        let v = self.to_u128();
        v as usize
    }

    /// An owned copy with the same value.
    pub fn duplicate(&self) -> (r: Natural)
        requires
            self.wf(),
        ensures
            r.wf(),
            r@ == self@,
    {
        let bits = suffix_bits(&self.bits, 0);
        proof {
            assert(self.bits@.skip(0) =~= self.bits@);
        }
        Natural { bits }
    }

    pub fn is_zero(&self) -> (r: bool)
        requires
            self.wf(),
        ensures
            r <==> self@ == 0,
    {
        proof {
            lemma_canonical_zero(self.bits@);
        }
        self.bits.len() == 0
    }

    pub fn is_odd(&self) -> (r: bool)
        requires
            self.wf(),
        ensures
            r <==> self@ % 2 == 1,
    {
        if self.bits.len() == 0 {
            false
        } else {
            self.bits[0]
        }
    }

    /// The floor of half the value: discards the least significant bit.
    pub fn half(&self) -> (r: Natural)
        requires
            self.wf(),
        ensures
            r.wf(),
            r@ == self@ / 2,
    {
        if self.bits.len() == 0 {
            Natural::zero()
        } else {
            let bits = suffix_bits(&self.bits, 1);
            proof {
                assert(self.bits@.skip(1) =~= self.bits@.drop_first());
                assert(bits@.len() > 0 ==> bits@[bits@.len() - 1] == self.bits@[self.bits@.len()
                    - 1]);
            }
            Natural { bits }
        }
    }

    /// Twice the value: prepends a zero bit (unless the value is zero).
    pub fn double(&self) -> (r: Natural)
        requires
            self.wf(),
        ensures
            r.wf(),
            r@ == 2 * self@,
    {
        if self.bits.len() == 0 {
            Natural::zero()
        } else {
            let mut bits: Vec<bool> = Vec::new();
            bits.push(false);
            copy_append(&mut bits, &self.bits);
            proof {
                assert(bits@.drop_first() =~= self.bits@);
                assert(bits@[bits@.len() - 1] == self.bits@[self.bits@.len() - 1]);
            }
            Natural { bits }
        }
    }

    /// Twice the value plus one: prepends a one bit.
    pub fn double_plus_one(&self) -> (r: Natural)
        requires
            self.wf(),
        ensures
            r.wf(),
            r@ == 2 * self@ + 1,
    {
        let mut bits: Vec<bool> = Vec::new();
        bits.push(true);
        copy_append(&mut bits, &self.bits);
        proof {
            assert(bits@.drop_first() =~= self.bits@);
            if self.bits@.len() > 0 {
                assert(bits@[bits@.len() - 1] == self.bits@[self.bits@.len() - 1]);
            }
        }
        Natural { bits }
    }
    /// The value plus one: flips the low run of one bits and the first zero
    /// bit after it.
    pub fn succ(&self) -> (r: Natural)
        requires
            self.wf(),
        ensures
            r.wf(),
            r@ == self@ + 1,
    {
        let s = Ghost(self.bits@);
        let n = self.bits.len();
        let mut x: usize = 0;
        while x < n && self.bits[x]
            invariant
                x <= n == s@.len(),
                s@ == self.bits@,
                forall|i: int| 0 <= i < x ==> s@[i],
            decreases n - x,
        {
            x = x + 1;
        }
        let mut bits: Vec<bool> = Vec::new();
        let mut j: usize = 0;
        while j < x
            invariant
                j <= x,
                bits@.len() == j,
                forall|i: int| 0 <= i < j ==> !bits@[i],
            decreases x - j,
        {
            bits.push(false);
            j = j + 1;
        }
        bits.push(true);
        let ghost p = pow2(x as nat);
        if x == n {
            proof {
                lemma_from_bits_all_true(s@);
                lemma_from_bits_split(bits@, x as int);
                lemma_from_bits_all_false(bits@.take(x as int));
                assert(bits@.skip(x as int).len() == 1 && bits@.skip(x as int)[0]);
                assert(from_bits(bits@.skip(x as int).drop_first()) == 0);
                assert(from_bits(bits@.skip(x as int)) == 1);
                assert(from_bits(bits@) == p * 1);
            }
            Natural { bits }
        } else {
            let tail = suffix_bits(&self.bits, x + 1);
            copy_append(&mut bits, &tail);
            proof {
                let ghost rest = s@.skip(x as int + 1);
                let ghost rr = from_bits(rest);
                // the input splits as x one bits, a zero bit, then `rest`
                lemma_from_bits_split(s@, x as int);
                lemma_from_bits_all_true(s@.take(x as int));
                assert(s@.skip(x as int).drop_first() =~= rest);
                assert(!s@.skip(x as int)[0]);
                assert(from_bits(s@.skip(x as int)) == 2 * rr);
                // the result splits as x zero bits, a one bit, then `rest`
                lemma_from_bits_split(bits@, x as int);
                lemma_from_bits_all_false(bits@.take(x as int));
                assert(bits@.skip(x as int).drop_first() =~= rest);
                assert(bits@.skip(x as int)[0]);
                assert(from_bits(bits@.skip(x as int)) == 1 + 2 * rr);
                assert(p * (1 + 2 * rr) == p * 1 + p * (2 * rr)) by (nonlinear_arith);
                // the result stays canonical
                if x + 1 < n {
                    assert(bits@[bits@.len() - 1] == s@[n - 1]);
                }
            }
            Natural { bits }
        }
    }

    /// The value minus one: flips the low run of zero bits and the first one
    /// bit after it.
    pub fn pred(&self) -> (r: Natural)
        requires
            self.wf(),
            self@ > 0,
        ensures
            r.wf(),
            r@ + 1 == self@,
    {
        proof {
            lemma_canonical_zero(self.bits@);
        }
        let s = Ghost(self.bits@);
        let n = self.bits.len();
        let x = self.first_one_index();
        let mut bits: Vec<bool> = Vec::new();
        let mut j: usize = 0;
        while j < x
            invariant
                j <= x,
                bits@.len() == j,
                forall|i: int| 0 <= i < j ==> bits@[i],
            decreases x - j,
        {
            bits.push(true);
            j = j + 1;
        }
        let ghost p = pow2(x as nat);
        proof {
            lemma_from_bits_split(s@, x as int);
            lemma_from_bits_all_false(s@.take(x as int));
        }
        if x + 1 == n {
            proof {
                assert(s@.skip(x as int).len() == 1 && s@.skip(x as int)[0]);
                assert(from_bits(s@.skip(x as int).drop_first()) == 0);
                assert(from_bits(s@.skip(x as int)) == 1);
                assert(from_bits(s@) == p * 1);
                lemma_from_bits_all_true(bits@);
            }
            Natural { bits }
        } else {
            bits.push(false);
            let tail = suffix_bits(&self.bits, x + 1);
            copy_append(&mut bits, &tail);
            proof {
                let ghost rest = s@.skip(x as int + 1);
                let ghost rr = from_bits(rest);
                // the input splits as x zero bits, a one bit, then `rest`
                assert(s@.skip(x as int).drop_first() =~= rest);
                assert(s@.skip(x as int)[0]);
                assert(from_bits(s@.skip(x as int)) == 1 + 2 * rr);
                // the result splits as x one bits, a zero bit, then `rest`
                lemma_from_bits_split(bits@, x as int);
                lemma_from_bits_all_true(bits@.take(x as int));
                assert(bits@.skip(x as int).drop_first() =~= rest);
                assert(!bits@.skip(x as int)[0]);
                assert(from_bits(bits@.skip(x as int)) == 2 * rr);
                assert(p * (1 + 2 * rr) == p * 1 + p * (2 * rr)) by (nonlinear_arith);
                // the result stays canonical: `rest` is nonempty and keeps
                // the top bit of the input
                assert(bits@[bits@.len() - 1] == s@[n - 1]);
            }
            Natural { bits }
        }
    }

    /// The value times `2^k`: prepends `k` zero bits.
    pub fn shl(&self, k: usize) -> (r: Natural)
        requires
            self.wf(),
        ensures
            r.wf(),
            r@ == pow2(k as nat) * self@,
    {
        if self.bits.len() == 0 {
            proof {
                assert(pow2(k as nat) * 0 == 0) by (nonlinear_arith);
            }
            Natural::zero()
        } else {
            let mut bits: Vec<bool> = Vec::new();
            let mut j: usize = 0;
            while j < k
                invariant
                    j <= k,
                    bits@.len() == j,
                    forall|i: int| 0 <= i < j ==> !bits@[i],
                decreases k - j,
            {
                bits.push(false);
                j = j + 1;
            }
            copy_append(&mut bits, &self.bits);
            proof {
                lemma_from_bits_split(bits@, k as int);
                lemma_from_bits_all_false(bits@.take(k as int));
                assert(bits@.skip(k as int) =~= self.bits@);
                assert(bits@[bits@.len() - 1] == self.bits@[self.bits@.len() - 1]);
            }
            Natural { bits }
        }
    }

    /// The value divided by `2^k`, rounding down: drops the low `k` bits.
    pub fn shr(&self, k: usize) -> (r: Natural)
        requires
            self.wf(),
        ensures
            r.wf(),
            r@ == self@ / pow2(k as nat),
    {
        proof {
            lemma_pow2_pos(k as nat);
        }
        if k >= self.bits.len() {
            proof {
                lemma_from_bits_bound(self.bits@);
                if self.bits@.len() < k as nat {
                    lemma_pow2_strictly_increases(self.bits@.len(), k as nat);
                }
                lemma_basic_div(self@ as int, pow2(k as nat) as int);
            }
            Natural::zero()
        } else {
            let bits = suffix_bits(&self.bits, k);
            proof {
                lemma_from_bits_split(self.bits@, k as int);
                lemma_from_bits_bound(self.bits@.take(k as int));
                assert(pow2(k as nat) * from_bits(bits@) == from_bits(bits@) * pow2(k as nat))
                    by (nonlinear_arith);
                lemma_fundamental_div_mod_converse(
                    self@ as int,
                    pow2(k as nat) as int,
                    from_bits(bits@) as int,
                    from_bits(self.bits@.take(k as int)) as int,
                );
                assert(bits@.len() > 0 ==> bits@[bits@.len() - 1] == self.bits@[self.bits@.len()
                    - 1]);
            }
            Natural { bits }
        }
    }

    /// The 2-adic valuation of a positive value: the count of its trailing
    /// zero bits. The quotient of the value by `2^c` is its odd part.
    pub fn trailing_zeros(&self) -> (c: usize)
        requires
            self.wf(),
            self@ > 0,
        ensures
            pow2(c as nat) * (self@ / pow2(c as nat)) == self@,
            (self@ / pow2(c as nat)) % 2 == 1,
    {
        proof {
            lemma_canonical_zero(self.bits@);
        }
        let x = self.first_one_index();
        proof {
            let ghost m = from_bits(self.bits@.skip(x as int));
            lemma_from_bits_split(self.bits@, x as int);
            lemma_from_bits_all_false(self.bits@.take(x as int));
            lemma_pow2_pos(x as nat);
            lemma_div_multiples_vanish(m as int, pow2(x as nat) as int);
            assert(self.bits@.skip(x as int)[0]);
            assert(m == 1 + 2 * from_bits(self.bits@.skip(x as int).drop_first()));
        }
        x
    }

    /// The position of the lowest one bit; the value must be nonzero.
    fn first_one_index(&self) -> (x: usize)
        requires
            self.wf(),
            self.bits@.len() > 0,
        ensures
            x < self.bits@.len(),
            self.bits@[x as int],
            forall|i: int| 0 <= i < x ==> !self.bits@[i],
    {
        let n = self.bits.len();
        let mut x: usize = 0;
        while !self.bits[x]
            invariant
                self.wf(),
                n == self.bits@.len(),
                x < n,
                forall|i: int| 0 <= i < x ==> !self.bits@[i],
            decreases n - x,
        {
            proof {
                assert(self.bits@[n - 1]);
            }
            x = x + 1;
        }
        x
    }
}

/// Copies the bits of `src` from position `start` on into a fresh vector.
fn suffix_bits(v: &Vec<bool>, start: usize) -> (r: Vec<bool>)
    requires
        start <= v.len(),
    ensures
        r@ == v@.skip(start as int),
{
    let mut r: Vec<bool> = Vec::new();
    let mut j: usize = start;
    while j < v.len()
        invariant
            start <= j <= v.len(),
            r@ == v@.subrange(start as int, j as int),
        decreases v.len() - j,
    {
        let ghost old_r = r@;
        r.push(v[j]);
        j = j + 1;
        proof {
            assert(r@ =~= v@.subrange(start as int, j as int));
        }
    }
    proof {
        assert(r@ =~= v@.skip(start as int));
    }
    r
}

/// Appends all bits of `src` to `dst`.
fn copy_append(dst: &mut Vec<bool>, src: &Vec<bool>)
    ensures
        final(dst)@ == old(dst)@ + src@,
{
    let mut j: usize = 0;
    while j < src.len()
        invariant
            j <= src.len(),
            dst@ == old(dst)@ + src@.subrange(0, j as int),
        decreases src.len() - j,
    {
        dst.push(src[j]);
        j = j + 1;
        proof {
            assert(dst@ =~= old(dst)@ + src@.subrange(0, j as int));
        }
    }
    proof {
        assert(old(dst)@ + src@.subrange(0, src@.len() as int) =~= old(dst)@ + src@);
    }
}

} // verus!
