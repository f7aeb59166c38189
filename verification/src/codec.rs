//! The Gödel-numbering codec: bijections between naturals and pairs of
//! naturals, between naturals and finite sequences of naturals, and between
//! naturals and machine instructions or whole programs.

use vstd::prelude::*;
use vstd::arithmetic::power2::*;
use vstd::arithmetic::div_mod::*;
use crate::natural::Natural;
use crate::machine::Instruction;

verus! {

/// The pairing function `<<x, y>> = 2^x * (2y + 1)`: a bijection from pairs
/// of naturals onto the positive naturals, by unique factorization into a
/// power of two times an odd number.
pub open spec fn pair1(x: nat, y: nat) -> nat {
    pow2(x) * (2 * y + 1)
}

/// The shifted pairing function `<x, y> = 2^x * (2y + 1) - 1`: a bijection
/// from pairs of naturals onto all naturals.
pub open spec fn pair2(x: nat, y: nat) -> nat {
    (pair1(x, y) - 1) as nat
}

/// A pair code is positive, and strictly larger than its second component.
pub proof fn lemma_pair1_bound(x: nat, y: nat)
    ensures
        pair1(x, y) >= 1,
        pair1(x, y) > y,
{
    lemma_pow2_pos(x);
    assert(pow2(x) * (2 * y + 1) >= 2 * y + 1) by (nonlinear_arith)
        requires
            pow2(x) >= 1,
    ;
}

/// Pairing bijectivity: `pair1` is injective, so two pairs with the same
/// code are the same pair. Together with the contracts of `encode_pair1`
/// and `decode_pair1` (and of `encode_pair2` / `decode_pair2`, through
/// `pair2`) this gives both round trips: decoding an encoded pair returns
/// the pair, and encoding a decoded positive natural returns the natural.
pub proof fn lemma_pair1_injective(x1: nat, y1: nat, x2: nat, y2: nat)
    requires
        pair1(x1, y1) == pair1(x2, y2),
    ensures
        x1 == x2,
        y1 == y2,
    decreases x1,
{
    assert(pow2(0) == 1) by {
        lemma2_to64();
    }
    if x1 == 0 && x2 == 0 {
        assert(pow2(x1) * (2 * y1 + 1) == 2 * y1 + 1) by (nonlinear_arith)
            requires
                pow2(x1) == 1,
        ;
        assert(pow2(x2) * (2 * y2 + 1) == 2 * y2 + 1) by (nonlinear_arith)
            requires
                pow2(x2) == 1,
        ;
    } else if x1 > 0 && x2 > 0 {
        lemma_pow2_unfold(x1);
        lemma_pow2_unfold(x2);
        assert((2 * pow2((x1 - 1) as nat)) * (2 * y1 + 1) == 2 * (pow2((x1 - 1) as nat) * (2 * y1
            + 1))) by (nonlinear_arith);
        assert((2 * pow2((x2 - 1) as nat)) * (2 * y2 + 1) == 2 * (pow2((x2 - 1) as nat) * (2 * y2
            + 1))) by (nonlinear_arith);
        lemma_pair1_injective((x1 - 1) as nat, y1, (x2 - 1) as nat, y2);
    } else if x1 > 0 {
        // an even number cannot equal the odd `2 * y2 + 1`
        lemma_pow2_unfold(x1);
        assert((2 * pow2((x1 - 1) as nat)) * (2 * y1 + 1) == 2 * (pow2((x1 - 1) as nat) * (2 * y1
            + 1))) by (nonlinear_arith);
        assert(pair1(x1, y1) == 2 * (pow2((x1 - 1) as nat) * (2 * y1 + 1)));
        assert(pow2(x2) * (2 * y2 + 1) == 2 * y2 + 1) by (nonlinear_arith)
            requires
                pow2(x2) == 1,
        ;
        assert(false);
    } else {
        lemma_pow2_unfold(x2);
        assert((2 * pow2((x2 - 1) as nat)) * (2 * y2 + 1) == 2 * (pow2((x2 - 1) as nat) * (2 * y2
            + 1))) by (nonlinear_arith);
        assert(pair1(x2, y2) == 2 * (pow2((x2 - 1) as nat) * (2 * y2 + 1)));
        assert(pow2(x1) * (2 * y1 + 1) == 2 * y1 + 1) by (nonlinear_arith)
            requires
                pow2(x1) == 1,
        ;
        assert(false);
    }
}

/// Encodes the pair `(x, y)` as `2^x * (2y + 1)`. The first component must
/// fit a `usize`, since the result takes `x` bits of memory.
pub fn encode_pair1(x: &Natural, y: &Natural) -> (r: Natural)
    requires
        x.wf(),
        y.wf(),
        x@ <= usize::MAX,
    ensures
        r.wf(),
        r@ == pair1(x@, y@),
{
    let sh = x.to_usize();
    let odd = y.double_plus_one();
    odd.shl(sh)
}

/// Encodes the pair `(x, y)` as `2^x * (2y + 1) - 1`.
pub fn encode_pair2(x: &Natural, y: &Natural) -> (r: Natural)
    requires
        x.wf(),
        y.wf(),
        x@ <= usize::MAX,
    ensures
        r.wf(),
        r@ == pair2(x@, y@),
{
    let a = encode_pair1(x, y);
    proof {
        lemma_pair1_bound(x@, y@);
    }
    a.pred()
}

/// Decodes a positive natural into the unique pair it encodes: the first
/// component is the 2-adic valuation, the second comes from the odd part.
pub fn decode_pair1(a: &Natural) -> (r: (Natural, Natural))
    requires
        a.wf(),
        a@ > 0,
    ensures
        r.0.wf(),
        r.1.wf(),
        pair1(r.0@, r.1@) == a@,
        r.0@ <= usize::MAX,
{
    let c = a.trailing_zeros();
    let z = a.shr(c);
    let y = z.half();
    let x = Natural::from_usize(c);
    proof {
        lemma_fundamental_div_mod(z@ as int, 2);
        assert(z@ == 2 * y@ + 1);
    }
    (x, y)
}

/// Decodes a natural into the unique pair whose shifted code it is.
pub fn decode_pair2(a: &Natural) -> (r: (Natural, Natural))
    requires
        a.wf(),
    ensures
        r.0.wf(),
        r.1.wf(),
        pair2(r.0@, r.1@) == a@,
        r.0@ <= usize::MAX,
{
    let b = a.succ();
    let r = decode_pair1(&b);
    proof {
        lemma_pair1_bound(r.0@, r.1@);
    }
    r
}

/// The Gödel number of a finite sequence of naturals: the empty sequence
/// maps to zero, and a head `h` before a tail `t` maps to `pair1(h, code
/// of t)`.
pub open spec fn godel_of(s: Seq<nat>) -> nat
    decreases s.len(),
{
    if s.len() == 0 {
        0
    } else {
        pair1(s[0], godel_of(s.drop_first()))
    }
}

/// The same fold with an arbitrary continuation in place of the empty
/// sequence's zero; it describes the partially decoded state of a list.
spec fn godel_of_with(s: Seq<nat>, t: nat) -> nat
    decreases s.len(),
{
    if s.len() == 0 {
        t
    } else {
        pair1(s[0], godel_of_with(s.drop_first(), t))
    }
}

/// The values of a sequence of `Natural`s.
pub open spec fn vals(s: Seq<Natural>) -> Seq<nat> {
    s.map_values(|n: Natural| n@)
}

/// Every element of the sequence is well formed.
pub open spec fn all_wf(s: Seq<Natural>) -> bool {
    forall|i: int| 0 <= i < s.len() ==> s[i].wf()
}

proof fn lemma_godel_of_with_zero(s: Seq<nat>)
    ensures
        godel_of_with(s, 0) == godel_of(s),
    decreases s.len(),
{
    if s.len() > 0 {
        lemma_godel_of_with_zero(s.drop_first());
    }
}

proof fn lemma_godel_of_with_push(s: Seq<nat>, v: nat, t: nat)
    ensures
        godel_of_with(s.push(v), t) == godel_of_with(s, pair1(v, t)),
    decreases s.len(),
{
    if s.len() == 0 {
        assert(s.push(v).drop_first() =~= s);
        assert(s.push(v)[0] == v);
        assert(godel_of_with(s, t) == t);
        assert(godel_of_with(s.push(v), t) == pair1(v, t));
    } else {
        assert(s.push(v).drop_first() =~= s.drop_first().push(v));
        lemma_godel_of_with_push(s.drop_first(), v, t);
        assert(s.push(v)[0] == s[0]);
        assert(godel_of_with(s.push(v), t) == pair1(
            s[0],
            godel_of_with(s.drop_first().push(v), t),
        ));
        assert(godel_of_with(s, pair1(v, t)) == pair1(
            s[0],
            godel_of_with(s.drop_first(), pair1(v, t)),
        ));
    }
}

/// List-encoding bijectivity: `godel_of` is injective, so two sequences
/// with the same Gödel number are the same sequence. Together with the
/// contracts of `encode_list_to_godel` and `decode_godel_to_list` this
/// gives both round trips: decoding an encoded list returns the list, and
/// encoding a decoded number returns the number.
pub proof fn lemma_godel_of_injective(s1: Seq<nat>, s2: Seq<nat>)
    requires
        godel_of(s1) == godel_of(s2),
    ensures
        s1 == s2,
    decreases s1.len(),
{
    if s1.len() == 0 && s2.len() == 0 {
        assert(s1 =~= s2);
    } else if s1.len() > 0 && s2.len() > 0 {
        lemma_pair1_injective(
            s1[0],
            godel_of(s1.drop_first()),
            s2[0],
            godel_of(s2.drop_first()),
        );
        lemma_godel_of_injective(s1.drop_first(), s2.drop_first());
        assert(s1.len() == s2.len());
        assert forall|i: int| 0 <= i < s1.len() implies s1[i] == s2[i] by {
            if i > 0 {
                assert(s1[i] == s1.drop_first()[i - 1]);
                assert(s2[i] == s2.drop_first()[i - 1]);
            }
        }
        assert(s1 =~= s2);
    } else if s1.len() > 0 {
        lemma_pair1_bound(s1[0], godel_of(s1.drop_first()));
        assert(false);
    } else {
        lemma_pair1_bound(s2[0], godel_of(s2.drop_first()));
        assert(false);
    }
}

/// Encodes a sequence of naturals into a single Gödel number by a right
/// fold of `pair1`. Every element must fit a `usize`, since each becomes
/// a shift distance.
pub fn encode_list_to_godel(l: &Vec<Natural>) -> (r: Natural)
    requires
        all_wf(l@),
        forall|i: int| 0 <= i < l@.len() ==> (#[trigger] l@[i])@ <= usize::MAX,
    ensures
        r.wf(),
        r@ == godel_of(vals(l@)),
{
    let mut acc = Natural::zero();
    let mut i: usize = l.len();
    while i > 0
        invariant
            i <= l@.len(),
            all_wf(l@),
            forall|k: int| 0 <= k < l@.len() ==> (#[trigger] l@[k])@ <= usize::MAX,
            acc.wf(),
            acc@ == godel_of(vals(l@).skip(i as int)),
        decreases i,
    {
        i = i - 1;
        acc = encode_pair1(&l[i], &acc);
        proof {
            assert(vals(l@).skip(i as int).drop_first() =~= vals(l@).skip(i as int + 1));
            assert(vals(l@).skip(i as int)[0] == l@[i as int]@);
        }
    }
    proof {
        assert(vals(l@).skip(0) =~= vals(l@));
    }
    acc
}

/// Decodes a Gödel number back into the sequence of naturals it encodes:
/// zero is the empty sequence, and each `pair1` layer yields one element.
pub fn decode_godel_to_list(g: &Natural) -> (r: Vec<Natural>)
    requires
        g.wf(),
    ensures
        all_wf(r@),
        godel_of(vals(r@)) == g@,
{
    let mut rest = g.duplicate();
    let mut out: Vec<Natural> = Vec::new();
    proof {
        assert(vals(out@) =~= Seq::<nat>::empty());
    }
    while !rest.is_zero()
        invariant
            rest.wf(),
            all_wf(out@),
            godel_of_with(vals(out@), rest@) == g@,
        decreases rest@,
    {
        let (x, tail) = decode_pair1(&rest);
        proof {
            lemma_pair1_bound(x@, tail@);
            lemma_godel_of_with_push(vals(out@), x@, tail@);
            assert(vals(out@.push(x)) =~= vals(out@).push(x@));
        }
        out.push(x);
        rest = tail;
    }
    proof {
        lemma_godel_of_with_zero(vals(out@));
    }
    out
}

/// The code of one instruction: `Halt` is zero; the others pair the
/// doubled register index — plus one for `Sub`, so that the parity of the
/// first component tells the two apart — with the jump targets.
pub open spec fn instr_code(i: Instruction) -> nat {
    match i {
        Instruction::Add(r, j) => pair1(2 * (r as nat), j as nat),
        Instruction::Sub(r, j, k) => pair1(2 * (r as nat) + 1, pair2(j as nat, k as nat)),
        Instruction::Halt => 0,
    }
}

/// Machine limit on encoding: the code takes about `2 r` bits of memory
/// for register index `r`, so the doubled index must fit a `usize`.
pub open spec fn instr_encodable(i: Instruction) -> bool {
    match i {
        Instruction::Add(r, _) => 2 * (r as nat) <= usize::MAX,
        Instruction::Sub(r, _, _) => 2 * (r as nat) + 1 <= usize::MAX,
        Instruction::Halt => true,
    }
}

/// A natural is the code of some instruction. Not every natural is: a
/// decoded register index must fit the register type, and decoded labels
/// must fit the label type.
pub open spec fn instr_decodable(g: nat) -> bool {
    exists|i: Instruction| instr_code(i) == g
}

/// Instruction-encoding bijectivity: `instr_code` is injective, so two
/// instructions with the same code are the same instruction. Since
/// `instr_code(Instruction::Halt) == 0` by definition, `Halt` is in
/// particular the only instruction that encodes to zero. Together with
/// the contracts of `encode_instruction` and `decode_instruction` this
/// gives both round trips.
pub proof fn lemma_instr_code_injective(i1: Instruction, i2: Instruction)
    requires
        instr_code(i1) == instr_code(i2),
    ensures
        i1 == i2,
{
    match (i1, i2) {
        (Instruction::Halt, Instruction::Halt) => {},
        (Instruction::Add(r1, j1), Instruction::Add(r2, j2)) => {
            lemma_pair1_injective(2 * (r1 as nat), j1 as nat, 2 * (r2 as nat), j2 as nat);
        },
        (Instruction::Sub(r1, j1, k1), Instruction::Sub(r2, j2, k2)) => {
            lemma_pair1_injective(
                2 * (r1 as nat) + 1,
                pair2(j1 as nat, k1 as nat),
                2 * (r2 as nat) + 1,
                pair2(j2 as nat, k2 as nat),
            );
            lemma_pair1_bound(j1 as nat, k1 as nat);
            lemma_pair1_bound(j2 as nat, k2 as nat);
            lemma_pair1_injective(j1 as nat, k1 as nat, j2 as nat, k2 as nat);
        },
        (Instruction::Add(r1, j1), Instruction::Sub(r2, j2, k2)) => {
            // an even first component cannot equal an odd one
            lemma_pair1_injective(
                2 * (r1 as nat),
                j1 as nat,
                2 * (r2 as nat) + 1,
                pair2(j2 as nat, k2 as nat),
            );
            assert(false);
        },
        (Instruction::Sub(r1, j1, k1), Instruction::Add(r2, j2)) => {
            lemma_pair1_injective(
                2 * (r1 as nat) + 1,
                pair2(j1 as nat, k1 as nat),
                2 * (r2 as nat),
                j2 as nat,
            );
            assert(false);
        },
        (Instruction::Halt, Instruction::Add(r2, j2)) => {
            lemma_pair1_bound(2 * (r2 as nat), j2 as nat);
            assert(false);
        },
        (Instruction::Halt, Instruction::Sub(r2, j2, k2)) => {
            lemma_pair1_bound(2 * (r2 as nat) + 1, pair2(j2 as nat, k2 as nat));
            assert(false);
        },
        (Instruction::Add(r1, j1), Instruction::Halt) => {
            lemma_pair1_bound(2 * (r1 as nat), j1 as nat);
            assert(false);
        },
        (Instruction::Sub(r1, j1, k1), Instruction::Halt) => {
            lemma_pair1_bound(2 * (r1 as nat) + 1, pair2(j1 as nat, k1 as nat));
            assert(false);
        },
    }
}

impl Instruction {
    /// Encodes this instruction as its Gödel number.
    pub fn encode_instruction(&self) -> (r: Natural)
        requires
            instr_encodable(*self),
        ensures
            r.wf(),
            r@ == instr_code(*self),
    {
        match self {
            Instruction::Halt => Natural::zero(),
            Instruction::Add(i, j) => {
                let x = Natural::from_u128(*i).double();
                let y = Natural::from_usize(*j);
                encode_pair1(&x, &y)
            },
            Instruction::Sub(i, j, k) => {
                let x = Natural::from_u128(*i).double_plus_one();
                let jn = Natural::from_usize(*j);
                let kn = Natural::from_usize(*k);
                let y = encode_pair2(&jn, &kn);
                encode_pair1(&x, &y)
            },
        }
    }
}

/// Decodes a natural back into the unique instruction it encodes.
pub fn decode_instruction(n: &Natural) -> (r: Instruction)
    requires
        n.wf(),
        instr_decodable(n@),
    ensures
        instr_code(r) == n@,
{
    if n.is_zero() {
        return Instruction::Halt;
    }
    proof {
        let w = choose|i: Instruction| instr_code(i) == n@;
        if w is Halt {
            assert(false);
        }
    }
    let (x, y) = decode_pair1(n);
    let reg = x.half();
    proof {
        lemma_fundamental_div_mod(x@ as int, 2);
    }
    if x.is_odd() {
        let (j, k) = decode_pair2(&y);
        proof {
            let w = choose|i: Instruction| instr_code(i) == n@;
            match w {
                Instruction::Halt => {
                    assert(false);
                },
                Instruction::Add(rw, jw) => {
                    lemma_pair1_injective(x@, y@, 2 * (rw as nat), jw as nat);
                    assert(false);
                },
                Instruction::Sub(rw, jw, kw) => {
                    lemma_pair1_injective(
                        x@,
                        y@,
                        2 * (rw as nat) + 1,
                        pair2(jw as nat, kw as nat),
                    );
                    lemma_pair1_bound(jw as nat, kw as nat);
                    lemma_pair1_bound(j@, k@);
                    lemma_pair1_injective(j@, k@, jw as nat, kw as nat);
                    assert(reg@ <= u128::MAX && j@ <= usize::MAX && k@ <= usize::MAX);
                },
            }
            assert(pair1(2 * reg@ + 1, pair2(j@, k@)) == n@);
        }
        Instruction::Sub(reg.to_u128(), j.to_usize(), k.to_usize())
    } else {
        proof {
            let w = choose|i: Instruction| instr_code(i) == n@;
            match w {
                Instruction::Halt => {
                    assert(false);
                },
                Instruction::Sub(rw, jw, kw) => {
                    lemma_pair1_injective(
                        x@,
                        y@,
                        2 * (rw as nat) + 1,
                        pair2(jw as nat, kw as nat),
                    );
                    assert(false);
                },
                Instruction::Add(rw, jw) => {
                    lemma_pair1_injective(x@, y@, 2 * (rw as nat), jw as nat);
                    assert(reg@ <= u128::MAX && y@ <= usize::MAX);
                },
            }
            assert(pair1(2 * reg@, y@) == n@);
        }
        Instruction::Add(reg.to_u128(), y.to_usize())
    }
}

/// The codes of a program's instructions, in program order.
pub open spec fn program_codes(p: Seq<Instruction>) -> Seq<nat> {
    p.map_values(|i: Instruction| instr_code(i))
}

/// Every instruction of the program can be encoded (see `instr_encodable`).
pub open spec fn program_encodable(p: Seq<Instruction>) -> bool {
    forall|i: int| 0 <= i < p.len() ==> instr_encodable(#[trigger] p[i])
}

/// Every element of the sequence is the code of some instruction.
pub open spec fn list_decodable(s: Seq<nat>) -> bool {
    forall|i: int| 0 <= i < s.len() ==> instr_decodable(#[trigger] s[i])
}

/// Program-encoding bijectivity: equal code sequences come from equal
/// programs. Together with the contracts of `encode_program_to_list` and
/// `decode_list_to_program` this gives the program round trip.
pub proof fn lemma_program_codes_injective(p1: Seq<Instruction>, p2: Seq<Instruction>)
    requires
        program_codes(p1) == program_codes(p2),
    ensures
        p1 == p2,
{
    assert(program_codes(p1).len() == p1.len());
    assert(program_codes(p2).len() == p2.len());
    assert forall|i: int| 0 <= i < p1.len() implies p1[i] == p2[i] by {
        assert(program_codes(p1)[i] == instr_code(p1[i]));
        assert(program_codes(p2)[i] == instr_code(p2[i]));
        lemma_instr_code_injective(p1[i], p2[i]);
    }
    assert(p1 =~= p2);
}

/// Encodes a program instruction by instruction, preserving order and
/// length.
pub fn encode_program_to_list(program: &Vec<Instruction>) -> (r: Vec<Natural>)
    requires
        program_encodable(program@),
    ensures
        all_wf(r@),
        vals(r@) == program_codes(program@),
{
    let mut r: Vec<Natural> = Vec::new();
    let mut i: usize = 0;
    proof {
        assert(vals(r@) =~= program_codes(program@).take(0));
    }
    while i < program.len()
        invariant
            i <= program@.len(),
            program_encodable(program@),
            all_wf(r@),
            vals(r@) == program_codes(program@).take(i as int),
        decreases program@.len() - i,
    {
        let g = program[i].encode_instruction();
        let ghost old_r = r@;
        r.push(g);
        i = i + 1;
        proof {
            assert(vals(r@) =~= vals(old_r).push(g@));
            assert(vals(r@) =~= program_codes(program@).take(i as int));
        }
    }
    proof {
        assert(program_codes(program@).take(program@.len() as int) =~= program_codes(program@));
    }
    r
}

/// Decodes a sequence of naturals element-wise into the program they
/// encode, preserving order and length.
pub fn decode_list_to_program(program: &Vec<Natural>) -> (r: Vec<Instruction>)
    requires
        all_wf(program@),
        list_decodable(vals(program@)),
    ensures
        program_codes(r@) == vals(program@),
{
    let mut r: Vec<Instruction> = Vec::new();
    let mut i: usize = 0;
    proof {
        assert(program_codes(r@) =~= vals(program@).take(0));
    }
    while i < program.len()
        invariant
            i <= program@.len(),
            all_wf(program@),
            list_decodable(vals(program@)),
            program_codes(r@) == vals(program@).take(i as int),
        decreases program@.len() - i,
    {
        proof {
            assert(vals(program@)[i as int] == program@[i as int]@);
        }
        let ins = decode_instruction(&program[i]);
        let ghost old_r = r@;
        r.push(ins);
        i = i + 1;
        proof {
            assert(program_codes(r@) =~= program_codes(old_r).push(instr_code(ins)));
            assert(program_codes(r@) =~= vals(program@).take(i as int));
        }
    }
    proof {
        assert(vals(program@).take(program@.len() as int) =~= vals(program@));
    }
    r
}

} // verus!

