//! Classical bit registers: fixed-width bit vectors with an exact
//! bit-string/integer codec.

use vstd::prelude::*;
use vstd::arithmetic::power2::{pow2, lemma_pow2_unfold, lemma_pow2_pos};
use vstd::arithmetic::div_mod::{lemma_fundamental_div_mod, lemma_div_denominator};
use crate::amplitude::Amplitude;
use crate::state::State;

verus! {

/// The value of a bit sequence read as a big-endian binary integer
/// (first element is the most significant bit; any nonzero element counts
/// as a one, as in the executable code).
pub open spec fn spec_value(bits: Seq<usize>) -> nat
    decreases bits.len(),
{
    if bits.len() == 0 {
        0
    } else {
        2 * spec_value(bits.drop_last()) + (if bits.last() == 0 { 0nat } else { 1nat })
    }
}

/// The `width`-bit big-endian binary expansion of `v`; bits above the width
/// are silently dropped, so the encoded value is `v % pow2(width)`.
pub open spec fn spec_from_value(width: nat, v: nat) -> Seq<usize>
    decreases width,
{
    if width == 0 {
        Seq::empty()
    } else {
        spec_from_value((width - 1) as nat, v / 2).push((v % 2) as usize)
    }
}

/// A fixed-width classical register: an ordered sequence of bits,
/// most-significant bit first.
#[derive(Debug)]
pub struct ClassicalRegister {
    bits: Vec<usize>,
}

impl View for ClassicalRegister {
    type V = Seq<usize>;

    closed spec fn view(&self) -> Seq<usize> {
        self.bits@
    }
}

impl Clone for ClassicalRegister {
    fn clone(&self) -> (r: ClassicalRegister)
        ensures
            r@ == self@,
    {
        ClassicalRegister { bits: clone_bit_vec(&self.bits) }
    }
}

/// Clones a vector of machine words element by element.
fn clone_bit_vec(bits: &Vec<usize>) -> (r: Vec<usize>)
    ensures
        r@ == bits@,
{
    let mut out: Vec<usize> = Vec::new();
    let mut i: usize = 0;
    while i < bits.len()
        invariant
            i <= bits@.len(),
            out@ == bits@.take(i as int),
        decreases bits@.len() - i,
    {
        out.push(bits[i]);
        i = i + 1;
        proof {
            assert(out@ =~= bits@.take(i as int));
        }
    }
    proof {
        assert(out@ =~= bits@.take(bits@.len() as int));
        assert(bits@.take(bits@.len() as int) =~= bits@);
    }
    out
}

impl PartialEq for ClassicalRegister {
    fn eq(&self, other: &ClassicalRegister) -> (r: bool) {
        if self.bits.len() != other.bits.len() {
            return false;
        }
        let mut i: usize = 0;
        while i < self.bits.len()
            invariant
                self.bits@.len() == other.bits@.len(),
                i <= self.bits@.len(),
                forall|j: int| 0 <= j < i ==> self.bits@[j] == other.bits@[j],
            decreases self.bits@.len() - i,
        {
            if self.bits[i] != other.bits[i] {
                return false;
            }
            i = i + 1;
        }
        proof {
            assert(self.bits@ =~= other.bits@);
        }
        true
    }
}

impl vstd::std_specs::cmp::PartialEqSpecImpl for ClassicalRegister {
    open spec fn obeys_eq_spec() -> bool {
        true
    }

    open spec fn eq_spec(&self, other: &ClassicalRegister) -> bool {
        self@ == other@
    }
}

impl ClassicalRegister {
    /// Every stored element is 0 or 1.
    pub open spec fn wf(&self) -> bool {
        forall|i: int| 0 <= i < self@.len() ==> self@[i] <= 1
    }

    /// Creates a new classical register with the provided bits.
    pub fn new(bits: Vec<usize>) -> (r: ClassicalRegister)
        requires
            forall|i: int| 0 <= i < bits@.len() ==> bits@[i] <= 1,
        ensures
            r.wf(),
            r@ == bits@,
    {
        ClassicalRegister { bits }
    }

    /// Creates a classical register with all bits set to zero.
    pub fn zeros(len: usize) -> (r: ClassicalRegister)
        ensures
            r.wf(),
            r@.len() == len,
            forall|i: int| 0 <= i < len ==> r@[i] == 0,
            spec_value(r@) == 0,
    {
        let mut bits: Vec<usize> = Vec::new();
        let mut i: usize = 0;
        while i < len
            invariant
                i <= len,
                bits@.len() == i,
                forall|j: int| 0 <= j < i ==> bits@[j] == 0,
            decreases len - i,
        {
            bits.push(0);
            i = i + 1;
        }
        proof {
            lemma_spec_value_all_zero(bits@);
        }
        ClassicalRegister { bits }
    }

    /// Returns the length (width) of the classical register.
    pub fn len(&self) -> (r: usize)
        ensures
            r == self@.len(),
    {
        self.bits.len()
    }

    /// Creates a classical register from the given value and width: the
    /// `width`-bit big-endian expansion of `value`. Values at or above
    /// `pow2(width)` are truncated to their low `width` bits.
    pub fn from_value(width: usize, value: u32) -> (r: ClassicalRegister)
        ensures
            r.wf(),
            r@ == spec_from_value(width as nat, value as nat),
            r@.len() == width,
            spec_value(r@) == (value as nat) % pow2(width as nat),
    {
        let mut bits: Vec<usize> = Vec::new();
        let mut i: usize = 0;
        while i < width
            invariant
                i <= width,
                bits@.len() == i,
                forall|j: int| 0 <= j < i ==> bits@[j] == spec_bit_of(
                    value as nat,
                    (width - 1 - j) as nat,
                ),
            decreases width - i,
        {
            let exp: usize = width - 1 - i;
            let bit: usize = if exp >= 32 {
                proof {
                    lemma_high_bit_zero(value as nat, exp as nat);
                }
                0
            } else {
                let p: u64 = pow2_u64(exp as u32);
                (((value as u64) / p) % 2) as usize
            };
            assert(bit == spec_bit_of(value as nat, exp as nat));
            bits.push(bit);
            i = i + 1;
        }
        proof {
            lemma_spec_from_value_len(width as nat, value as nat);
            lemma_spec_from_value_index_all(width as nat, value as nat);
            assert(bits@ =~= spec_from_value(width as nat, value as nat));
            lemma_spec_from_value_wf(width as nat, value as nat);
            lemma_round_trip(width as nat, value as nat);
        }
        ClassicalRegister { bits }
    }

    /// Returns the value represented by the classical register, read as a
    /// big-endian binary integer.
    pub fn value(&self) -> (r: u32)
        requires
            spec_value(self@) <= u32::MAX,
        ensures
            r == spec_value(self@),
    {
        let mut acc: u32 = 0;
        let mut i: usize = 0;
        while i < self.bits.len()
            invariant
                i <= self@.len(),
                spec_value(self@) <= u32::MAX,
                acc == spec_value(self@.take(i as int)),
            decreases self@.len() - i,
        {
            proof {
                assert(self@.take(i + 1).drop_last() =~= self@.take(i as int));
                assert(spec_value(self@.take(i + 1)) == 2 * acc + (if self@[i as int] == 0 {
                    0nat
                } else {
                    1nat
                }));
                lemma_spec_value_prefix_bound(self@, i + 1);
            }
            let bit: u32 = if self.bits[i] != 0 {
                1
            } else {
                0
            };
            acc = acc * 2 + bit;
            i = i + 1;
        }
        proof {
            assert(self@.take(self@.len() as int) =~= self@);
        }
        acc
    }

    /// Returns the bits of the classical register.
    pub fn bits(&self) -> (r: Vec<usize>)
        ensures
            r@ == self@,
    {
        clone_bit_vec(&self.bits)
    }
}

/// Bit `exp` of `v` (counting from the least significant bit).
pub open spec fn spec_bit_of(v: nat, exp: nat) -> usize {
    ((v / pow2(exp)) % 2) as usize
}

/// Computes two to the given power.
pub fn pow2_u64(e: u32) -> (r: u64)
    requires
        e <= 63,
    ensures
        r == pow2(e as nat),
        r >= 1,
{
    let mut r: u64 = 1;
    let mut i: u32 = 0;
    proof {
        vstd::arithmetic::power2::lemma2_to64();
        vstd::arithmetic::power2::lemma2_to64_rest();
    }
    while i < e
        invariant
            i <= e <= 63,
            r == pow2(i as nat),
            r >= 1,
        decreases e - i,
    {
        proof {
            lemma_pow2_unfold((i + 1) as nat);
            vstd::arithmetic::power2::lemma_pow2_strictly_increases((i + 1) as nat, 64);
            vstd::arithmetic::power2::lemma2_to64();
            vstd::arithmetic::power2::lemma2_to64_rest();
        }
        r = r * 2;
        i = i + 1;
    }
    r
}

/// An all-zero bit string encodes zero.
proof fn lemma_spec_value_all_zero(s: Seq<usize>)
    requires
        forall|i: int| 0 <= i < s.len() ==> s[i] == 0,
    ensures
        spec_value(s) == 0,
    decreases s.len(),
{
    if s.len() > 0 {
        lemma_spec_value_all_zero(s.drop_last());
    }
}

proof fn lemma_spec_from_value_len(width: nat, v: nat)
    ensures
        spec_from_value(width, v).len() == width,
    decreases width,
{
    if width > 0 {
        lemma_spec_from_value_len((width - 1) as nat, v / 2);
    }
}

proof fn lemma_spec_from_value_wf(width: nat, v: nat)
    ensures
        forall|i: int| 0 <= i < spec_from_value(width, v).len() ==> spec_from_value(width, v)[i]
            <= 1,
    decreases width,
{
    lemma_spec_from_value_len(width, v);
    if width > 0 {
        lemma_spec_from_value_wf((width - 1) as nat, v / 2);
        lemma_spec_from_value_len((width - 1) as nat, v / 2);
        assert forall|i: int| 0 <= i < width implies spec_from_value(width, v)[i] <= 1 by {
            if i < width - 1 {
                assert(spec_from_value(width, v)[i] == spec_from_value((width - 1) as nat, v / 2)[i]);
            }
        }
    }
}

/// Each position of the expansion holds the matching binary digit of `v`.
proof fn lemma_spec_from_value_index(width: nat, v: nat, i: int)
    requires
        0 <= i < width,
    ensures
        spec_from_value(width, v)[i] == spec_bit_of(v, (width - 1 - i) as nat),
    decreases width,
{
    lemma_spec_from_value_len(width, v);
    lemma_spec_from_value_len((width - 1) as nat, v / 2);
    if i == width - 1 {
        assert(pow2(0) == 1) by {
            vstd::arithmetic::power2::lemma2_to64();
        }
        assert(spec_from_value(width, v)[i] == (v % 2) as usize);
        assert(v / pow2(0) == v);
    } else {
        lemma_spec_from_value_index((width - 1) as nat, v / 2, i);
        let e = (width - 2 - i) as nat;
        assert(spec_from_value(width, v)[i] == spec_from_value((width - 1) as nat, v / 2)[i]);
        // (v / 2) / pow2(e) == v / pow2(e + 1)
        lemma_pow2_pos(e);
        lemma_div_denominator(v as int, 2, pow2(e) as int);
        lemma_pow2_unfold((e + 1) as nat);
        assert(2 * pow2(e) == pow2((e + 1) as nat));
        assert((v / 2) / pow2(e) == v / pow2((e + 1) as nat));
    }
}

proof fn lemma_spec_from_value_index_all(width: nat, v: nat)
    ensures
        spec_from_value(width, v).len() == width,
        forall|i: int| 0 <= i < width ==> spec_from_value(width, v)[i] == spec_bit_of(
            v,
            (width - 1 - i) as nat,
        ),
{
    lemma_spec_from_value_len(width, v);
    assert forall|i: int| 0 <= i < width implies spec_from_value(width, v)[i] == spec_bit_of(
        v,
        (width - 1 - i) as nat,
    ) by {
        lemma_spec_from_value_index(width, v, i);
    }
}

/// Bits above the magnitude of `v` are zero.
proof fn lemma_high_bit_zero(v: nat, exp: nat)
    requires
        v < 0x1_0000_0000,
        exp >= 32,
    ensures
        spec_bit_of(v, exp) == 0,
{
    lemma_pow2_pos(exp);
    lemma_pow2_pos(32nat);
    assert(pow2(32) == 0x1_0000_0000) by {
        vstd::arithmetic::power2::lemma2_to64();
    }
    if exp > 32 {
        vstd::arithmetic::power2::lemma_pow2_strictly_increases(32nat, exp);
    }
    assert(v < pow2(exp));
    assert(v / pow2(exp) == 0) by {
        vstd::arithmetic::div_mod::lemma_basic_div(v as int, pow2(exp) as int);
    }
}

/// Round-trip law, encoding direction: reading back the `width`-bit
/// expansion of `v` yields `v % pow2(width)`; in particular it yields `v`
/// itself whenever `v < pow2(width)`.
pub proof fn lemma_round_trip(width: nat, v: nat)
    ensures
        spec_value(spec_from_value(width, v)) == v % pow2(width),
        v < pow2(width) ==> spec_value(spec_from_value(width, v)) == v,
    decreases width,
{
    lemma_spec_from_value_len(width, v);
    if width == 0 {
        assert(pow2(0) == 1) by {
            vstd::arithmetic::power2::lemma2_to64();
        }
        assert(v % 1 == 0) by {
            vstd::arithmetic::div_mod::lemma_mod_self_0(1int);
            vstd::arithmetic::div_mod::lemma_mod_breakdown(v as int, 1int, 1int);
        }
    } else {
        lemma_round_trip((width - 1) as nat, v / 2);
        let s = spec_from_value(width, v);
        assert(s.drop_last() =~= spec_from_value((width - 1) as nat, v / 2));
        assert(spec_value(s) == 2 * ((v / 2) % pow2((width - 1) as nat)) + v % 2);
        lemma_mod_halves(v, (width - 1) as nat);
    }
    if v < pow2(width) {
        vstd::arithmetic::div_mod::lemma_small_mod(v, pow2(width));
    }
}

/// `v % pow2(w + 1) == 2 * ((v / 2) % pow2(w)) + v % 2`.
proof fn lemma_mod_halves(v: nat, w: nat)
    ensures
        v % pow2(w + 1) == 2 * ((v / 2) % pow2(w)) + v % 2,
{
    lemma_pow2_pos(w);
    lemma_pow2_pos(w + 1);
    lemma_pow2_unfold(w + 1);
    // v / 2 = pow2(w) * q + r with r = (v/2) % pow2(w), q = (v/2) / pow2(w)
    lemma_fundamental_div_mod(v as int, 2);
    lemma_fundamental_div_mod((v / 2) as int, pow2(w) as int);
    lemma_div_denominator(v as int, 2, pow2(w) as int);
    // so v = 2 * pow2(w) * q + 2 * r + v % 2, with 0 <= 2r + v%2 < pow2(w+1)
    let q = (v / 2) / pow2(w);
    let r = (v / 2) % pow2(w);
    assert(v == pow2(w + 1) * q + (2 * r + v % 2)) by {
        assert(v == 2 * (v / 2) + v % 2);
        assert((v / 2) as int == pow2(w) * q + r);
        assert(2 * (pow2(w) * q) == (2 * pow2(w)) * q) by (nonlinear_arith);
    }
    assert(0 <= 2 * r + v % 2 < pow2(w + 1));
    vstd::arithmetic::div_mod::lemma_fundamental_div_mod_converse(
        v as int,
        pow2(w + 1) as int,
        q as int,
        (2 * r + v % 2) as int,
    );
}

/// Splitting a bit string: the whole value is the prefix value shifted up
/// by the suffix width, plus the suffix value.
pub proof fn lemma_spec_value_split(s: Seq<usize>, i: int)
    requires
        0 <= i <= s.len(),
    ensures
        spec_value(s) == spec_value(s.take(i)) * pow2((s.len() - i) as nat) + spec_value(s.skip(i)),
    decreases s.len() - i,
{
    if i == s.len() {
        assert(s.take(i) =~= s);
        assert(s.skip(i) =~= Seq::<usize>::empty());
        assert(spec_value(s.skip(i)) == 0);
        assert(pow2(0) == 1) by {
            vstd::arithmetic::power2::lemma2_to64();
        }
        assert(s.take(i) == s);
        assert(spec_value(s.take(i)) == spec_value(s));
        assert((s.len() - i) as nat == 0nat);
        assert(spec_value(s.take(i)) * pow2((s.len() - i) as nat) == spec_value(s) * 1);
        assert(spec_value(s) * 1 == spec_value(s)) by (nonlinear_arith);
    } else {
        lemma_spec_value_split(s.drop_last(), i);
        let m = (s.len() - 1 - i) as nat;
        let b: nat = if s.last() == 0 { 0 } else { 1 };
        let t = spec_value(s.take(i));
        assert(s.drop_last().take(i) =~= s.take(i));
        assert(s.skip(i).len() > 0);
        assert(s.skip(i).last() == s.last());
        assert(s.skip(i).drop_last() =~= s.drop_last().skip(i));
        assert(spec_value(s.skip(i)) == 2 * spec_value(s.drop_last().skip(i)) + b);
        assert(spec_value(s) == 2 * spec_value(s.drop_last()) + b);
        assert(spec_value(s.drop_last()) == t * pow2(m) + spec_value(s.drop_last().skip(i)));
        assert(spec_value(s) == 2 * (t * pow2(m)) + spec_value(s.skip(i)));
        lemma_pow2_unfold(m + 1);
        assert(2 * (t * pow2(m)) == t * (2 * pow2(m))) by (nonlinear_arith);
        assert(spec_value(s) == t * pow2(m + 1) + spec_value(s.skip(i)));
        assert((s.len() - i) as nat == m + 1);
    }
}

/// A prefix of a bit string never encodes more than the whole string.
pub proof fn lemma_spec_value_prefix_bound(s: Seq<usize>, i: int)
    requires
        0 <= i <= s.len(),
    ensures
        spec_value(s.take(i)) <= spec_value(s),
{
    lemma_spec_value_split(s, i);
    lemma_pow2_pos((s.len() - i) as nat);
    let t = spec_value(s.take(i));
    let p = pow2((s.len() - i) as nat);
    assert(t * p >= t * 1) by (nonlinear_arith)
        requires
            p >= 1,
            t >= 0,
    ;
}

/// Round-trip law, decoding direction: a well-formed bit string is exactly
/// the expansion of its own value at its own width.
pub proof fn lemma_from_value_of_value(s: Seq<usize>)
    requires
        forall|i: int| 0 <= i < s.len() ==> s[i] <= 1,
    ensures
        spec_from_value(s.len(), spec_value(s)) == s,
    decreases s.len(),
{
    if s.len() > 0 {
        let v = spec_value(s);
        let b: nat = if s.last() == 0 { 0 } else { 1 };
        assert(v == 2 * spec_value(s.drop_last()) + b);
        assert(v / 2 == spec_value(s.drop_last()) && v % 2 == b) by {
            vstd::arithmetic::div_mod::lemma_fundamental_div_mod_converse(
                v as int,
                2,
                spec_value(s.drop_last()) as int,
                b as int,
            );
        }
        lemma_from_value_of_value(s.drop_last());
        assert(spec_from_value(s.len(), v) =~= s);
    } else {
        assert(spec_from_value(0, spec_value(s)) =~= s);
    }
}

/// Why an operation on a quantum register was refused.
#[derive(Clone, Copy, Debug, PartialEq, Eq, Structural)]
pub enum Error {
    /// A qubit index outside `[1, n]`, or a controlled gate whose control
    /// and target coincide.
    InvalidIndex,
    /// A gate or measurement attempted after the terminal full-register
    /// measurement.
    AlreadyMeasured,
    /// A classical seed whose width is not a power of two consistent with a
    /// whole number of qubits, or whose value lies outside its own width.
    DimensionMismatch,
    /// A Hadamard gate would push the exact denominator beyond what machine
    /// words can carry. Unreachable through gate sequences that start from
    /// a basis state of any realizable size, but checked rather than
    /// silently corrupting state.
    ScaleOverflow,
    /// A single-qubit measurement whose surviving probability is not a
    /// dyadic rational, so the renormalized state has no exact
    /// representation. Unreachable through this library's gate set, but
    /// checked rather than silently corrupting state.
    NondyadicProbability,
}

/// Relies on rand::random: draws one machine word from the thread-local
/// generator. Nothing is assumed about the value.
#[verifier::external_body]
fn random_u64() -> u64 {
    rand::random::<u64>()
}

/// Represents a quantum register: a joint amplitude state over all its
/// qubits, the amplitude-vector length, and the one-shot measurement flag.
#[derive(Clone, Debug)]
pub struct QuantumRegister {
    pub measured: bool,
    pub prob_amplitudes: State,
    pub len: usize,
}

/// What every single-qubit gate call leaves behind: the tensor-expanded
/// matrix applied to the amplitude vector (then brought to lowest terms),
/// everything else untouched.
pub open spec fn single_gate_applied(
    pre: QuantumRegister,
    post: QuantumRegister,
    g: crate::state::SpecGate,
    target: int,
) -> bool {
    &&& post.prob_amplitudes@ == crate::state::spec_reduce(
        crate::state::SpecState {
            amps: crate::state::apply1_spec(
                pre.prob_amplitudes@.amps,
                g,
                (pre.qubits() - target) as nat,
            ),
            scale: pre.prob_amplitudes@.scale + g.scale,
        },
    )
    &&& post.measured == pre.measured
    &&& post.len == pre.len
    &&& post.qubits() == pre.qubits()
}

impl QuantumRegister {
    /// The number of qubits.
    pub open spec fn qubits(&self) -> nat {
        self.prob_amplitudes.qubits()
    }

    /// Well-formedness: a valid amplitude state whose vector length matches
    /// the recorded length and leaves every basis index representable as a
    /// 32-bit classical value.
    pub open spec fn wf(&self) -> bool {
        &&& self.prob_amplitudes.wf()
        &&& self.len == self.prob_amplitudes@.amps.len()
        &&& self.len <= 0x1_0000_0000
    }

    /// Creates a new quantum register from a classical register: the seed's
    /// width is the amplitude-vector length (one bit pattern per basis
    /// state of `log2(width)` qubits), and the seed's value selects the
    /// initial basis state. Fails with `DimensionMismatch` when the width
    /// is not a power of two, is too large for basis indices to fit 32-bit
    /// classical values, or does not cover the seed's own value.
    pub fn new(cr: &ClassicalRegister) -> (r: Result<QuantumRegister, Error>)
        requires
            spec_value(cr@) <= u32::MAX,
        ensures
            ({
                let ok = vstd::arithmetic::power2::is_pow2(cr@.len() as int) && spec_value(cr@)
                    < cr@.len() && cr@.len() <= 0x1_0000_0000;
                match r {
                    Ok(qr) => {
                        &&& ok
                        &&& qr.wf()
                        &&& !qr.measured
                        &&& qr.len == cr@.len()
                        &&& qr.prob_amplitudes@.amps == crate::state::basis_amps(
                            cr@.len(),
                            spec_value(cr@) as int,
                        )
                        &&& qr.prob_amplitudes@.scale == 0
                    },
                    Err(e) => !ok && e == Error::DimensionMismatch,
                }
            }),
    {
        let width = cr.len();
        let width_pow2 = usize_is_pow2(width);
        if !width_pow2 {
            return Err(Error::DimensionMismatch);
        }
        if (width as u64) > 0x1_0000_0000u64 {
            return Err(Error::DimensionMismatch);
        }
        proof {
            crate::state::lemma_is_pow2_log2(width as int);
        }
        let value = cr.value();
        if !((value as usize) < width) {
            return Err(Error::DimensionMismatch);
        }
        let st = State::from_cr(cr);
        Ok(QuantumRegister { measured: false, prob_amplitudes: st, len: width })
    }

    /// Initializes a quantum register with the specified number of qubits,
    /// all in basis state zero.
    pub fn init(n_qubit: usize) -> (r: QuantumRegister)
        requires
            n_qubit <= 32,
            pow2(n_qubit as nat) <= usize::MAX,
        ensures
            r.wf(),
            !r.measured,
            r.qubits() == n_qubit,
            r.len == pow2(n_qubit as nat),
            r.prob_amplitudes@.amps == crate::state::basis_amps(pow2(n_qubit as nat), 0),
            r.prob_amplitudes@.scale == 0,
    {
        let len = crate::state::pow2_usize(n_qubit);
        proof {
            lemma_pow2_pos(n_qubit as nat);
            crate::state::lemma_log2_pow2(n_qubit as nat);
            if n_qubit < 32 {
                vstd::arithmetic::power2::lemma_pow2_strictly_increases(n_qubit as nat, 32);
            }
            assert(pow2(32) == 0x1_0000_0000) by {
                vstd::arithmetic::power2::lemma2_to64();
            }
        }
        let st = State::from_basis_index(n_qubit, 0);
        QuantumRegister { measured: false, prob_amplitudes: st, len }
    }

    /// Returns the length of the quantum register: the number of
    /// amplitudes, one per computational basis state.
    pub fn len(&self) -> (r: usize)
        ensures
            r == self.len,
    {
        self.len
    }

    /// Returns the number of qubits in the quantum register.
    pub fn get_qubit_count(&self) -> (r: usize)
        requires
            self.wf(),
        ensures
            r as nat == self.qubits(),
    {
        self.prob_amplitudes.get_qubit_count()
    }

    /// Returns the state of the quantum register: a snapshot of the exact
    /// amplitude numerators, over a denominator of `sqrt(2)` to the power
    /// `scale()`.
    pub fn state(&self) -> (r: Vec<Amplitude>)
        ensures
            crate::amplitude::views(r@) == self.prob_amplitudes@.amps,
    {
        self.prob_amplitudes.amplitudes()
    }

    /// Returns the denominator exponent of the amplitude snapshot.
    pub fn scale(&self) -> (r: u32)
        ensures
            r as nat == self.prob_amplitudes@.scale,
    {
        self.prob_amplitudes.scale()
    }

    /// Applies the Pauli-X gate (also known as the NOT gate) to the
    /// specified target qubit (1-based; qubit 1 is the most significant bit
    /// of the basis index).
    ///
    /// The Pauli-X gate flips the state of the target qubit, changing |0>
    /// to |1> and vice versa. Matrix representation:
    ///     | 0 1 |
    ///     | 1 0 |
    pub fn x(&mut self, target_qubit: usize) -> (r: Result<(), Error>)
        requires
            old(self).wf(),
        ensures
            old(self).measured ==> r == Err::<(), Error>(Error::AlreadyMeasured) && *final(self)
                == *old(self),
            !old(self).measured && !(1 <= target_qubit <= old(self).qubits()) ==> r == Err::<
                (),
                Error,
            >(Error::InvalidIndex) && *final(self) == *old(self),
            !old(self).measured && 1 <= target_qubit <= old(self).qubits() ==> r == Ok::<
                (),
                Error,
            >(()) && single_gate_applied(
                *old(self),
                *final(self),
                crate::state::x_gate_spec(),
                target_qubit as int,
            ) && final(self).wf(),
    {
        if self.measured {
            return Err(Error::AlreadyMeasured);
        }
        let n = self.prob_amplitudes.get_qubit_count();
        if target_qubit < 1 || target_qubit > n {
            return Err(Error::InvalidIndex);
        }
        self.prob_amplitudes.pauli_x_gate(target_qubit);
        Ok(())
    }

    /// Applies the Pauli-Y gate to the specified target qubit.
    ///
    /// The Pauli-Y gate flips the target qubit and rotates the phase of the
    /// two new amplitudes by a quarter turn each way. Matrix representation:
    ///     | 0 -i |
    ///     | i  0 |
    pub fn y(&mut self, target_qubit: usize) -> (r: Result<(), Error>)
        requires
            old(self).wf(),
        ensures
            old(self).measured ==> r == Err::<(), Error>(Error::AlreadyMeasured) && *final(self)
                == *old(self),
            !old(self).measured && !(1 <= target_qubit <= old(self).qubits()) ==> r == Err::<
                (),
                Error,
            >(Error::InvalidIndex) && *final(self) == *old(self),
            !old(self).measured && 1 <= target_qubit <= old(self).qubits() ==> r == Ok::<
                (),
                Error,
            >(()) && single_gate_applied(
                *old(self),
                *final(self),
                crate::state::y_gate_spec(),
                target_qubit as int,
            ) && final(self).wf(),
    {
        if self.measured {
            return Err(Error::AlreadyMeasured);
        }
        let n = self.prob_amplitudes.get_qubit_count();
        if target_qubit < 1 || target_qubit > n {
            return Err(Error::InvalidIndex);
        }
        self.prob_amplitudes.pauli_y_gate(target_qubit);
        Ok(())
    }

    /// Applies the Pauli-Z gate to the specified target qubit.
    ///
    /// The Pauli-Z gate negates the amplitude of every basis state in which
    /// the target qubit is one. Matrix representation:
    ///     | 1  0 |
    ///     | 0 -1 |
    pub fn z(&mut self, target_qubit: usize) -> (r: Result<(), Error>)
        requires
            old(self).wf(),
        ensures
            old(self).measured ==> r == Err::<(), Error>(Error::AlreadyMeasured) && *final(self)
                == *old(self),
            !old(self).measured && !(1 <= target_qubit <= old(self).qubits()) ==> r == Err::<
                (),
                Error,
            >(Error::InvalidIndex) && *final(self) == *old(self),
            !old(self).measured && 1 <= target_qubit <= old(self).qubits() ==> r == Ok::<
                (),
                Error,
            >(()) && single_gate_applied(
                *old(self),
                *final(self),
                crate::state::z_gate_spec(),
                target_qubit as int,
            ) && final(self).wf(),
    {
        if self.measured {
            return Err(Error::AlreadyMeasured);
        }
        let n = self.prob_amplitudes.get_qubit_count();
        if target_qubit < 1 || target_qubit > n {
            return Err(Error::InvalidIndex);
        }
        self.prob_amplitudes.pauli_z_gate(target_qubit);
        Ok(())
    }

    /// Applies the Hadamard gate to the specified target qubit.
    ///
    /// The Hadamard gate sends each basis state of the target qubit to an
    /// equal superposition of |0> and |1>. Matrix representation:
    ///     | 1/sqrt(2)  1/sqrt(2) |
    ///     | 1/sqrt(2) -1/sqrt(2) |
    pub fn h(&mut self, target_qubit: usize) -> (r: Result<(), Error>)
        requires
            old(self).wf(),
        ensures
            old(self).measured ==> r == Err::<(), Error>(Error::AlreadyMeasured) && *final(self)
                == *old(self),
            !old(self).measured && !(1 <= target_qubit <= old(self).qubits()) ==> r == Err::<
                (),
                Error,
            >(Error::InvalidIndex) && *final(self) == *old(self),
            !old(self).measured && 1 <= target_qubit <= old(self).qubits()
                && old(self).prob_amplitudes@.scale == crate::state::MAX_SCALE ==> r == Err::<
                (),
                Error,
            >(Error::ScaleOverflow) && *final(self) == *old(self),
            !old(self).measured && 1 <= target_qubit <= old(self).qubits()
                && old(self).prob_amplitudes@.scale < crate::state::MAX_SCALE ==> r == Ok::<
                (),
                Error,
            >(()) && single_gate_applied(
                *old(self),
                *final(self),
                crate::state::h_gate_spec(),
                target_qubit as int,
            ) && final(self).wf(),
    {
        if self.measured {
            return Err(Error::AlreadyMeasured);
        }
        let n = self.prob_amplitudes.get_qubit_count();
        if target_qubit < 1 || target_qubit > n {
            return Err(Error::InvalidIndex);
        }
        if self.prob_amplitudes.scale() == crate::state::MAX_SCALE {
            return Err(Error::ScaleOverflow);
        }
        self.prob_amplitudes.hadamard_gate(target_qubit);
        Ok(())
    }

    /// Applies the controlled-NOT (CNOT) gate to the specified control and
    /// target qubits: the target qubit is flipped in exactly those basis
    /// states whose control qubit is one, as a basis-index permutation.
    /// Matrix representation (on the two qubits involved):
    ///     | 1 0 0 0 |
    ///     | 0 1 0 0 |
    ///     | 0 0 0 1 |
    ///     | 0 0 1 0 |
    pub fn cnot(&mut self, control_qubit: usize, target_qubit: usize) -> (r: Result<(), Error>)
        requires
            old(self).wf(),
        ensures
            old(self).measured ==> r == Err::<(), Error>(Error::AlreadyMeasured) && *final(self)
                == *old(self),
            !old(self).measured && !(1 <= control_qubit <= old(self).qubits() && 1 <= target_qubit
                <= old(self).qubits() && control_qubit != target_qubit) ==> r == Err::<
                (),
                Error,
            >(Error::InvalidIndex) && *final(self) == *old(self),
            !old(self).measured && 1 <= control_qubit <= old(self).qubits() && 1 <= target_qubit
                <= old(self).qubits() && control_qubit != target_qubit ==> r == Ok::<(), Error>(())
                && final(self).prob_amplitudes@.amps == crate::state::cnot_amps(
                old(self).prob_amplitudes@.amps,
                (old(self).qubits() - control_qubit) as nat,
                (old(self).qubits() - target_qubit) as nat,
            ) && final(self).prob_amplitudes@.scale == old(self).prob_amplitudes@.scale && final(self).measured == old(self).measured && final(self).len == old(self).len && final(self).qubits() == old(self).qubits() && final(self).wf(),
    {
        if self.measured {
            return Err(Error::AlreadyMeasured);
        }
        let n = self.prob_amplitudes.get_qubit_count();
        if control_qubit < 1 || control_qubit > n || target_qubit < 1 || target_qubit > n
            || control_qubit == target_qubit {
            return Err(Error::InvalidIndex);
        }
        self.prob_amplitudes.cnot_gate(control_qubit, target_qubit);
        Ok(())
    }

    /// Measures the quantum register with an explicitly injected Born draw:
    /// `t` plays the role of the uniform random number, as an exact dyadic
    /// rational `t / pow2(scale())`. Walks the basis states in order,
    /// accumulating their Born weights, and collapses to the first state
    /// whose cumulative weight exceeds the draw; the register becomes a
    /// definite classical value and accepts no further operations. The
    /// returned register holds the sampled basis index in binary, qubit 1
    /// first.
    pub fn measure_with_draw(&mut self, t: u64) -> (r: Result<ClassicalRegister, Error>)
        requires
            old(self).wf(),
            (t as int) < pow2(old(self).prob_amplitudes@.scale),
        ensures
            old(self).measured ==> r == Err::<ClassicalRegister, Error>(Error::AlreadyMeasured)
                && *final(self) == *old(self),
            !old(self).measured ==> match r {
                Ok(cr) => {
                    &&& cr.wf()
                    &&& cr@.len() == old(self).qubits()
                    &&& (spec_value(cr@) as int) < old(self).len
                    &&& crate::state::prefix_weight(
                        old(self).prob_amplitudes@.amps,
                        spec_value(cr@) as int,
                    ) <= t as int
                    &&& (t as int) < crate::state::prefix_weight(
                        old(self).prob_amplitudes@.amps,
                        spec_value(cr@) as int + 1,
                    )
                    &&& crate::amplitude::cnormsq(
                        old(self).prob_amplitudes@.amps[spec_value(cr@) as int],
                    ) > 0
                    &&& cr@ == spec_from_value(old(self).qubits(), spec_value(cr@))
                    &&& final(self).measured
                    &&& final(self).prob_amplitudes == old(self).prob_amplitudes
                    &&& final(self).len == old(self).len
                },
                Err(_) => false,
            },
    {
        if self.measured {
            return Err(Error::AlreadyMeasured);
        }
        let n = self.prob_amplitudes.get_qubit_count();
        let i = self.prob_amplitudes.sample_basis_index(t);
        self.measured = true;
        proof {
            vstd::arithmetic::div_mod::lemma_small_mod(i as nat, pow2(n as nat));
        }
        let cr = ClassicalRegister::from_value(n, i as u32);
        proof {
            lemma_round_trip(n as nat, i as nat);
        }
        Ok(cr)
    }

    /// Measures the quantum register: draws one uniform Born sample and
    /// collapses the register to a classical value, which is returned. May
    /// be called at most once; every later gate or measurement is refused.
    pub fn measure(&mut self) -> (r: Result<ClassicalRegister, Error>)
        requires
            old(self).wf(),
        ensures
            old(self).measured ==> r == Err::<ClassicalRegister, Error>(Error::AlreadyMeasured)
                && *final(self) == *old(self),
            !old(self).measured ==> match r {
                Ok(cr) => {
                    &&& cr.wf()
                    &&& cr@.len() == old(self).qubits()
                    &&& (spec_value(cr@) as int) < old(self).len
                    &&& crate::amplitude::cnormsq(
                        old(self).prob_amplitudes@.amps[spec_value(cr@) as int],
                    ) > 0
                    &&& cr@ == spec_from_value(old(self).qubits(), spec_value(cr@))
                    &&& final(self).measured
                    &&& final(self).prob_amplitudes == old(self).prob_amplitudes
                    &&& final(self).len == old(self).len
                },
                Err(_) => false,
            },
    {
        if self.measured {
            return Err(Error::AlreadyMeasured);
        }
        let u = random_u64();
        let pw = pow2_u64(self.prob_amplitudes.scale());
        let t = u % pw;
        self.measure_with_draw(t)
    }

    /// Measures a single qubit with an explicitly injected Born draw `t`
    /// (an exact dyadic rational `t / pow2(scale())`). Reports whether the
    /// target qubit was observed as one, and projects the register onto the
    /// observed outcome, renormalizing the surviving amplitudes; the other
    /// qubits keep their superposition and the register stays usable.
    pub fn measure_qubit_with_draw(&mut self, qubit_to_measure: usize, t: u64) -> (r: Result<
        bool,
        Error,
    >)
        requires
            old(self).wf(),
            (t as int) < pow2(old(self).prob_amplitudes@.scale),
        ensures
            old(self).measured ==> r == Err::<bool, Error>(Error::AlreadyMeasured) && *final(self)
                == *old(self),
            !old(self).measured && !(1 <= qubit_to_measure <= old(self).qubits()) ==> r == Err::<
                bool,
                Error,
            >(Error::InvalidIndex) && *final(self) == *old(self),
            !old(self).measured && 1 <= qubit_to_measure <= old(self).qubits() ==> ({
                let p = (old(self).qubits() - qubit_to_measure) as nat;
                let amps = old(self).prob_amplitudes@.amps;
                let w_one = crate::amplitude::total_weight(
                    crate::state::project_amps(amps, p, true),
                );
                let outcome = (t as int) < w_one;
                let w_kept = if outcome {
                    w_one
                } else {
                    crate::amplitude::total_weight(crate::state::project_amps(amps, p, false))
                };
                if vstd::arithmetic::power2::is_pow2(w_kept) {
                    &&& r == Ok::<bool, Error>(outcome)
                    &&& final(self).prob_amplitudes@ == crate::state::spec_reduce(
                        crate::state::SpecState {
                            amps: crate::state::project_amps(amps, p, outcome),
                            scale: crate::state::spec_log2(w_kept as nat),
                        },
                    )
                    &&& final(self).wf()
                    &&& final(self).measured == old(self).measured
                    &&& final(self).len == old(self).len
                    &&& final(self).qubits() == old(self).qubits()
                } else {
                    r == Err::<bool, Error>(Error::NondyadicProbability) && *final(self) == *old(
                        self,
                    )
                }
            }),
    {
        if self.measured {
            return Err(Error::AlreadyMeasured);
        }
        let n = self.prob_amplitudes.get_qubit_count();
        if qubit_to_measure < 1 || qubit_to_measure > n {
            return Err(Error::InvalidIndex);
        }
        let ghost p = (self.qubits() - qubit_to_measure) as nat;
        let ghost amps = self.prob_amplitudes@.amps;
        let w_one = self.prob_amplitudes.one_weight(qubit_to_measure);
        let total = pow2_u64(self.prob_amplitudes.scale());
        proof {
            crate::state::lemma_project_total_split(amps, p);
        }
        let outcome: bool = t < w_one;
        let w_kept: u64 = if outcome {
            w_one
        } else {
            total - w_one
        };
        if !crate::state::u64_is_pow2(w_kept) {
            return Err(Error::NondyadicProbability);
        }
        self.prob_amplitudes.project_qubit(qubit_to_measure, outcome);
        Ok(outcome)
    }

    /// Measures a single qubit: draws one uniform Born sample, reports the
    /// observed value of the target qubit, and projects the register onto
    /// that outcome, preserving the superposition of the other qubits.
    pub fn measure_qubit(&mut self, qubit_to_measure: usize) -> (r: Result<bool, Error>)
        requires
            old(self).wf(),
        ensures
            old(self).measured ==> r == Err::<bool, Error>(Error::AlreadyMeasured) && *final(self)
                == *old(self),
            !old(self).measured && !(1 <= qubit_to_measure <= old(self).qubits()) ==> r == Err::<
                bool,
                Error,
            >(Error::InvalidIndex) && *final(self) == *old(self),
            !old(self).measured && 1 <= qubit_to_measure <= old(self).qubits() ==> match r {
                Ok(outcome) => {
                    &&& final(self).wf()
                    &&& final(self).measured == old(self).measured
                    &&& final(self).len == old(self).len
                    &&& final(self).qubits() == old(self).qubits()
                    &&& (outcome ==> crate::amplitude::total_weight(
                        crate::state::project_amps(
                            old(self).prob_amplitudes@.amps,
                            (old(self).qubits() - qubit_to_measure) as nat,
                            true,
                        ),
                    ) > 0)
                    &&& (!outcome ==> crate::amplitude::total_weight(
                        crate::state::project_amps(
                            old(self).prob_amplitudes@.amps,
                            (old(self).qubits() - qubit_to_measure) as nat,
                            false,
                        ),
                    ) > 0)
                    &&& final(self).prob_amplitudes@ == crate::state::spec_reduce(
                        crate::state::SpecState {
                            amps: crate::state::project_amps(
                                old(self).prob_amplitudes@.amps,
                                (old(self).qubits() - qubit_to_measure) as nat,
                                outcome,
                            ),
                            scale: crate::state::spec_log2(
                                crate::amplitude::total_weight(
                                    crate::state::project_amps(
                                        old(self).prob_amplitudes@.amps,
                                        (old(self).qubits() - qubit_to_measure) as nat,
                                        outcome,
                                    ),
                                ) as nat,
                            ),
                        },
                    )
                },
                Err(e) => e == Error::NondyadicProbability && *final(self) == *old(self),
            },
            // Success is owed whenever both projections carry a dyadic
            // weight, and in particular when the outcome is certain.
            !old(self).measured && 1 <= qubit_to_measure <= old(self).qubits() && ({
                let p = (old(self).qubits() - qubit_to_measure) as nat;
                let amps = old(self).prob_amplitudes@.amps;
                ||| crate::amplitude::total_weight(crate::state::project_amps(amps, p, true)) == 0
                ||| crate::amplitude::total_weight(crate::state::project_amps(amps, p, false))
                    == 0
                ||| (vstd::arithmetic::power2::is_pow2(
                    crate::amplitude::total_weight(crate::state::project_amps(amps, p, true)),
                ) && vstd::arithmetic::power2::is_pow2(
                    crate::amplitude::total_weight(crate::state::project_amps(amps, p, false)),
                ))
            }) ==> r is Ok,
    {
        if self.measured {
            return Err(Error::AlreadyMeasured);
        }
        let n = self.prob_amplitudes.get_qubit_count();
        if qubit_to_measure < 1 || qubit_to_measure > n {
            return Err(Error::InvalidIndex);
        }
        let u = random_u64();
        let pw = pow2_u64(self.prob_amplitudes.scale());
        let t = u % pw;
        let ghost p = (self.qubits() - qubit_to_measure) as nat;
        let ghost amps = self.prob_amplitudes@.amps;
        let ghost k = self.prob_amplitudes@.scale;
        let r = self.measure_qubit_with_draw(qubit_to_measure, t);
        proof {
            let w_one = crate::amplitude::total_weight(crate::state::project_amps(amps, p, true));
            let w_zero = crate::amplitude::total_weight(
                crate::state::project_amps(amps, p, false),
            );
            crate::state::lemma_project_total_split(amps, p);
            if r is Ok {
                if r == Ok::<bool, Error>(true) {
                    assert((t as int) < w_one);
                } else {
                    crate::state::lemma_project_le(amps, p, true);
                }
            }
            // The certain outcomes leave the whole weight on one side.
            crate::state::lemma_pow2_is_pow2(k);
            if w_one == 0 {
                crate::state::lemma_project_le(amps, p, true);
                assert(w_zero == pow2(k));
            }
            if w_zero == 0 {
                assert(w_one == pow2(k));
            }
        }
        r
    }
}

/// Tests whether a machine word is a power of two.
fn usize_is_pow2(w: usize) -> (r: bool)
    ensures
        r == vstd::arithmetic::power2::is_pow2(w as int),
{
    proof {
        reveal(vstd::arithmetic::power2::is_pow2);
    }
    if w == 0 {
        return false;
    }
    let mut x: usize = w;
    while x > 1
        invariant
            x >= 1,
            vstd::arithmetic::power2::is_pow2(w as int) == vstd::arithmetic::power2::is_pow2(
                x as int,
            ),
        decreases x,
    {
        proof {
            reveal(vstd::arithmetic::power2::is_pow2);
        }
        if x % 2 == 1 {
            return false;
        }
        x = x / 2;
    }
    proof {
        reveal(vstd::arithmetic::power2::is_pow2);
    }
    true
}

/// Determinism of basis-state measurement, end to end: a register seeded at
/// basis state `m` (as `QuantumRegister::new` or `init` leaves it) always
/// measures as `m`, whatever value the Born draw takes. The two prefix
/// conditions are exactly what `measure_with_draw` guarantees of its result.
pub proof fn lemma_measure_basis_deterministic(len: nat, m: int, t: int, v: int)
    requires
        0 <= m < len,
        0 <= t,
        0 <= v < len,
        crate::state::prefix_weight(crate::state::basis_amps(len, m), v) <= t,
        t < crate::state::prefix_weight(crate::state::basis_amps(len, m), v + 1),
    ensures
        v == m,
{
    crate::state::lemma_sample_basis_deterministic(
        crate::state::basis_amps(len, m),
        m,
        t,
        v,
    );
}

/// The value of a `width`-bit string is below `pow2(width)`.
pub proof fn lemma_spec_value_bound(s: Seq<usize>)
    requires
        forall|i: int| 0 <= i < s.len() ==> s[i] <= 1,
    ensures
        spec_value(s) < pow2(s.len()),
    decreases s.len(),
{
    if s.len() == 0 {
        assert(pow2(0) == 1) by {
            vstd::arithmetic::power2::lemma2_to64();
        }
    } else {
        lemma_spec_value_bound(s.drop_last());
        lemma_pow2_unfold(s.len());
    }
}

} // verus!
