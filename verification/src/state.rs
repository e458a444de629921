//! The joint quantum state: a dense vector of `2^n` exact complex
//! amplitudes, with gate application and measurement algorithms on it.
//!
//! Basis index `i` stands for the computational basis state whose classical
//! bit string is the big-endian `n`-bit expansion of `i`, so qubit 1
//! occupies the most significant bit position. The stored numerators are
//! Gaussian integers over a common denominator of `sqrt(2)^scale`, kept in
//! lowest terms; the well-formedness invariant says the squared magnitudes
//! of the numerators sum to exactly `pow2(scale)`, which is the statement
//! that the state vector has norm one.

use vstd::prelude::*;
use vstd::arithmetic::power2::{pow2, lemma_pow2_unfold, lemma_pow2_pos, lemma_pow2_adds};
use vstd::arithmetic::div_mod::{lemma_fundamental_div_mod, lemma_fundamental_div_mod_converse};
use crate::amplitude::{
    Amplitude,
    Cpx,
    cadd,
    cmul,
    cconj,
    cnormsq,
    czero,
    views,
    total_weight,
    lemma_cnormsq_nonneg,
    lemma_total_weight_nonneg,
    lemma_total_weight_split,
    lemma_total_weight_update,
    lemma_element_weight_le_total,
    lemma_unitary_pair_weight,
    lemma_product_bound,
};

verus! {

/// The largest supported denominator exponent: amplitudes are numerators
/// over `sqrt(2)^scale` with `scale` at most this. The bound keeps every
/// numerator component within `pow2(31)` and every Born weight within
/// `pow2(62)`, so all executable arithmetic fits in 64-bit machine words.
pub const MAX_SCALE: u32 = 62;

/// The mathematical value of a state: the amplitude numerators and the
/// denominator exponent (the amplitude at index `i` is
/// `amps[i] / sqrt(2)^scale`).
pub ghost struct SpecState {
    pub amps: Seq<Cpx>,
    pub scale: nat,
}

/// The floor base-two logarithm.
pub open spec fn spec_log2(n: nat) -> nat
    decreases n,
{
    if n <= 1 {
        0
    } else {
        1 + spec_log2(n / 2)
    }
}

/// All numerator components are even, so the whole vector can be divided
/// by two (two steps of `sqrt(2)`).
pub open spec fn all_even(s: Seq<Cpx>) -> bool {
    forall|j: int| 0 <= j < s.len() ==> (#[trigger] s[j]).re % 2 == 0 && s[j].im % 2 == 0
}

/// Divides every numerator component by two.
pub open spec fn halve_amps(s: Seq<Cpx>) -> Seq<Cpx> {
    Seq::new(s.len(), |j: int| Cpx { re: s[j].re / 2, im: s[j].im / 2 })
}

/// The canonical (lowest-terms) form of a state: while the denominator has
/// at least a whole factor of two and all numerators are even, cancel it.
pub open spec fn spec_reduce(st: SpecState) -> SpecState
    decreases st.scale,
{
    if st.scale >= 2 && all_even(st.amps) {
        spec_reduce(SpecState { amps: halve_amps(st.amps), scale: (st.scale - 2) as nat })
    } else {
        st
    }
}

/// The amplitude vector of the basis state `idx`: numerator one at `idx`,
/// zero elsewhere.
pub open spec fn basis_amps(len: nat, idx: int) -> Seq<Cpx> {
    Seq::new(len, |j: int| if j == idx { Cpx { re: 1, im: 0 } } else { czero() })
}

/// Represents the state of a quantum system: a vector of exact complex
/// amplitudes over a common power-of-`sqrt(2)` denominator.
#[derive(Clone, Debug)]
pub struct State {
    amplitudes: Vec<Amplitude>,
    scale: u32,
}

impl View for State {
    type V = SpecState;

    closed spec fn view(&self) -> SpecState {
        SpecState { amps: views(self.amplitudes@), scale: self.scale as nat }
    }
}

impl State {
    /// The number of qubits this state represents.
    pub open spec fn qubits(&self) -> nat {
        spec_log2(self@.amps.len())
    }

    /// Norm correctness: the squared numerator magnitudes sum to exactly
    /// `pow2(scale)`, i.e. the Born probabilities sum to one.
    pub open spec fn normed(&self) -> bool {
        &&& total_weight(self@.amps) == pow2(self@.scale)
        &&& self@.scale <= MAX_SCALE
    }

    /// Well-formedness: a power-of-two number of amplitudes, unit norm, and
    /// the denominator in lowest terms.
    pub open spec fn wf(&self) -> bool {
        &&& self@.amps.len() == pow2(self.qubits())
        &&& self@.amps.len() >= 1
        &&& self.normed()
        &&& self@.scale >= 2 ==> !all_even(self@.amps)
    }

    /// Creates a new quantum state with the specified number of amplitudes,
    /// initialized to zero. The result carries no probability weight yet;
    /// it becomes a usable state once a basis amplitude is seeded.
    pub fn new(n: usize) -> (r: State)
        ensures
            r@.amps.len() == n,
            forall|j: int| 0 <= j < n ==> r@.amps[j] == czero(),
            r@.scale == 0,
    {
        let mut amplitudes: Vec<Amplitude> = Vec::new();
        let mut i: usize = 0;
        while i < n
            invariant
                i <= n,
                amplitudes@.len() == i,
                forall|j: int| 0 <= j < i ==> amplitudes@[j] == (Amplitude { re: 0, im: 0 }),
            decreases n - i,
        {
            amplitudes.push(Amplitude { re: 0, im: 0 });
            i = i + 1;
        }
        proof {
            assert forall|j: int| 0 <= j < n implies views(amplitudes@)[j] == czero() by {
                assert(views(amplitudes@)[j] == amplitudes@[j]@);
            }
        }
        State { amplitudes, scale: 0 }
    }

    /// Creates the `n`-qubit basis state with the given basis index:
    /// amplitude one at `index`, zero elsewhere, `pow2(n)` amplitudes.
    pub fn from_basis_index(n: usize, index: usize) -> (r: State)
        requires
            pow2(n as nat) <= usize::MAX,
            index < pow2(n as nat),
        ensures
            r@.amps == basis_amps(pow2(n as nat), index as int),
            r@.scale == 0,
            total_weight(r@.amps) == 1,
            r.wf(),
            r.qubits() == n,
    {
        let len = pow2_usize(n);
        proof {
            lemma_log2_pow2(n as nat);
        }
        State::seed_basis(len, index)
    }

    /// Creates the basis state with the given amplitude-vector length and
    /// basis index: numerator one at `index`, zero elsewhere.
    fn seed_basis(len: usize, index: usize) -> (r: State)
        requires
            index < len,
        ensures
            r@.amps == basis_amps(len as nat, index as int),
            r@.scale == 0,
            total_weight(r@.amps) == 1,
            len == pow2(spec_log2(len as nat)) ==> r.wf(),
    {
        let mut st = State::new(len);
        let ghost pre = st.amplitudes@;
        st.amplitudes.set(index, Amplitude { re: 1, im: 0 });
        proof {
            assert forall|j: int| 0 <= j < len implies views(st.amplitudes@)[j] == basis_amps(
                len as nat,
                index as int,
            )[j] by {
                assert(views(st.amplitudes@)[j] == st.amplitudes@[j]@);
                if j == index {
                    assert(st.amplitudes@[j] == (Amplitude { re: 1, im: 0 }));
                } else {
                    assert(st.amplitudes@[j] == pre[j]);
                    assert(views(pre)[j] == czero());
                    assert(pre[j]@ == czero());
                }
            }
            assert(views(st.amplitudes@) =~= basis_amps(len as nat, index as int));
            lemma_basis_total(len as nat, index as int);
            assert(pow2(0) == 1) by {
                vstd::arithmetic::power2::lemma2_to64();
            }
            lemma_pow2_pos(spec_log2(len as nat));
        }
        st
    }

    /// Creates a quantum state seeded from a classical register: the
    /// register's width gives the amplitude-vector length, all amplitudes
    /// are zero except the one at the basis index given by the register's
    /// value, which is set to one.
    pub fn from_cr(cr: &crate::registers::ClassicalRegister) -> (r: State)
        requires
            crate::registers::spec_value(cr@) <= u32::MAX,
            crate::registers::spec_value(cr@) < cr@.len(),
        ensures
            r@.amps == basis_amps(cr@.len(), crate::registers::spec_value(cr@) as int),
            r@.scale == 0,
            total_weight(r@.amps) == 1,
            cr@.len() == pow2(spec_log2(cr@.len())) ==> r.wf(),
    {
        let v = cr.value();
        State::seed_basis(cr.len(), v as usize)
    }

    /// Returns a snapshot of the amplitude numerators.
    pub fn amplitudes(&self) -> (r: Vec<Amplitude>)
        ensures
            views(r@) == self@.amps,
    {
        let mut out: Vec<Amplitude> = Vec::new();
        let mut i: usize = 0;
        while i < self.amplitudes.len()
            invariant
                i <= self.amplitudes@.len(),
                out@.len() == i,
                forall|j: int| 0 <= j < i ==> out@[j] == self.amplitudes@[j],
            decreases self.amplitudes@.len() - i,
        {
            out.push(self.amplitudes[i]);
            i = i + 1;
        }
        proof {
            assert(out@ =~= self.amplitudes@);
            assert(views(out@) =~= views(self.amplitudes@));
        }
        out
    }

    /// Returns the denominator exponent: the stored numerators are over
    /// `sqrt(2)` to this power.
    pub fn scale(&self) -> (r: u32)
        ensures
            r as nat == self@.scale,
    {
        self.scale
    }

    /// Returns the number of qubits represented by the quantum state.
    pub fn get_qubit_count(&self) -> (r: usize)
        requires
            self@.amps.len() >= 1,
        ensures
            r as nat == self.qubits(),
    {
        let mut x: usize = self.amplitudes.len();
        let mut m: usize = 0;
        proof {
            assert(views(self.amplitudes@).len() == self.amplitudes@.len());
            assert(pow2(0) == 1) by {
                vstd::arithmetic::power2::lemma2_to64();
            }
        }
        while x > 1
            invariant
                x >= 1,
                x as nat * pow2(m as nat) <= self@.amps.len(),
                pow2(m as nat) <= self@.amps.len(),
                self@.amps.len() <= usize::MAX,
                spec_log2(self@.amps.len()) == m + spec_log2(x as nat),
            decreases x,
        {
            proof {
                lemma_pow2_unfold((m + 1) as nat);
                lemma_pow2_pos(m as nat);
                let xn = x as nat;
                assert((xn / 2) * pow2((m + 1) as nat) <= xn * pow2(m as nat))
                    by (nonlinear_arith)
                    requires
                        xn >= 2,
                        pow2((m + 1) as nat) == 2 * pow2(m as nat),
                        pow2(m as nat) >= 1,
                ;
                assert(pow2((m + 1) as nat) <= (xn / 2) * pow2((m + 1) as nat))
                    by (nonlinear_arith)
                    requires
                        xn >= 2,
                        pow2((m + 1) as nat) >= 1,
                ;
            }
            proof {
                if m >= 64 {
                    if m > 64 {
                        vstd::arithmetic::power2::lemma_pow2_strictly_increases(64, m as nat);
                    }
                    vstd::arithmetic::power2::lemma2_to64();
                    assert(false);
                }
            }
            x = x / 2;
            m = m + 1;
        }
        m
    }
}

/// A basis state carries total weight one.
proof fn lemma_basis_total(len: nat, idx: int)
    requires
        0 <= idx < len,
    ensures
        total_weight(basis_amps(len, idx)) == 1,
    decreases len,
{
    let s = basis_amps(len, idx);
    assert(s.len() == len);
    if idx == len - 1 {
        assert(s.drop_last() =~= zero_amps((len - 1) as nat));
        lemma_zero_total((len - 1) as nat);
        assert(s.last() == (Cpx { re: 1, im: 0 }));
        assert(cnormsq(s.last()) == 1 * 1 + 0 * 0);
    } else {
        assert(s.drop_last() =~= basis_amps((len - 1) as nat, idx));
        lemma_basis_total((len - 1) as nat, idx);
        assert(s.last() == czero());
        assert(cnormsq(s.last()) == 0 * 0 + 0 * 0);
    }
}

/// An all-zero amplitude vector.
pub open spec fn zero_amps(len: nat) -> Seq<Cpx> {
    Seq::new(len, |j: int| czero())
}

proof fn lemma_zero_total(len: nat)
    ensures
        total_weight(zero_amps(len)) == 0,
    decreases len,
{
    let s = zero_amps(len);
    assert(s.len() == len);
    if len > 0 {
        assert(s.drop_last() =~= zero_amps((len - 1) as nat));
        lemma_zero_total((len - 1) as nat);
        assert(s.last() == czero());
        assert(cnormsq(s.last()) == 0 * 0 + 0 * 0);
        assert(total_weight(s) == total_weight(s.drop_last()) + cnormsq(s.last()));
    } else {
        assert(total_weight(s) == 0);
    }
}

/// `spec_log2` inverts `pow2`.
pub proof fn lemma_log2_pow2(n: nat)
    ensures
        spec_log2(pow2(n)) == n,
    decreases n,
{
    lemma_pow2_pos(n);
    if n == 0 {
        assert(pow2(0) == 1) by {
            vstd::arithmetic::power2::lemma2_to64();
        }
    } else {
        lemma_log2_pow2((n - 1) as nat);
        lemma_pow2_unfold(n);
        lemma_pow2_pos((n - 1) as nat);
        assert(pow2(n) == 2 * pow2((n - 1) as nat));
        assert(pow2(n) / 2 == pow2((n - 1) as nat)) by {
            lemma_fundamental_div_mod_converse(
                pow2(n) as int,
                2,
                pow2((n - 1) as nat) as int,
                0,
            );
        }
        assert(pow2(n) > 1);
    }
}

/// Whether bit `p` (counting from the least significant bit) of the basis
/// index `j` is one: whether qubit `n - p` of an `n`-qubit register is in
/// state one at this basis index.
pub open spec fn bit_set(j: int, p: nat) -> bool {
    (j / (pow2(p) as int)) % 2 == 1
}

/// The mathematical value of a 2x2 gate matrix: four Gaussian-integer
/// entries over a denominator of `sqrt(2)^scale`.
pub ghost struct SpecGate {
    pub e00: Cpx,
    pub e01: Cpx,
    pub e10: Cpx,
    pub e11: Cpx,
    pub scale: nat,
}

/// Unitarity of a gate matrix, scaled: the columns are orthogonal and each
/// has squared norm `pow2(scale)`, so the true matrix (entries divided by
/// `sqrt(2)^scale`) is unitary.
pub open spec fn gate_unitary(g: SpecGate) -> bool {
    &&& cnormsq(g.e00) + cnormsq(g.e10) == pow2(g.scale)
    &&& cnormsq(g.e01) + cnormsq(g.e11) == pow2(g.scale)
    &&& cadd(cmul(cconj(g.e00), g.e01), cmul(cconj(g.e10), g.e11)) == czero()
}

/// A single-qubit gate: a 2x2 matrix of exact complex numerators over a
/// common denominator of `sqrt(2)^scale`.
#[derive(Clone, Copy, Debug)]
pub struct Gate {
    pub e00: Amplitude,
    pub e01: Amplitude,
    pub e10: Amplitude,
    pub e11: Amplitude,
    pub scale: u32,
}

impl View for Gate {
    type V = SpecGate;

    open spec fn view(&self) -> SpecGate {
        SpecGate {
            e00: self.e00@,
            e01: self.e01@,
            e10: self.e10@,
            e11: self.e11@,
            scale: self.scale as nat,
        }
    }
}

/// The result of expanding a single-qubit gate to the full register by a
/// tensor product with the identity on every other qubit, and applying the
/// expanded operator to the amplitude vector. Each basis index `j` is
/// paired with the index that differs in bit `p` alone, and the 2x2 matrix
/// acts on each such pair of amplitudes.
pub open spec fn apply1_spec(amps: Seq<Cpx>, g: SpecGate, p: nat) -> Seq<Cpx> {
    Seq::new(
        amps.len(),
        |j: int|
            if !bit_set(j, p) {
                cadd(cmul(g.e00, amps[j]), cmul(g.e01, amps[j + pow2(p)]))
            } else {
                cadd(cmul(g.e10, amps[j - pow2(p)]), cmul(g.e11, amps[j]))
            },
    )
}

/// Decomposes `j` as `q * pow2(p) + r`.
proof fn lemma_bit_parts(j: int, p: nat)
    requires
        j >= 0,
    ensures
        j == (j / (pow2(p) as int)) * (pow2(p) as int) + (j % (pow2(p) as int)),
        0 <= j % (pow2(p) as int) < pow2(p),
        j / (pow2(p) as int) >= 0,
        bit_set(j, p) == ((j / (pow2(p) as int)) % 2 == 1),
{
    lemma_pow2_pos(p);
    let pp = pow2(p) as int;
    lemma_fundamental_div_mod(j, pp);
    vstd::arithmetic::div_mod::lemma_mod_bound(j, pp);
    vstd::arithmetic::div_mod::lemma_div_pos_is_pos(j, pp);
}

/// The parity of a successor flips.
proof fn lemma_parity_succ(q: int)
    requires
        q >= 0,
    ensures
        q % 2 == 0 ==> (q + 1) % 2 == 1,
        q % 2 == 1 ==> (q + 1) % 2 == 0,
        0 <= q % 2 <= 1,
{
    lemma_fundamental_div_mod(q, 2);
    vstd::arithmetic::div_mod::lemma_mod_bound(q, 2);
    let u = q / 2;
    if q % 2 == 0 {
        lemma_fundamental_div_mod_converse(q + 1, 2, u, 1);
    } else {
        lemma_fundamental_div_mod_converse(q + 1, 2, u + 1, 0);
    }
}

/// Moving up by `pow2(p)` from a bit-`p`-clear index sets bit `p`;
/// moving down by `pow2(p)` from a bit-`p`-set index clears it.
proof fn lemma_bit_flip(j: int, p: nat)
    requires
        j >= 0,
    ensures
        !bit_set(j, p) ==> bit_set(j + pow2(p), p),
        bit_set(j, p) ==> j >= pow2(p) && !bit_set(j - pow2(p), p),
{
    lemma_bit_parts(j, p);
    lemma_pow2_pos(p);
    let pp = pow2(p) as int;
    let q = j / pp;
    let r = j % pp;
    lemma_parity_succ(q);
    if !bit_set(j, p) {
        assert(j + pp == (q + 1) * pp + r) by (nonlinear_arith)
            requires
                j == q * pp + r,
        ;
        lemma_fundamental_div_mod_converse(j + pp, pp, q + 1, r);
        assert((j + pp) / pp == q + 1);
    } else {
        assert(q % 2 == 1);
        assert(q >= 1);
        assert(j >= 1 * pp + r) by (nonlinear_arith)
            requires
                j == q * pp + r && q >= 1 && pp > 0,
        ;
        assert(j - pp == (q - 1) * pp + r) by (nonlinear_arith)
            requires
                j == q * pp + r,
        ;
        lemma_fundamental_div_mod_converse(j - pp, pp, q - 1, r);
        assert((j - pp) / pp == q - 1);
        lemma_parity_succ(q - 1);
        assert((q - 1) % 2 == 0);
    }
}

/// Bit `p` is unchanged by moving a whole block of size `pow2(p + 1)`.
proof fn lemma_bit_shift_block(j: int, p: nat)
    requires
        j >= 0,
    ensures
        bit_set(j + pow2(p + 1), p) == bit_set(j, p),
{
    lemma_bit_parts(j, p);
    lemma_pow2_pos(p);
    lemma_pow2_unfold(p + 1);
    let pp = pow2(p) as int;
    let q = j / pp;
    let r = j % pp;
    assert(j + pow2(p + 1) == (q + 2) * pp + r) by (nonlinear_arith)
        requires
            j == q * pp + r && pow2(p + 1) == 2 * pow2(p) && pp == pow2(p),
    ;
    lemma_fundamental_div_mod_converse(j + pow2(p + 1), pp, q + 2, r);
    vstd::arithmetic::div_mod::lemma_mod_multiples_vanish(1, q, 2);
    assert((q + 2) % 2 == q % 2);
}

/// Within bounds that are a whole number of blocks, the partner index of a
/// bit-`p`-clear index stays in bounds.
proof fn lemma_bit_partner_in_range(j: int, p: nat, len: int)
    requires
        0 <= j < len,
        len % (pow2(p + 1) as int) == 0,
        !bit_set(j, p),
    ensures
        j + pow2(p) < len,
{
    lemma_pow2_pos(p);
    lemma_pow2_pos(p + 1);
    lemma_pow2_unfold(p + 1);
    let pp = pow2(p) as int;
    let bb = pow2(p + 1) as int;
    lemma_bit_parts(j, p);
    let q = j / pp;
    let r = j % pp;
    let c = len / bb;
    lemma_fundamental_div_mod(len, bb);
    assert(len == c * bb);
    assert(q % 2 == 0);
    lemma_fundamental_div_mod(q, 2);
    let u = q / 2;
    assert(q == 2 * u);
    // j == 2u * pp + r < len == c * 2 * pp, so u < c, so q + 1 <= 2c - 1.
    assert(u < c) by (nonlinear_arith)
        requires
            (2 * u) * pp + r < c * (2 * pp),
            r >= 0,
            pp > 0,
            u >= 0,
    ;
    assert(j + pp == (2 * u + 1) * pp + r) by (nonlinear_arith)
        requires
            j == (2 * u) * pp + r,
    ;
    assert((2 * u + 1) * pp + r < (2 * c) * pp) by (nonlinear_arith)
        requires
            u < c && r < pp && pp > 0 && u >= 0,
    ;
    assert((2 * c) * pp == c * (2 * pp)) by (nonlinear_arith);
}

/// Applying a gate commutes with splitting the vector at a whole block
/// boundary.
proof fn lemma_apply1_peel(s: Seq<Cpx>, g: SpecGate, p: nat)
    requires
        s.len() % (pow2(p + 1) as nat) == 0,
        s.len() >= pow2(p + 1),
    ensures
        apply1_spec(s, g, p).take(pow2(p + 1) as int) == apply1_spec(
            s.take(pow2(p + 1) as int),
            g,
            p,
        ),
        apply1_spec(s, g, p).skip(pow2(p + 1) as int) == apply1_spec(
            s.skip(pow2(p + 1) as int),
            g,
            p,
        ),
{
    lemma_pow2_pos(p);
    lemma_pow2_pos(p + 1);
    lemma_pow2_unfold(p + 1);
    let bb = pow2(p + 1) as int;
    let pp = pow2(p) as int;
    let whole = apply1_spec(s, g, p);
    // take part
    assert forall|j: int| 0 <= j < bb implies whole.take(bb)[j] == apply1_spec(
        s.take(bb),
        g,
        p,
    )[j] by {
        assert(bb % bb == 0) by {
            vstd::arithmetic::div_mod::lemma_mod_self_0(bb);
        }
        lemma_bit_parts(j, p);
        if !bit_set(j, p) {
            lemma_bit_partner_in_range(j, p, bb);
            assert(s.take(bb)[j + pp] == s[j + pp]);
        } else {
            lemma_bit_flip(j, p);
            assert(s.take(bb)[j - pp] == s[j - pp]);
        }
    }
    assert(whole.take(bb) =~= apply1_spec(s.take(bb), g, p));
    // skip part
    let rest = s.skip(bb);
    assert((s.len() - bb) % (pow2(p + 1) as int) == 0) by {
        vstd::arithmetic::div_mod::lemma_mod_sub_multiples_vanish(s.len() as int, bb);
    }
    assert forall|j: int| 0 <= j < s.len() - bb implies whole.skip(bb)[j] == apply1_spec(
        rest,
        g,
        p,
    )[j] by {
        lemma_bit_shift_block(j, p);
        assert(whole.skip(bb)[j] == whole[j + bb]);
        assert(bit_set(j + bb, p) == bit_set(j, p));
        if !bit_set(j, p) {
            lemma_bit_partner_in_range(j, p, (s.len() - bb) as int);
            assert(rest[j] == s[j + bb]);
            assert(rest[j + pp] == s[j + bb + pp]);
        } else {
            lemma_bit_flip(j, p);
            assert(rest[j] == s[j + bb]);
            assert(rest[j - pp] == s[j + bb - pp]);
        }
    }
    assert(whole.skip(bb) =~= apply1_spec(rest, g, p));
}

/// The low output half of one block: the first matrix row applied to the
/// paired halves.
spec fn row_lo(g: SpecGate, u: Seq<Cpx>, v: Seq<Cpx>) -> Seq<Cpx> {
    Seq::new(u.len(), |o: int| cadd(cmul(g.e00, u[o]), cmul(g.e01, v[o])))
}

/// The high output half of one block: the second matrix row applied to the
/// paired halves.
spec fn row_hi(g: SpecGate, u: Seq<Cpx>, v: Seq<Cpx>) -> Seq<Cpx> {
    Seq::new(u.len(), |o: int| cadd(cmul(g.e10, u[o]), cmul(g.e11, v[o])))
}

/// Inside a single block, a gate acts as the two matrix rows on the
/// block's halves.
proof fn lemma_apply1_block(s: Seq<Cpx>, g: SpecGate, p: nat)
    requires
        s.len() == pow2(p + 1),
    ensures
        apply1_spec(s, g, p) == row_lo(g, s.take(pow2(p) as int), s.skip(pow2(p) as int)) + row_hi(
            g,
            s.take(pow2(p) as int),
            s.skip(pow2(p) as int),
        ),
{
    lemma_pow2_pos(p);
    lemma_pow2_unfold(p + 1);
    let pp = pow2(p) as int;
    let u = s.take(pp);
    let v = s.skip(pp);
    let lhs = apply1_spec(s, g, p);
    let rhs = row_lo(g, u, v) + row_hi(g, u, v);
    assert forall|j: int| 0 <= j < s.len() implies lhs[j] == rhs[j] by {
        lemma_bit_parts(j, p);
        let q = j / pp;
        assert(q < 2) by (nonlinear_arith)
            requires
                j == q * pp + (j % pp) && j < 2 * pp && j % pp >= 0 && pp > 0 && q >= 0,
        ;
        if j < pp {
            assert(q == 0) by (nonlinear_arith)
                requires
                    j == q * pp + (j % pp) && j < pp && j % pp >= 0 && 0 <= q < 2 && pp > 0,
            ;
            assert(!bit_set(j, p));
            assert(u[j] == s[j]);
            assert(v[j] == s[j + pp]);
            assert(rhs[j] == row_lo(g, u, v)[j]);
        } else {
            assert(q == 1) by (nonlinear_arith)
                requires
                    j == q * pp + (j % pp) && j >= pp && j % pp < pp && 0 <= q < 2 && pp > 0,
            ;
            assert(bit_set(j, p));
            assert(u[j - pp] == s[j - pp]);
            assert(v[j - pp] == s[j]);
            assert(rhs[j] == row_hi(g, u, v)[j - pp]);
        }
    }
    assert(lhs =~= rhs);
}

/// A unitary matrix applied rowwise to paired halves scales their combined
/// weight by exactly `pow2(scale)`.
proof fn lemma_rows_weight(g: SpecGate, u: Seq<Cpx>, v: Seq<Cpx>)
    requires
        gate_unitary(g),
        u.len() == v.len(),
    ensures
        total_weight(row_lo(g, u, v)) + total_weight(row_hi(g, u, v)) == pow2(g.scale) * (
        total_weight(u) + total_weight(v)),
    decreases u.len(),
{
    if u.len() == 0 {
        assert(row_lo(g, u, v).len() == 0);
        assert(row_hi(g, u, v).len() == 0);
        assert(pow2(g.scale) * 0 == 0) by (nonlinear_arith);
    } else {
        let u1 = u.drop_last();
        let v1 = v.drop_last();
        lemma_rows_weight(g, u1, v1);
        assert(row_lo(g, u, v).drop_last() =~= row_lo(g, u1, v1));
        assert(row_hi(g, u, v).drop_last() =~= row_hi(g, u1, v1));
        lemma_unitary_pair_weight(g.e00, g.e01, g.e10, g.e11, g.scale, u.last(), v.last());
        assert(row_lo(g, u, v).last() == cadd(cmul(g.e00, u.last()), cmul(g.e01, v.last())));
        assert(row_hi(g, u, v).last() == cadd(cmul(g.e10, u.last()), cmul(g.e11, v.last())));
        let a = total_weight(u1) + total_weight(v1);
        let b = cnormsq(u.last()) + cnormsq(v.last());
        assert(pow2(g.scale) * a + pow2(g.scale) * b == pow2(g.scale) * (a + b))
            by (nonlinear_arith);
    }
}

/// Norm preservation: expanding a unitary single-qubit gate over the whole
/// register scales the total Born weight by exactly `pow2(g.scale)`.
pub proof fn lemma_apply1_weight(s: Seq<Cpx>, g: SpecGate, p: nat)
    requires
        gate_unitary(g),
        s.len() % (pow2(p + 1) as nat) == 0,
    ensures
        total_weight(apply1_spec(s, g, p)) == pow2(g.scale) * total_weight(s),
    decreases s.len(),
{
    lemma_pow2_pos(p + 1);
    let bb = pow2(p + 1) as int;
    if s.len() == 0 {
        assert(apply1_spec(s, g, p).len() == 0);
        assert(pow2(g.scale) * 0 == 0) by (nonlinear_arith);
    } else {
        assert(s.len() >= bb) by {
            lemma_fundamental_div_mod(s.len() as int, bb);
            let c = s.len() as int / bb;
            assert(s.len() == c * bb);
            vstd::arithmetic::div_mod::lemma_div_pos_is_pos(s.len() as int, bb);
            assert(c >= 1) by (nonlinear_arith)
                requires
                    c * bb > 0 && bb > 0 && c >= 0,
            ;
            assert(c * bb >= 1 * bb) by (nonlinear_arith)
                requires
                    c >= 1 && bb > 0,
            ;
        }
        let whole = apply1_spec(s, g, p);
        lemma_apply1_peel(s, g, p);
        lemma_total_weight_split(whole, bb);
        lemma_pow2_pos(p);
        lemma_pow2_unfold(p + 1);
        // first block
        let blk = s.take(bb);
        let u = blk.take(pow2(p) as int);
        let v = blk.skip(pow2(p) as int);
        assert(blk.len() == pow2(p + 1));
        lemma_apply1_block(blk, g, p);
        let lo = row_lo(g, u, v);
        let hi = row_hi(g, u, v);
        lemma_total_weight_split(lo + hi, lo.len() as int);
        assert((lo + hi).take(lo.len() as int) =~= lo);
        assert((lo + hi).skip(lo.len() as int) =~= hi);
        lemma_rows_weight(g, u, v);
        lemma_total_weight_split(blk, pow2(p) as int);
        // rest
        assert((s.len() - bb) % (pow2(p + 1) as int) == 0) by {
            vstd::arithmetic::div_mod::lemma_mod_sub_multiples_vanish(s.len() as int, bb);
        }
        lemma_apply1_weight(s.skip(bb), g, p);
        lemma_total_weight_split(s, bb);
        let tb = total_weight(blk);
        let tr = total_weight(s.skip(bb));
        assert(pow2(g.scale) * tb + pow2(g.scale) * tr == pow2(g.scale) * (tb + tr))
            by (nonlinear_arith);
    }
}

/// A power of two is divisible by every smaller power of two.
proof fn lemma_pow2_mod_zero(a: nat, b: nat)
    requires
        a <= b,
    ensures
        pow2(b) % (pow2(a) as nat) == 0,
{
    lemma_pow2_pos(a);
    lemma_pow2_adds((b - a) as nat, a);
    vstd::arithmetic::div_mod::lemma_mod_multiples_basic(
        pow2((b - a) as nat) as int,
        pow2(a) as int,
    );
}

/// Halving an all-even vector divides its total weight by four.
proof fn lemma_halve_total(s: Seq<Cpx>)
    requires
        all_even(s),
    ensures
        4 * total_weight(halve_amps(s)) == total_weight(s),
    decreases s.len(),
{
    if s.len() > 0 {
        assert(halve_amps(s).drop_last() =~= halve_amps(s.drop_last()));
        assert(all_even(s.drop_last())) by {
            assert(forall|j: int|
                0 <= j < s.len() - 1 ==> s.drop_last()[j] == (#[trigger] s[j]));
        }
        lemma_halve_total(s.drop_last());
        let c = s.last();
        let h = halve_amps(s).last();
        assert(c.re % 2 == 0 && c.im % 2 == 0);
        assert(h == (Cpx { re: c.re / 2, im: c.im / 2 }));
        lemma_fundamental_div_mod(c.re, 2);
        lemma_fundamental_div_mod(c.im, 2);
        assert(c.re == 2 * (c.re / 2));
        assert(c.im == 2 * (c.im / 2));
        assert(4 * cnormsq(h) == cnormsq(c)) by (nonlinear_arith)
            requires
                c.re == 2 * h.re && c.im == 2 * h.im,
        ;
    }
}

/// The canonical form keeps the vector length, keeps the exact norm
/// equation, never raises the denominator, and is in lowest terms.
pub proof fn lemma_spec_reduce_props(st: SpecState)
    requires
        total_weight(st.amps) == pow2(st.scale),
    ensures
        spec_reduce(st).amps.len() == st.amps.len(),
        total_weight(spec_reduce(st).amps) == pow2(spec_reduce(st).scale),
        spec_reduce(st).scale <= st.scale,
        spec_reduce(st).scale >= 2 ==> !all_even(spec_reduce(st).amps),
    decreases st.scale,
{
    if st.scale >= 2 && all_even(st.amps) {
        let next = SpecState { amps: halve_amps(st.amps), scale: (st.scale - 2) as nat };
        lemma_halve_total(st.amps);
        lemma_pow2_adds((st.scale - 2) as nat, 2);
        assert(pow2(2) == 4) by {
            vstd::arithmetic::power2::lemma2_to64();
        }
        assert(4 * total_weight(next.amps) == 4 * pow2(next.scale));
        lemma_spec_reduce_props(next);
    }
}

impl State {
    /// Tests whether every numerator component in the vector is even.
    fn all_components_even(v: &Vec<Amplitude>) -> (r: bool)
        ensures
            r == all_even(views(v@)),
    {
        let mut i: usize = 0;
        while i < v.len()
            invariant
                i <= v@.len(),
                forall|j: int|
                    0 <= j < i ==> (#[trigger] v@[j]).re as int % 2 == 0 && v@[j].im as int % 2
                        == 0,
            decreases v@.len() - i,
        {
            if v[i].re % 2 != 0 || v[i].im % 2 != 0 {
                proof {
                    assert(views(v@)[i as int] == v@[i as int]@);
                }
                return false;
            }
            i = i + 1;
        }
        proof {
            assert forall|j: int| 0 <= j < views(v@).len() implies (#[trigger] views(v@)[j]).re % 2
                == 0 && views(v@)[j].im % 2 == 0 by {
                assert(views(v@)[j] == v@[j]@);
            }
        }
        true
    }

    /// Divides every numerator component by two; exact because all
    /// components are even.
    fn halved(v: &Vec<Amplitude>) -> (r: Vec<Amplitude>)
        requires
            all_even(views(v@)),
        ensures
            views(r@) == halve_amps(views(v@)),
    {
        let mut out: Vec<Amplitude> = Vec::new();
        let mut i: usize = 0;
        while i < v.len()
            invariant
                i <= v@.len(),
                all_even(views(v@)),
                out@.len() == i,
                forall|j: int|
                    0 <= j < i ==> 2 * ((#[trigger] out@[j]).re as int) == v@[j].re as int && 2 * (
                    out@[j].im as int) == v@[j].im as int,
            decreases v@.len() - i,
        {
            let a = v[i];
            proof {
                assert(views(v@)[i as int] == a@);
            }
            let hr = a.re / 2;
            let him = a.im / 2;
            out.push(Amplitude { re: hr, im: him });
            i = i + 1;
        }
        proof {
            assert forall|j: int| 0 <= j < v@.len() implies views(out@)[j] == halve_amps(
                views(v@),
            )[j] by {
                assert(views(out@)[j] == out@[j]@);
                assert(views(v@)[j] == v@[j]@);
                lemma_fundamental_div_mod_converse(
                    v@[j].re as int,
                    2,
                    out@[j].re as int,
                    0,
                );
                lemma_fundamental_div_mod_converse(
                    v@[j].im as int,
                    2,
                    out@[j].im as int,
                    0,
                );
            }
            assert(views(out@) =~= halve_amps(views(v@)));
        }
        out
    }

    /// Brings the state to lowest terms: while the denominator carries a
    /// whole factor of two and all numerators are even, cancel it.
    fn reduce(&mut self)
        requires
            total_weight(old(self)@.amps) == pow2(old(self)@.scale),
            old(self)@.scale <= MAX_SCALE,
        ensures
            final(self)@ == spec_reduce(old(self)@),
            final(self).normed(),
            final(self)@.amps.len() == old(self)@.amps.len(),
            final(self)@.scale >= 2 ==> !all_even(final(self)@.amps),
            final(self)@.scale <= old(self)@.scale,
    {
        let ghost orig = self@;
        proof {
            lemma_spec_reduce_props(orig);
        }
        let mut go: bool = self.scale >= 2 && State::all_components_even(&self.amplitudes);
        while go
            invariant
                go == (self@.scale >= 2 && all_even(self@.amps)),
                total_weight(self@.amps) == pow2(self@.scale),
                self@.scale <= orig.scale <= MAX_SCALE,
                spec_reduce(self@) == spec_reduce(orig),
            decreases self@.scale,
        {
            let ghost before = self@;
            self.amplitudes = State::halved(&self.amplitudes);
            self.scale = self.scale - 2;
            proof {
                lemma_halve_total(before.amps);
                lemma_pow2_adds((before.scale - 2) as nat, 2);
                assert(pow2(2) == 4) by {
                    vstd::arithmetic::power2::lemma2_to64();
                }
                assert(4 * total_weight(self@.amps) == 4 * pow2(self@.scale));
                assert(spec_reduce(before) == spec_reduce(self@));
            }
            go = self.scale >= 2 && State::all_components_even(&self.amplitudes);
        }
        proof {
            assert(spec_reduce(self@) == self@);
            lemma_spec_reduce_props(orig);
        }
    }

    /// Applies a quantum gate to the specified target qubit (1-based,
    /// qubit 1 at the most significant bit of the basis index).
    ///
    /// The given 2x2 matrix is expanded to the full `2^n`-dimensional operator as the
    /// tensor product of identities and the given 2x2 matrix, the operator
    /// multiplies the amplitude vector, and the result is brought back to
    /// lowest terms. Works for user-defined gates as well, as long as the
    /// matrix is unitary.
    pub fn apply_gate_to_qubit(&mut self, gate: &Gate, target_qubit: usize)
        requires
            old(self).wf(),
            1 <= target_qubit <= old(self).qubits(),
            gate_unitary(gate@),
            old(self)@.scale + gate@.scale <= MAX_SCALE,
        ensures
            final(self)@ == spec_reduce(
                SpecState {
                    amps: apply1_spec(
                        old(self)@.amps,
                        gate@,
                        (old(self).qubits() - target_qubit) as nat,
                    ),
                    scale: old(self)@.scale + gate@.scale,
                },
            ),
            final(self).wf(),
            final(self).qubits() == old(self).qubits(),
    {
        let n = self.get_qubit_count();
        let p = n - target_qubit;
        let ghost pn = p as nat;
        let ghost oldamps = self@.amps;
        let ghost k = self@.scale;
        let ghost s = gate@.scale;
        let len = self.amplitudes.len();
        proof {
            vstd::arithmetic::power2::lemma_pow2_strictly_increases(pn, self.qubits());
            lemma_pow2_mod_zero(pn + 1, self.qubits());
            lemma_pow2_pos(pn);
            lemma_pow2_pos(pn + 1);
        }
        let pw = pow2_usize(p);
        let ghost target = apply1_spec(oldamps, gate@, pn);
        let mut out: Vec<Amplitude> = Vec::new();
        let mut j: usize = 0;
        while j < len
            invariant
                j <= len,
                len == self.amplitudes@.len(),
                oldamps == self@.amps,
                k == self@.scale,
                s == gate@.scale,
                self.wf(),
                k + s <= MAX_SCALE,
                gate_unitary(gate@),
                pw == pow2(pn),
                pw >= 1,
                pn < self.qubits(),
                len == pow2(self.qubits()),
                (len as int) % (pow2(pn + 1) as int) == 0,
                out@.len() == j,
                target == apply1_spec(oldamps, gate@, pn),
                views(out@) == apply1_spec(oldamps, gate@, pn).take(j as int),
            decreases len - j,
        {
            let bit1: bool = (j / pw) % 2 == 1;
            proof {
                assert(bit1 == bit_set(j as int, pn));
                if bit1 {
                    lemma_bit_flip(j as int, pn);
                } else {
                    lemma_bit_partner_in_range(j as int, pn, len as int);
                }
            }
            let i0: usize = if bit1 { j - pw } else { j };
            let i1: usize = if bit1 { j } else { j + pw };
            let a0 = self.amplitudes[i0];
            let a1 = self.amplitudes[i1];
            let f0 = if bit1 { gate.e10 } else { gate.e00 };
            let f1 = if bit1 { gate.e11 } else { gate.e01 };
            proof {
                assert(views(self.amplitudes@)[i0 as int] == a0@);
                assert(views(self.amplitudes@)[i1 as int] == a1@);
                lemma_element_weight_le_total(oldamps, i0 as int);
                lemma_element_weight_le_total(oldamps, i1 as int);
                lemma_cnormsq_nonneg(gate@.e00);
                lemma_cnormsq_nonneg(gate@.e01);
                lemma_cnormsq_nonneg(gate@.e10);
                lemma_cnormsq_nonneg(gate@.e11);
                lemma_product_bound(f0@, a0@, s, k);
                lemma_product_bound(f1@, a1@, s, k);
            }
            let re = (f0.re * a0.re - f0.im * a0.im) + (f1.re * a1.re - f1.im * a1.im);
            let im = (f0.re * a0.im + f0.im * a0.re) + (f1.re * a1.im + f1.im * a1.re);
            out.push(Amplitude { re, im });
            proof {
                assert(oldamps.len() == len);
                assert(target.len() == len);
                assert(views(out@)[j as int] == (Amplitude { re, im })@);
                assert((Amplitude { re, im })@ == cadd(cmul(f0@, a0@), cmul(f1@, a1@)));
                if bit1 {
                    assert(oldamps[j as int - pow2(pn)] == a0@);
                    assert(oldamps[j as int] == a1@);
                } else {
                    assert(oldamps[j as int] == a0@);
                    assert(oldamps[j as int + pow2(pn)] == a1@);
                }
                assert(target[j as int] == cadd(cmul(f0@, a0@), cmul(f1@, a1@)));
                assert(forall|x: int|
                    0 <= x < j ==> #[trigger] views(out@)[x] == views(out@.drop_last())[x]);
                assert(views(out@) =~= target.take(j + 1));
            }
            j = j + 1;
        }
        proof {
            assert(views(out@) =~= target);
        }
        self.amplitudes = out;
        self.scale = self.scale + gate.scale;
        proof {
            lemma_apply1_weight(oldamps, gate@, pn);
            lemma_pow2_adds(s, k);
            assert(total_weight(self@.amps) == pow2(self@.scale));
        }
        let ghost mid = self@;
        self.reduce();
        proof {
            lemma_spec_reduce_props(mid);
            assert(self@.amps.len() == pow2(old(self).qubits()));
            lemma_log2_pow2(old(self).qubits());
        }
    }
}

/// The basis index reached by flipping bit `pt` of `j`.
pub open spec fn flip_index(j: int, pt: nat) -> int {
    if bit_set(j, pt) {
        j - pow2(pt)
    } else {
        j + pow2(pt)
    }
}

/// The result of a controlled-NOT on the amplitude vector: a basis-index
/// permutation. Every basis state whose control bit is one swaps amplitudes
/// with the state reached by flipping its target bit; states whose control
/// bit is zero are untouched.
pub open spec fn cnot_amps(s: Seq<Cpx>, pc: nat, pt: nat) -> Seq<Cpx> {
    Seq::new(
        s.len(),
        |j: int|
            if bit_set(j, pc) {
                s[flip_index(j, pt)]
            } else {
                s[j]
            },
    )
}

/// The lower index of the target-bit pair that `i` belongs to.
spec fn low_target(i: int, pt: nat) -> int {
    if bit_set(i, pt) {
        i - pow2(pt)
    } else {
        i
    }
}

/// The partially-permuted vector after the controlled-NOT loop has
/// processed all pairs whose lower index is below `limit`.
spec fn cnot_partial(s: Seq<Cpx>, pc: nat, pt: nat, limit: int) -> Seq<Cpx> {
    Seq::new(
        s.len(),
        |i: int|
            if bit_set(i, pc) && low_target(i, pt) < limit {
                s[flip_index(i, pt)]
            } else {
                s[i]
            },
    )
}

/// Flipping bit `pt` leaves every other bit `pc` unchanged (stated for a
/// set-to-clear move; the other direction follows by involution).
proof fn lemma_bit_other(j: int, pt: nat, pc: nat)
    requires
        j >= 0,
        pc != pt,
        !bit_set(j, pt),
    ensures
        bit_set(j + pow2(pt), pc) == bit_set(j, pc),
{
    lemma_pow2_pos(pt);
    lemma_pow2_pos(pc);
    let ppt = pow2(pt) as int;
    let ppc = pow2(pc) as int;
    lemma_bit_parts(j, pc);
    let q = j / ppc;
    let r = j % ppc;
    if pt > pc {
        lemma_pow2_adds((pt - pc) as nat, pc);
        let m = pow2((pt - pc) as nat) as int;
        assert(ppt == m * ppc);
        assert(j + ppt == (q + m) * ppc + r) by (nonlinear_arith)
            requires
                j == q * ppc + r && ppt == m * ppc,
        ;
        lemma_fundamental_div_mod_converse(j + ppt, ppc, q + m, r);
        lemma_pow2_unfold((pt - pc) as nat);
        let half = pow2((pt - pc - 1) as nat) as int;
        assert(m == 2 * half);
        vstd::arithmetic::div_mod::lemma_mod_multiples_vanish(half, q, 2);
        assert((q + m) % 2 == q % 2);
    } else {
        // pt < pc: the move stays inside the pc-aligned block.
        lemma_pow2_adds((pc - pt) as nat, pt);
        let m = pow2((pc - pt) as nat) as int;
        assert(ppc == m * ppt);
        lemma_bit_parts(r, pt);
        let rq = r / ppt;
        let rr = r % ppt;
        // bit pt of j equals bit pt of r
        assert(j == (q * m + rq) * ppt + rr) by (nonlinear_arith)
            requires
                j == q * ppc + r && ppc == m * ppt && r == rq * ppt + rr,
        ;
        lemma_fundamental_div_mod_converse(j, ppt, q * m + rq, rr);
        lemma_pow2_unfold((pc - pt) as nat);
        let mhalf = pow2((pc - pt - 1) as nat) as int;
        assert(m == 2 * mhalf);
        assert(q * m == 2 * (q * mhalf)) by (nonlinear_arith)
            requires
                m == 2 * mhalf,
        ;
        vstd::arithmetic::div_mod::lemma_mod_multiples_vanish(q * mhalf, rq, 2);
        assert((q * m + rq) % 2 == rq % 2);
        assert(!bit_set(r, pt));
        // so the moved remainder stays below pow2(pc)
        lemma_pow2_mod_zero(pt + 1, pc);
        lemma_bit_partner_in_range(r, pt, ppc);
        assert(j + ppt == q * ppc + (r + ppt));
        lemma_fundamental_div_mod_converse(j + ppt, ppc, q, r + ppt);
        assert((j + ppt) / ppc == q);
    }
}

/// Both directions of the previous fact, for a pair of distinct bits.
proof fn lemma_bit_other_both(j: int, pt: nat, pc: nat)
    requires
        j >= 0,
        pc != pt,
    ensures
        bit_set(flip_index(j, pt), pc) == bit_set(j, pc),
        flip_index(j, pt) >= 0,
        flip_index(flip_index(j, pt), pt) == j,
        bit_set(flip_index(j, pt), pt) == !bit_set(j, pt),
{
    lemma_pow2_pos(pt);
    lemma_bit_flip(j, pt);
    if bit_set(j, pt) {
        let j0 = j - pow2(pt);
        lemma_bit_other(j0, pt, pc);
        lemma_bit_flip(j0, pt);
    } else {
        lemma_bit_other(j, pt, pc);
        lemma_bit_flip(j + pow2(pt), pt);
    }
}

/// A basis-index permutation keeps an odd numerator somewhere.
proof fn lemma_cnot_keeps_odd(s: Seq<Cpx>, pc: nat, pt: nat)
    requires
        pc != pt,
        s.len() % (pow2(pt + 1) as nat) == 0,
        !all_even(s),
    ensures
        !all_even(cnot_amps(s, pc, pt)),
{
    let w = choose|w: int| 0 <= w < s.len() && !((#[trigger] s[w]).re % 2 == 0 && s[w].im % 2 == 0);
    lemma_bit_other_both(w, pt, pc);
    if bit_set(w, pc) {
        let d = flip_index(w, pt);
        assert(d >= 0);
        if bit_set(w, pt) {
            assert(d < s.len());
        } else {
            lemma_bit_partner_in_range(w, pt, s.len() as int);
        }
        assert(cnot_amps(s, pc, pt)[d] == s[flip_index(d, pt)]);
        assert(flip_index(d, pt) == w);
        assert(!((cnot_amps(s, pc, pt)[d]).re % 2 == 0 && (cnot_amps(s, pc, pt)[d]).im % 2 == 0));
    } else {
        assert(cnot_amps(s, pc, pt)[w] == s[w]);
        assert(!((cnot_amps(s, pc, pt)[w]).re % 2 == 0 && (cnot_amps(s, pc, pt)[w]).im % 2 == 0));
    }
}

/// Truth table of the controlled-NOT on basis states: the target bit is
/// flipped exactly when the control bit is one, and the control bit (and
/// every other bit) is unchanged.
pub proof fn lemma_cnot_basis(len: nat, m: int, pc: nat, pt: nat)
    requires
        pc != pt,
        0 <= m < len,
        len % (pow2(pt + 1) as nat) == 0,
    ensures
        ({
            let m2 = if bit_set(m, pc) {
                flip_index(m, pt)
            } else {
                m
            };
            &&& cnot_amps(basis_amps(len, m), pc, pt) == basis_amps(len, m2)
            &&& 0 <= m2 < len
            &&& bit_set(m2, pc) == bit_set(m, pc)
            &&& bit_set(m2, pt) == (bit_set(m, pt) != bit_set(m, pc))
        }),
{
    let s = basis_amps(len, m);
    let m2 = if bit_set(m, pc) {
        flip_index(m, pt)
    } else {
        m
    };
    lemma_bit_other_both(m, pt, pc);
    if bit_set(m, pc) && !bit_set(m, pt) {
        lemma_bit_partner_in_range(m, pt, len as int);
    }
    assert(0 <= m2 < len);
    assert forall|i: int| 0 <= i < len implies cnot_amps(s, pc, pt)[i] == basis_amps(len, m2)[i] by {
        lemma_bit_other_both(i, pt, pc);
        if bit_set(i, pc) {
            if !bit_set(i, pt) {
                lemma_bit_partner_in_range(i, pt, len as int);
            }
            assert(cnot_amps(s, pc, pt)[i] == s[flip_index(i, pt)]);
            // s[flip(i)] is one exactly when flip(i) == m, i.e. i == flip(m),
            // and in that case the control bit of m (== that of i) is one.
            if flip_index(i, pt) == m {
                assert(i == flip_index(m, pt));
                assert(bit_set(m, pc));
                assert(i == m2);
            } else {
                assert(i != m2) by {
                    if i == m2 {
                        assert(bit_set(m, pc));
                        assert(flip_index(i, pt) == m);
                    }
                }
            }
        } else {
            assert(cnot_amps(s, pc, pt)[i] == s[i]);
            if i == m {
                assert(!bit_set(m, pc));
                assert(m2 == m);
            } else {
                assert(i != m2) by {
                    if i == m2 {
                        if bit_set(m, pc) {
                            assert(bit_set(m2, pc));
                        }
                    }
                }
            }
        }
    }
    assert(cnot_amps(s, pc, pt) =~= basis_amps(len, m2));
}

impl State {
    /// Applies the controlled-NOT gate: flips the target qubit in every
    /// basis state whose control qubit is one. Implemented as an explicit
    /// basis-index permutation, swapping amplitudes pairwise in place.
    pub fn cnot_gate(&mut self, control_qubit: usize, target_qubit: usize)
        requires
            old(self).wf(),
            1 <= control_qubit <= old(self).qubits(),
            1 <= target_qubit <= old(self).qubits(),
            control_qubit != target_qubit,
        ensures
            final(self)@.amps == cnot_amps(
                old(self)@.amps,
                (old(self).qubits() - control_qubit) as nat,
                (old(self).qubits() - target_qubit) as nat,
            ),
            final(self)@.scale == old(self)@.scale,
            final(self).wf(),
            final(self).qubits() == old(self).qubits(),
    {
        let n = self.get_qubit_count();
        let ghost pc = (n - control_qubit) as nat;
        let ghost pt = (n - target_qubit) as nat;
        let ghost oldamps = self@.amps;
        let len = self.amplitudes.len();
        proof {
            vstd::arithmetic::power2::lemma_pow2_strictly_increases(pc, self.qubits());
            vstd::arithmetic::power2::lemma_pow2_strictly_increases(pt, self.qubits());
            lemma_pow2_mod_zero(pt + 1, self.qubits());
            lemma_pow2_pos(pc);
            lemma_pow2_pos(pt);
        }
        let pwc = pow2_usize(n - control_qubit);
        let pwt = pow2_usize(n - target_qubit);
        let mut j: usize = 0;
        proof {
            assert forall|i: int| 0 <= i < len implies cnot_partial(oldamps, pc, pt, 0)[i]
                == oldamps[i] by {
                lemma_bit_flip(i, pt);
            }
            assert(views(self.amplitudes@) =~= cnot_partial(oldamps, pc, pt, 0));
        }
        while j < len
            invariant
                j <= len,
                len == self.amplitudes@.len(),
                oldamps.len() == len,
                pwc == pow2(pc),
                pwt == pow2(pt),
                pc != pt,
                pwc >= 1,
                pwt >= 1,
                (len as int) % (pow2(pt + 1) as int) == 0,
                self@.scale == old(self)@.scale,
                total_weight(views(self.amplitudes@)) == total_weight(oldamps),
                views(self.amplitudes@) == cnot_partial(oldamps, pc, pt, j as int),
            decreases len - j,
        {
            let ghost cur = views(self.amplitudes@);
            if (j / pwc) % 2 == 1 && (j / pwt) % 2 == 0 {
                proof {
                    assert(bit_set(j as int, pc) && !bit_set(j as int, pt));
                    lemma_bit_partner_in_range(j as int, pt, len as int);
                    lemma_bit_flip(j as int, pt);
                    lemma_bit_other(j as int, pt, pc);
                }
                let a = self.amplitudes[j];
                let b = self.amplitudes[j + pwt];
                let ghost va = cur[j as int];
                let ghost vb = cur[j as int + pow2(pt)];
                proof {
                    assert(views(self.amplitudes@)[j as int] == a@);
                    assert(views(self.amplitudes@)[j as int + pow2(pt)] == b@);
                    lemma_total_weight_update(cur, j as int, vb);
                    lemma_total_weight_update(cur.update(j as int, vb), j as int + pow2(pt), va);
                }
                self.amplitudes.set(j, b);
                self.amplitudes.set(j + pwt, a);
                proof {
                    assert(views(self.amplitudes@) =~= cur.update(j as int, vb).update(
                        j as int + pow2(pt),
                        va,
                    )) by {
                        assert forall|i: int| 0 <= i < len implies views(self.amplitudes@)[i]
                            == cur.update(j as int, vb).update(j as int + pow2(pt), va)[i] by {
                            assert(views(self.amplitudes@)[i] == self.amplitudes@[i]@);
                        }
                    }
                }
            }
            proof {
                let now = views(self.amplitudes@);
                let stepped = cnot_partial(oldamps, pc, pt, j + 1);
                assert forall|i: int| 0 <= i < len implies now[i] == stepped[i] by {
                    lemma_bit_other_both(i, pt, pc);
                    lemma_bit_flip(i, pt);
                    lemma_bit_flip(j as int, pt);
                    if low_target(i, pt) == j as int {
                        // exactly the pair handled this iteration (if its
                        // control bit is one)
                        assert(bit_set(i, pc) == bit_set(j as int, pc)) by {
                            if bit_set(i, pt) {
                                assert(i == j as int + pow2(pt));
                                lemma_bit_other(j as int, pt, pc);
                                assert(!bit_set(j as int, pt));
                            } else {
                                assert(i == j as int);
                            }
                        }
                        assert(!bit_set(j as int, pt));
                    }
                }
                assert(now =~= stepped);
            }
            j = j + 1;
        }
        proof {
            let fin = cnot_partial(oldamps, pc, pt, len as int);
            assert forall|i: int| 0 <= i < len implies fin[i] == cnot_amps(oldamps, pc, pt)[i] by {
                lemma_bit_flip(i, pt);
            }
            assert(fin =~= cnot_amps(oldamps, pc, pt));
            if old(self)@.scale >= 2 {
                lemma_cnot_keeps_odd(oldamps, pc, pt);
            }
        }
    }
}

/// The matrix of the Pauli-X (NOT) gate: `[[0, 1], [1, 0]]`.
pub open spec fn x_gate_spec() -> SpecGate {
    SpecGate {
        e00: czero(),
        e01: Cpx { re: 1, im: 0 },
        e10: Cpx { re: 1, im: 0 },
        e11: czero(),
        scale: 0,
    }
}

/// The matrix of the Pauli-Y gate: `[[0, -i], [i, 0]]`.
pub open spec fn y_gate_spec() -> SpecGate {
    SpecGate {
        e00: czero(),
        e01: Cpx { re: 0, im: -1 },
        e10: Cpx { re: 0, im: 1 },
        e11: czero(),
        scale: 0,
    }
}

/// The matrix of the Pauli-Z gate: `[[1, 0], [0, -1]]`.
pub open spec fn z_gate_spec() -> SpecGate {
    SpecGate {
        e00: Cpx { re: 1, im: 0 },
        e01: czero(),
        e10: czero(),
        e11: Cpx { re: -1, im: 0 },
        scale: 0,
    }
}

/// The matrix of the Hadamard gate: `[[1, 1], [1, -1]] / sqrt(2)`.
pub open spec fn h_gate_spec() -> SpecGate {
    SpecGate {
        e00: Cpx { re: 1, im: 0 },
        e01: Cpx { re: 1, im: 0 },
        e10: Cpx { re: 1, im: 0 },
        e11: Cpx { re: -1, im: 0 },
        scale: 1,
    }
}

impl Gate {
    /// The Pauli-X (NOT) gate.
    pub fn pauli_x() -> (r: Gate)
        ensures
            r@ == x_gate_spec(),
            gate_unitary(r@),
    {
        let r = Gate {
            e00: Amplitude { re: 0, im: 0 },
            e01: Amplitude { re: 1, im: 0 },
            e10: Amplitude { re: 1, im: 0 },
            e11: Amplitude { re: 0, im: 0 },
            scale: 0,
        };
        proof {
            assert(pow2(0) == 1) by {
                vstd::arithmetic::power2::lemma2_to64();
            }
        }
        r
    }

    /// The Pauli-Y gate.
    pub fn pauli_y() -> (r: Gate)
        ensures
            r@ == y_gate_spec(),
            gate_unitary(r@),
    {
        let r = Gate {
            e00: Amplitude { re: 0, im: 0 },
            e01: Amplitude { re: 0, im: -1 },
            e10: Amplitude { re: 0, im: 1 },
            e11: Amplitude { re: 0, im: 0 },
            scale: 0,
        };
        proof {
            assert(pow2(0) == 1) by {
                vstd::arithmetic::power2::lemma2_to64();
            }
            assert(r@.e01 == (Cpx { re: 0, im: -1 }));
            assert(r@.e10 == (Cpx { re: 0, im: 1 }));
            assert(cnormsq(r@.e00) == 0);
            assert(cnormsq(r@.e01) == 1) by (nonlinear_arith)
                requires
                    r@.e01 == (Cpx { re: 0, im: -1 }),
            ;
            assert(cnormsq(r@.e10) == 1) by (nonlinear_arith)
                requires
                    r@.e10 == (Cpx { re: 0, im: 1 }),
            ;
            assert(cnormsq(r@.e11) == 0);
            assert(cmul(cconj(r@.e00), r@.e01) == czero());
            assert(cmul(cconj(r@.e10), r@.e11) == czero());
            assert(cadd(czero(), czero()) == czero());
        }
        r
    }

    /// The Pauli-Z gate.
    pub fn pauli_z() -> (r: Gate)
        ensures
            r@ == z_gate_spec(),
            gate_unitary(r@),
    {
        let r = Gate {
            e00: Amplitude { re: 1, im: 0 },
            e01: Amplitude { re: 0, im: 0 },
            e10: Amplitude { re: 0, im: 0 },
            e11: Amplitude { re: -1, im: 0 },
            scale: 0,
        };
        proof {
            assert(pow2(0) == 1) by {
                vstd::arithmetic::power2::lemma2_to64();
            }
            assert(r@.e11 == (Cpx { re: -1, im: 0 }));
            assert(cnormsq(r@.e00) == 1);
            assert(cnormsq(r@.e01) == 0);
            assert(cnormsq(r@.e10) == 0);
            assert(cnormsq(r@.e11) == 1) by (nonlinear_arith)
                requires
                    r@.e11 == (Cpx { re: -1, im: 0 }),
            ;
            assert(cmul(cconj(r@.e00), r@.e01) == czero());
            assert(cmul(cconj(r@.e10), r@.e11) == czero());
            assert(cadd(czero(), czero()) == czero());
        }
        r
    }

    /// The Hadamard gate.
    pub fn hadamard() -> (r: Gate)
        ensures
            r@ == h_gate_spec(),
            gate_unitary(r@),
    {
        let r = Gate {
            e00: Amplitude { re: 1, im: 0 },
            e01: Amplitude { re: 1, im: 0 },
            e10: Amplitude { re: 1, im: 0 },
            e11: Amplitude { re: -1, im: 0 },
            scale: 1,
        };
        proof {
            assert(pow2(1) == 2) by {
                vstd::arithmetic::power2::lemma2_to64();
            }
            assert(r@.e11 == (Cpx { re: -1, im: 0 }));
            assert(cnormsq(r@.e00) == 1);
            assert(cnormsq(r@.e01) == 1);
            assert(cnormsq(r@.e10) == 1);
            assert(cnormsq(r@.e11) == 1) by (nonlinear_arith)
                requires
                    r@.e11 == (Cpx { re: -1, im: 0 }),
            ;
            assert(cmul(cconj(r@.e00), r@.e01) == (Cpx { re: 1, im: 0 }));
            assert(cmul(cconj(r@.e10), r@.e11) == (Cpx { re: -1, im: 0 }));
            assert(cadd(Cpx { re: 1, im: 0 }, Cpx { re: -1, im: 0 }) == czero());
        }
        r
    }
}

impl State {
    /// Applies the Pauli-X gate (NOT gate) to the specified target qubit.
    ///
    /// The Pauli-X gate flips the state of the target qubit.
    pub fn pauli_x_gate(&mut self, target_qubit: usize)
        requires
            old(self).wf(),
            1 <= target_qubit <= old(self).qubits(),
        ensures
            final(self)@ == spec_reduce(
                SpecState {
                    amps: apply1_spec(
                        old(self)@.amps,
                        x_gate_spec(),
                        (old(self).qubits() - target_qubit) as nat,
                    ),
                    scale: old(self)@.scale,
                },
            ),
            final(self).wf(),
            final(self).qubits() == old(self).qubits(),
    {
        let g = Gate::pauli_x();
        self.apply_gate_to_qubit(&g, target_qubit);
    }

    /// Applies the Pauli-Y gate to the specified target qubit.
    ///
    /// The Pauli-Y gate flips the target qubit and multiplies the two new
    /// amplitudes by `i` and `-i`.
    pub fn pauli_y_gate(&mut self, target_qubit: usize)
        requires
            old(self).wf(),
            1 <= target_qubit <= old(self).qubits(),
        ensures
            final(self)@ == spec_reduce(
                SpecState {
                    amps: apply1_spec(
                        old(self)@.amps,
                        y_gate_spec(),
                        (old(self).qubits() - target_qubit) as nat,
                    ),
                    scale: old(self)@.scale,
                },
            ),
            final(self).wf(),
            final(self).qubits() == old(self).qubits(),
    {
        let g = Gate::pauli_y();
        self.apply_gate_to_qubit(&g, target_qubit);
    }

    /// Applies the Pauli-Z gate to the specified target qubit.
    ///
    /// The Pauli-Z gate negates the amplitude of every basis state in which
    /// the target qubit is one.
    pub fn pauli_z_gate(&mut self, target_qubit: usize)
        requires
            old(self).wf(),
            1 <= target_qubit <= old(self).qubits(),
        ensures
            final(self)@ == spec_reduce(
                SpecState {
                    amps: apply1_spec(
                        old(self)@.amps,
                        z_gate_spec(),
                        (old(self).qubits() - target_qubit) as nat,
                    ),
                    scale: old(self)@.scale,
                },
            ),
            final(self).wf(),
            final(self).qubits() == old(self).qubits(),
    {
        let g = Gate::pauli_z();
        self.apply_gate_to_qubit(&g, target_qubit);
    }

    /// Applies the Hadamard gate to the specified target qubit.
    ///
    /// The Hadamard gate sends the target qubit's basis states to equal
    /// superpositions, raising the denominator by one factor of `sqrt(2)`;
    /// the state is then brought back to lowest terms.
    pub fn hadamard_gate(&mut self, target_qubit: usize)
        requires
            old(self).wf(),
            1 <= target_qubit <= old(self).qubits(),
            old(self)@.scale < MAX_SCALE,
        ensures
            final(self)@ == spec_reduce(
                SpecState {
                    amps: apply1_spec(
                        old(self)@.amps,
                        h_gate_spec(),
                        (old(self).qubits() - target_qubit) as nat,
                    ),
                    scale: old(self)@.scale + 1,
                },
            ),
            final(self).wf(),
            final(self).qubits() == old(self).qubits(),
    {
        let g = Gate::hadamard();
        self.apply_gate_to_qubit(&g, target_qubit);
    }
}

/// The cumulative Born weight of the first `i` basis states.
pub open spec fn prefix_weight(s: Seq<Cpx>, i: int) -> int {
    total_weight(s.take(i))
}

/// The projection of the amplitude vector onto the basis states whose bit
/// `p` equals `keep`: matching amplitudes survive, the rest become zero.
pub open spec fn project_amps(s: Seq<Cpx>, p: nat, keep: bool) -> Seq<Cpx> {
    Seq::new(
        s.len(),
        |j: int|
            if bit_set(j, p) == keep {
                s[j]
            } else {
                czero()
            },
    )
}

/// One more basis state adds its own weight to the running prefix.
pub proof fn lemma_prefix_weight_step(s: Seq<Cpx>, i: int)
    requires
        0 <= i < s.len(),
    ensures
        prefix_weight(s, i + 1) == prefix_weight(s, i) + cnormsq(s[i]),
{
    assert(s.take(i + 1).drop_last() =~= s.take(i));
    assert(s.take(i + 1).last() == s[i]);
}

/// A weight prefix never exceeds the total.
pub proof fn lemma_prefix_weight_le_total(s: Seq<Cpx>, i: int)
    requires
        0 <= i <= s.len(),
    ensures
        prefix_weight(s, i) <= total_weight(s),
        prefix_weight(s, i) >= 0,
{
    lemma_total_weight_split(s, i);
    lemma_total_weight_nonneg(s.skip(i));
    lemma_total_weight_nonneg(s.take(i));
}

/// Projecting never increases the total weight.
pub proof fn lemma_project_le(s: Seq<Cpx>, p: nat, keep: bool)
    ensures
        total_weight(project_amps(s, p, keep)) <= total_weight(s),
        total_weight(project_amps(s, p, keep)) >= 0,
    decreases s.len(),
{
    let pr = project_amps(s, p, keep);
    assert(pr.len() == s.len());
    if s.len() == 0 {
        assert(total_weight(pr) == 0);
    } else {
        assert(pr.drop_last() =~= project_amps(s.drop_last(), p, keep));
        lemma_project_le(s.drop_last(), p, keep);
        lemma_cnormsq_nonneg(s.last());
        lemma_cnormsq_nonneg(pr.last());
        assert(pr.last() == s.last() || pr.last() == czero());
        assert(cnormsq(czero()) == 0 * 0 + 0 * 0);
    }
}

/// Every basis state survives exactly one of the two projections, so their
/// weights split the total.
pub proof fn lemma_project_total_split(s: Seq<Cpx>, p: nat)
    ensures
        total_weight(project_amps(s, p, true)) + total_weight(project_amps(s, p, false))
            == total_weight(s),
    decreases s.len(),
{
    if s.len() > 0 {
        assert(project_amps(s, p, true).drop_last() =~= project_amps(s.drop_last(), p, true));
        assert(project_amps(s, p, false).drop_last() =~= project_amps(s.drop_last(), p, false));
        lemma_project_total_split(s.drop_last(), p);
        if bit_set(s.len() - 1, p) {
            assert(project_amps(s, p, true).last() == s.last());
            assert(cnormsq(project_amps(s, p, false).last()) == 0 * 0 + 0 * 0);
        } else {
            assert(project_amps(s, p, false).last() == s.last());
            assert(cnormsq(project_amps(s, p, true).last()) == 0 * 0 + 0 * 0);
        }
    }
}

/// A positive power of two in the sense of the recursive predicate really
/// is `pow2` of its logarithm.
pub proof fn lemma_is_pow2_log2(v: int)
    requires
        vstd::arithmetic::power2::is_pow2(v),
    ensures
        v >= 1,
        pow2(spec_log2(v as nat)) == v,
    decreases v,
{
    reveal(vstd::arithmetic::power2::is_pow2);
    if v == 1 {
        assert(pow2(0) == 1) by {
            vstd::arithmetic::power2::lemma2_to64();
        }
    } else {
        lemma_is_pow2_log2(v / 2);
        assert(v % 2 == 0);
        lemma_fundamental_div_mod(v, 2);
        assert(v == 2 * (v / 2));
        lemma_pow2_unfold(spec_log2(v as nat));
        assert(spec_log2(v as nat) == 1 + spec_log2((v / 2) as nat));
    }
}

/// `pow2` values satisfy the recursive power-of-two predicate.
pub proof fn lemma_pow2_is_pow2(n: nat)
    ensures
        vstd::arithmetic::power2::is_pow2(pow2(n) as int),
    decreases n,
{
    reveal(vstd::arithmetic::power2::is_pow2);
    lemma_pow2_pos(n);
    if n == 0 {
        assert(pow2(0) == 1) by {
            vstd::arithmetic::power2::lemma2_to64();
        }
    } else {
        lemma_pow2_is_pow2((n - 1) as nat);
        lemma_pow2_unfold(n);
        lemma_pow2_pos((n - 1) as nat);
        assert(pow2(n) == 2 * pow2((n - 1) as nat));
        lemma_fundamental_div_mod_converse(pow2(n) as int, 2, pow2((n - 1) as nat) as int, 0);
    }
}

/// Measuring a register that sits in a single basis state is
/// deterministic: whatever value the Born draw takes, the sampled index is
/// that basis state, because it alone carries any weight.
pub proof fn lemma_sample_basis_deterministic(s: Seq<Cpx>, m: int, t: int, r: int)
    requires
        0 <= m < s.len(),
        forall|j: int| 0 <= j < s.len() && j != m ==> s[j] == czero(),
        0 <= t,
        0 <= r < s.len(),
        prefix_weight(s, r) <= t,
        t < prefix_weight(s, r + 1),
    ensures
        r == m,
{
    if r < m {
        assert(s.take(r + 1) =~= zero_amps((r + 1) as nat));
        lemma_zero_total((r + 1) as nat);
        assert(prefix_weight(s, r + 1) == 0);
    } else if r > m {
        assert(s.skip(r) =~= zero_amps((s.len() - r) as nat));
        lemma_zero_total((s.len() - r) as nat);
        lemma_total_weight_split(s, r);
        assert(prefix_weight(s, r) == total_weight(s));
        lemma_prefix_weight_le_total(s, r + 1);
    }
}

/// Tests whether a machine word is a power of two.
pub fn u64_is_pow2(w: u64) -> (r: bool)
    ensures
        r == vstd::arithmetic::power2::is_pow2(w as int),
{
    proof {
        reveal(vstd::arithmetic::power2::is_pow2);
    }
    if w == 0 {
        return false;
    }
    let mut x: u64 = w;
    while x > 1
        invariant
            x >= 1,
            vstd::arithmetic::power2::is_pow2(w as int) == vstd::arithmetic::power2::is_pow2(
                x as int,
            ),
        decreases x,
    {
        proof {
            reveal(vstd::arithmetic::power2::is_pow2);
        }
        if x % 2 == 1 {
            return false;
        }
        x = x / 2;
    }
    proof {
        reveal(vstd::arithmetic::power2::is_pow2);
    }
    true
}

impl State {
    /// Finds the basis index selected by the Born rule for the exact draw
    /// `t`: basis indices are walked in order accumulating their weights,
    /// and the first index whose cumulative weight exceeds `t` is returned.
    /// Because the weights sum to exactly `pow2(scale)` and `t` lies below
    /// that, the walk always selects an index, and the selected index
    /// always carries nonzero weight (zero probability is never observed).
    pub fn sample_basis_index(&self, t: u64) -> (r: usize)
        requires
            self.wf(),
            (t as int) < pow2(self@.scale),
        ensures
            r < self@.amps.len(),
            prefix_weight(self@.amps, r as int) <= t as int,
            (t as int) < prefix_weight(self@.amps, r as int + 1),
            cnormsq(self@.amps[r as int]) > 0,
    {
        let ghost amps = self@.amps;
        let len = self.amplitudes.len();
        let mut cum: u64 = 0;
        let mut i: usize = 0;
        while i < len
            invariant
                i <= len,
                len == self.amplitudes@.len(),
                amps == self@.amps,
                self.wf(),
                (t as int) < pow2(self@.scale),
                cum as int == prefix_weight(amps, i as int),
                cum <= t,
            decreases len - i,
        {
            let a = self.amplitudes[i];
            proof {
                assert(views(self.amplitudes@)[i as int] == a@);
                lemma_element_weight_le_total(amps, i as int);
                assert(cnormsq(a@) <= pow2(self@.scale));
                assert(pow2(self@.scale) <= pow2(62)) by {
                    if self@.scale < 62 {
                        vstd::arithmetic::power2::lemma_pow2_strictly_increases(self@.scale, 62);
                    }
                }
                assert(pow2(62) == 0x4000_0000_0000_0000) by {
                    vstd::arithmetic::power2::lemma2_to64_rest();
                }
                assert(a.re * a.re >= 0 && a.im * a.im >= 0) by (nonlinear_arith);
                lemma_prefix_weight_step(amps, i as int);
                lemma_prefix_weight_le_total(amps, i as int + 1);
            }
            let w: u64 = ((a.re * a.re) + (a.im * a.im)) as u64;
            if t < cum + w {
                return i;
            }
            cum = cum + w;
            i = i + 1;
        }
        proof {
            assert(amps.take(len as int) =~= amps);
            assert(false);
        }
        0
    }

    /// The total Born weight carried by basis states in which the target
    /// qubit is one.
    pub fn one_weight(&self, target_qubit: usize) -> (w: u64)
        requires
            self.wf(),
            1 <= target_qubit <= self.qubits(),
        ensures
            w as int == total_weight(
                project_amps(self@.amps, (self.qubits() - target_qubit) as nat, true),
            ),
            w as int <= pow2(self@.scale),
    {
        let n = self.get_qubit_count();
        let ghost p = (n - target_qubit) as nat;
        let ghost amps = self@.amps;
        let len = self.amplitudes.len();
        proof {
            lemma_pow2_pos(p);
            vstd::arithmetic::power2::lemma_pow2_strictly_increases(p, self.qubits());
            assert(pow2(p) < len);
        }
        let pw = pow2_usize(n - target_qubit);
        let mut cum: u64 = 0;
        let mut i: usize = 0;
        while i < len
            invariant
                i <= len,
                len == self.amplitudes@.len(),
                amps == self@.amps,
                self.wf(),
                pw == pow2(p),
                pw >= 1,
                cum as int == total_weight(project_amps(amps.take(i as int), p, true)),
                cum as int <= pow2(self@.scale),
            decreases len - i,
        {
            let a = self.amplitudes[i];
            let ghost before = project_amps(amps.take(i as int), p, true);
            let ghost after = project_amps(amps.take(i as int + 1), p, true);
            proof {
                assert(views(self.amplitudes@)[i as int] == a@);
                lemma_element_weight_le_total(amps, i as int);
                assert(pow2(self@.scale) <= pow2(62)) by {
                    if self@.scale < 62 {
                        vstd::arithmetic::power2::lemma_pow2_strictly_increases(self@.scale, 62);
                    }
                }
                assert(pow2(62) == 0x4000_0000_0000_0000) by {
                    vstd::arithmetic::power2::lemma2_to64_rest();
                }
                assert(a.re * a.re >= 0 && a.im * a.im >= 0) by (nonlinear_arith);
                assert(after.drop_last() =~= before);
                assert(after.last() == (if bit_set(i as int, p) {
                    amps[i as int]
                } else {
                    czero()
                }));
                assert(cnormsq(czero()) == 0 * 0 + 0 * 0);
                lemma_project_le(amps.take(i as int + 1), p, true);
                lemma_prefix_weight_le_total(amps, i as int + 1);
                assert(total_weight(amps.take(i as int + 1)) <= pow2(self@.scale));
            }
            if (i / pw) % 2 == 1 {
                let w: u64 = ((a.re * a.re) + (a.im * a.im)) as u64;
                cum = cum + w;
            }
            i = i + 1;
        }
        proof {
            assert(amps.take(len as int) =~= amps);
        }
        cum
    }

    /// Collapses the target qubit to the given outcome: amplitudes of basis
    /// states that disagree become zero, and the denominator is rescaled so
    /// the surviving weight is again exactly one. The surviving weight must
    /// be a power of two for the rescaling to be exact.
    pub fn project_qubit(&mut self, target_qubit: usize, keep: bool)
        requires
            old(self).wf(),
            1 <= target_qubit <= old(self).qubits(),
            vstd::arithmetic::power2::is_pow2(
                total_weight(
                    project_amps(
                        old(self)@.amps,
                        (old(self).qubits() - target_qubit) as nat,
                        keep,
                    ),
                ),
            ),
        ensures
            final(self)@ == spec_reduce(
                SpecState {
                    amps: project_amps(
                        old(self)@.amps,
                        (old(self).qubits() - target_qubit) as nat,
                        keep,
                    ),
                    scale: spec_log2(
                        total_weight(
                            project_amps(
                                old(self)@.amps,
                                (old(self).qubits() - target_qubit) as nat,
                                keep,
                            ),
                        ) as nat,
                    ),
                },
            ),
            final(self).wf(),
            final(self).qubits() == old(self).qubits(),
    {
        let n = self.get_qubit_count();
        let ghost p = (n - target_qubit) as nat;
        let ghost amps = self@.amps;
        let ghost target = project_amps(amps, p, keep);
        proof {
            lemma_pow2_pos(p);
            vstd::arithmetic::power2::lemma_pow2_strictly_increases(p, self.qubits());
            lemma_is_pow2_log2(total_weight(target));
        }
        let w = if keep {
            self.one_weight(target_qubit)
        } else {
            let w1 = self.one_weight(target_qubit);
            let total = crate::registers::pow2_u64(self.scale);
            proof {
                lemma_project_total_split(amps, p);
                lemma_project_le(amps, p, true);
            }
            total - w1
        };
        // exact logarithm of the surviving weight
        let mut m: u32 = 0;
        let mut x: u64 = w;
        proof {
            assert(w as int == total_weight(target));
            assert(pow2(0) == 1) by {
                vstd::arithmetic::power2::lemma2_to64();
            }
        }
        while x > 1
            invariant
                x >= 1,
                w as int == total_weight(target),
                x as nat * pow2(m as nat) <= w,
                pow2(m as nat) <= w,
                w <= u64::MAX,
                spec_log2(w as nat) == m + spec_log2(x as nat),
            decreases x,
        {
            proof {
                lemma_pow2_unfold((m + 1) as nat);
                lemma_pow2_pos(m as nat);
                let xn = x as nat;
                assert((xn / 2) * pow2((m + 1) as nat) <= xn * pow2(m as nat))
                    by (nonlinear_arith)
                    requires
                        xn >= 2,
                        pow2((m + 1) as nat) == 2 * pow2(m as nat),
                        pow2(m as nat) >= 1,
                ;
                assert(pow2((m + 1) as nat) <= (xn / 2) * pow2((m + 1) as nat))
                    by (nonlinear_arith)
                    requires
                        xn >= 2,
                        pow2((m + 1) as nat) >= 1,
                ;
                if m >= 64 {
                    if m > 64 {
                        vstd::arithmetic::power2::lemma_pow2_strictly_increases(64, m as nat);
                    }
                    vstd::arithmetic::power2::lemma2_to64();
                    assert(false);
                }
            }
            x = x / 2;
            m = m + 1;
        }
        proof {
            // w is a power of two, so the walk ends exactly at its logarithm
            assert(spec_log2(w as nat) == m as nat);
            assert(pow2(m as nat) == w as int);
            // the new scale never exceeds the old one
            lemma_prefix_weight_le_total(amps, amps.len() as int);
            lemma_project_le(amps, p, keep);
            assert(w as int <= pow2(self@.scale));
            assert(m as nat <= self@.scale) by {
                if m as nat > self@.scale {
                    vstd::arithmetic::power2::lemma_pow2_strictly_increases(self@.scale, m as nat);
                }
            }
        }
        // zero the disagreeing amplitudes
        let len = self.amplitudes.len();
        proof {
            assert(pow2(p) < len);
        }
        let pw = pow2_usize(n - target_qubit);
        let mut out: Vec<Amplitude> = Vec::new();
        let mut i: usize = 0;
        while i < len
            invariant
                i <= len,
                len == self.amplitudes@.len(),
                amps == self@.amps,
                target == project_amps(amps, p, keep),
                pw == pow2(p),
                pw >= 1,
                out@.len() == i,
                views(out@) == target.take(i as int),
            decreases len - i,
        {
            let a = self.amplitudes[i];
            proof {
                assert(views(self.amplitudes@)[i as int] == a@);
            }
            let matches_keep: bool = ((i / pw) % 2 == 1) == keep;
            if matches_keep {
                out.push(a);
            } else {
                out.push(Amplitude { re: 0, im: 0 });
            }
            proof {
                assert(views(out@)[i as int] == target[i as int]);
                assert(forall|x2: int|
                    0 <= x2 < i ==> #[trigger] views(out@)[x2] == views(out@.drop_last())[x2]);
                assert(views(out@) =~= target.take(i as int + 1));
            }
            i = i + 1;
        }
        proof {
            assert(views(out@) =~= target);
        }
        self.amplitudes = out;
        self.scale = m;
        let ghost mid = self@;
        proof {
            assert(total_weight(mid.amps) == pow2(mid.scale));
        }
        self.reduce();
        proof {
            lemma_spec_reduce_props(mid);
            assert(self@.amps.len() == pow2(old(self).qubits()));
            lemma_log2_pow2(old(self).qubits());
        }
    }
}

/// The mathematical value of a matrix: its dimensions and its entries in
/// row-major order.
pub ghost struct SpecMatrix {
    pub rows: nat,
    pub cols: nat,
    pub data: Seq<Cpx>,
}

/// A dense matrix of exact complex entries, row-major.
#[derive(Clone, Debug)]
pub struct Matrix {
    rows: usize,
    cols: usize,
    data: Vec<Amplitude>,
}

impl View for Matrix {
    type V = SpecMatrix;

    closed spec fn view(&self) -> SpecMatrix {
        SpecMatrix { rows: self.rows as nat, cols: self.cols as nat, data: views(self.data@) }
    }
}

/// Every entry component lies within the given bound.
pub open spec fn entries_within(m: SpecMatrix, b: int) -> bool {
    forall|t: int|
        0 <= t < m.data.len() ==> -b <= (#[trigger] m.data[t]).re <= b && -b <= m.data[t].im <= b
}

impl Matrix {
    /// The storage holds exactly one entry per position.
    pub open spec fn wf(&self) -> bool {
        self@.data.len() == self@.rows * self@.cols
    }

    /// The entry in row `i`, column `j`.
    pub open spec fn entry(&self, i: int, j: int) -> Cpx {
        self@.data[i * (self@.cols as int) + j]
    }

    /// Creates a matrix of the given dimensions from its entries in
    /// row-major order.
    pub fn from_row_slice(rows: usize, cols: usize, data: Vec<Amplitude>) -> (r: Matrix)
        requires
            data@.len() == rows * cols,
        ensures
            r.wf(),
            r@.rows == rows,
            r@.cols == cols,
            r@.data == views(data@),
    {
        Matrix { rows, cols, data }
    }

    /// The number of rows.
    pub fn nrows(&self) -> (r: usize)
        ensures
            r == self@.rows,
    {
        self.rows
    }

    /// The number of columns.
    pub fn ncols(&self) -> (r: usize)
        ensures
            r == self@.cols,
    {
        self.cols
    }

    /// Reads the entry in row `i`, column `j`.
    pub fn entry_at(&self, i: usize, j: usize) -> (r: Amplitude)
        requires
            self.wf(),
            i < self@.rows,
            j < self@.cols,
        ensures
            r@ == self.entry(i as int, j as int),
    {
        let n = self.data.len();
        proof {
            lemma_row_major_in_range(i as int, j as int, self@.rows as int, self@.cols as int);
            assert(self@.data.len() == n);
        }
        let t = i * self.cols + j;
        let r = self.data[t];
        proof {
            assert(views(self.data@)[t as int] == r@);
        }
        r
    }
}

/// A row-major offset lies inside the storage, and each partial product
/// stays within it too.
proof fn lemma_row_major_in_range(i: int, j: int, rows: int, cols: int)
    requires
        0 <= i < rows,
        0 <= j < cols,
    ensures
        0 <= i * cols + j < rows * cols,
        i * cols + j < rows * cols,
{
    assert(i * cols + j < rows * cols) by (nonlinear_arith)
        requires
            0 <= i < rows && 0 <= j < cols,
    ;
    assert(i * cols >= 0) by (nonlinear_arith)
        requires
            i >= 0 && cols > 0,
    ;
}

/// Calculates the Kronecker product of two matrices: the block matrix in
/// which block `(i, j)` is `b` scaled by `a`'s entry `(i, j)`. This is the
/// expansion step by which a small gate matrix becomes an operator on a
/// larger state space.
pub fn kronecker_product(a: &Matrix, b: &Matrix) -> (r: Matrix)
    requires
        a.wf(),
        b.wf(),
        a@.rows * b@.rows <= usize::MAX,
        a@.cols * b@.cols <= usize::MAX,
        (a@.rows * b@.rows) * (a@.cols * b@.cols) <= usize::MAX,
        entries_within(a@, 0x4000_0000),
        entries_within(b@, 0x4000_0000),
    ensures
        r.wf(),
        r@.rows == a@.rows * b@.rows,
        r@.cols == a@.cols * b@.cols,
        forall|i: int, j: int, k: int, l: int|
            0 <= i < a@.rows && 0 <= j < a@.cols && 0 <= k < b@.rows && 0 <= l < b@.cols
                ==> #[trigger] r.entry(i * (b@.rows as int) + k, j * (b@.cols as int) + l) == cmul(
                a.entry(i, j),
                b.entry(k, l),
            ),
{
    let out_rows = a.nrows() * b.nrows();
    let out_cols = a.ncols() * b.ncols();
    let mut data: Vec<Amplitude> = Vec::new();
    let mut ri: usize = 0;
    while ri < out_rows
        invariant
            ri <= out_rows,
            out_rows == a@.rows * b@.rows,
            out_cols == a@.cols * b@.cols,
            out_rows * out_cols <= usize::MAX,
            a.wf(),
            b.wf(),
            entries_within(a@, 0x4000_0000),
            entries_within(b@, 0x4000_0000),
            data@.len() == ri * out_cols,
            forall|t: int|
                0 <= t < data@.len() ==> #[trigger] views(data@)[t] == kron_entry(
                    *a,
                    *b,
                    t / (out_cols as int),
                    t % (out_cols as int),
                ),
        decreases out_rows - ri,
    {
        let mut rj: usize = 0;
        proof {
            lemma_kron_step_bound(ri as int, out_rows as int, out_cols as int);
        }
        while rj < out_cols
            invariant
                ri < out_rows,
                rj <= out_cols,
                out_rows == a@.rows * b@.rows,
                out_cols == a@.cols * b@.cols,
                out_rows * out_cols <= usize::MAX,
                a.wf(),
                b.wf(),
                entries_within(a@, 0x4000_0000),
                entries_within(b@, 0x4000_0000),
                data@.len() == ri * out_cols + rj,
                forall|t: int|
                    0 <= t < data@.len() ==> #[trigger] views(data@)[t] == kron_entry(
                        *a,
                        *b,
                        t / (out_cols as int),
                        t % (out_cols as int),
                    ),
            decreases out_cols - rj,
        {
            proof {
                assert(out_rows > 0 && out_cols > 0);
                assert(b@.rows > 0 && b@.cols > 0 && a@.rows > 0 && a@.cols > 0)
                    by (nonlinear_arith)
                    requires
                        a@.rows * b@.rows > 0 && a@.cols * b@.cols > 0,
                ;
                lemma_div_mod_split(ri as int, b@.rows as int, a@.rows as int);
                lemma_div_mod_split(rj as int, b@.cols as int, a@.cols as int);
            }
            let ai = ri / b.nrows();
            let ki = ri % b.nrows();
            let aj = rj / b.ncols();
            let lj = rj % b.ncols();
            let x = a.entry_at(ai, aj);
            let y = b.entry_at(ki, lj);
            proof {
                lemma_row_major_in_range(ai as int, aj as int, a@.rows as int, a@.cols as int);
                lemma_row_major_in_range(ki as int, lj as int, b@.rows as int, b@.cols as int);
                assert(x@ == a@.data[(ai as int) * (a@.cols as int) + aj as int]);
                assert(y@ == b@.data[(ki as int) * (b@.cols as int) + lj as int]);
            }
            let p = cmul_exec(x, y);
            let re = p.re;
            let im = p.im;
            let ghost pre = data@;
            data.push(Amplitude { re, im });
            proof {
                let t = (ri * out_cols + rj) as int;
                assert(views(data@)[t] == (Amplitude { re, im })@);
                assert((Amplitude { re, im })@ == cmul(x@, y@));
                lemma_row_major_in_range(ri as int, rj as int, out_rows as int, out_cols as int);
                lemma_fundamental_div_mod_converse(t, out_cols as int, ri as int, rj as int);
                assert(t / (out_cols as int) == ri as int && t % (out_cols as int) == rj as int);
                assert(views(data@)[t] == kron_entry(*a, *b, ri as int, rj as int));
                assert forall|t2: int| 0 <= t2 < t implies #[trigger] views(data@)[t2] == views(
                    pre,
                )[t2] by {
                    assert(data@[t2] == pre[t2]);
                    assert(views(data@)[t2] == data@[t2]@);
                    assert(views(pre)[t2] == pre[t2]@);
                }
            }
            rj = rj + 1;
        }
        proof {
            assert((ri + 1) * out_cols == ri * out_cols + out_cols) by (nonlinear_arith);
        }
        ri = ri + 1;
    }
    proof {
        assert(data@.len() == out_rows * out_cols);
    }
    let r = Matrix { rows: out_rows, cols: out_cols, data };
    proof {
        assert forall|i: int, j: int, k: int, l: int|
            0 <= i < a@.rows && 0 <= j < a@.cols && 0 <= k < b@.rows && 0 <= l
                < b@.cols implies #[trigger] r.entry(
            i * (b@.rows as int) + k,
            j * (b@.cols as int) + l,
        ) == cmul(a.entry(i, j), b.entry(k, l)) by {
            let row = i * (b@.rows as int) + k;
            let col = j * (b@.cols as int) + l;
            lemma_row_major_in_range(i, k, a@.rows as int, b@.rows as int);
            lemma_row_major_in_range(j, l, a@.cols as int, b@.cols as int);
            lemma_row_major_in_range(row, col, out_rows as int, out_cols as int);
            let t = row * (out_cols as int) + col;
            assert(views(data@)[t] == kron_entry(*a, *b, t / (out_cols as int), t % (out_cols as int)));
            lemma_fundamental_div_mod_converse(t, out_cols as int, row, col);
            lemma_fundamental_div_mod_converse(row, b@.rows as int, i, k);
            lemma_fundamental_div_mod_converse(col, b@.cols as int, j, l);
        }
    }
    r
}

/// Multiplies two exact complex numbers whose components are small enough
/// that no product can overflow a machine word.
fn cmul_exec(x: Amplitude, y: Amplitude) -> (r: Amplitude)
    requires
        -0x4000_0000 <= x@.re <= 0x4000_0000,
        -0x4000_0000 <= x@.im <= 0x4000_0000,
        -0x4000_0000 <= y@.re <= 0x4000_0000,
        -0x4000_0000 <= y@.im <= 0x4000_0000,
    ensures
        r@ == cmul(x@, y@),
{
    proof {
        lemma_small_product(x@.re, y@.re);
        lemma_small_product(x@.im, y@.im);
        lemma_small_product(x@.re, y@.im);
        lemma_small_product(x@.im, y@.re);
    }
    Amplitude { re: x.re * y.re - x.im * y.im, im: x.re * y.im + x.im * y.re }
}

/// The product of two components within `pow2(30)` lies within `pow2(60)`.
proof fn lemma_small_product(u: int, v: int)
    requires
        -0x4000_0000 <= u <= 0x4000_0000,
        -0x4000_0000 <= v <= 0x4000_0000,
    ensures
        -0x1000_0000_0000_0000 <= u * v <= 0x1000_0000_0000_0000,
{
    assert(-0x1000_0000_0000_0000 <= u * v <= 0x1000_0000_0000_0000) by (nonlinear_arith)
        requires
            -0x4000_0000 <= u <= 0x4000_0000 && -0x4000_0000 <= v <= 0x4000_0000,
    ;
}

/// The entry of the Kronecker product at output position `(ri, rj)`: the
/// entries of the factors at the split coordinates, multiplied.
pub open spec fn kron_entry(a: Matrix, b: Matrix, ri: int, rj: int) -> Cpx {
    cmul(
        a.entry(ri / (b@.rows as int), rj / (b@.cols as int)),
        b.entry(ri % (b@.rows as int), rj % (b@.cols as int)),
    )
}

/// Splitting an output coordinate below `inner * outer` by `inner` gives
/// in-range factor coordinates.
proof fn lemma_div_mod_split(x: int, inner: int, outer: int)
    requires
        0 <= x < outer * inner,
        inner > 0,
        outer > 0,
    ensures
        0 <= x / inner < outer,
        0 <= x % inner < inner,
{
    lemma_fundamental_div_mod(x, inner);
    vstd::arithmetic::div_mod::lemma_mod_bound(x, inner);
    vstd::arithmetic::div_mod::lemma_div_pos_is_pos(x, inner);
    let q = x / inner;
    assert(x == inner * q + (x % inner));
    assert(q < outer) by (nonlinear_arith)
        requires
            x == inner * q + (x % inner) && x < outer * inner && x % inner >= 0 && inner > 0 && q
                >= 0,
    ;
}

/// One more full output row stays within the allocation bound.
proof fn lemma_kron_step_bound(ri: int, out_rows: int, out_cols: int)
    requires
        0 <= ri < out_rows,
        out_rows * out_cols <= usize::MAX,
        out_cols >= 0,
    ensures
        ri * out_cols + out_cols <= out_rows * out_cols,
        ri * out_cols >= 0,
{
    assert((ri + 1) * out_cols <= out_rows * out_cols) by (nonlinear_arith)
        requires
            0 <= ri < out_rows && out_cols >= 0,
    ;
    assert((ri + 1) * out_cols == ri * out_cols + out_cols) by (nonlinear_arith);
    assert(ri * out_cols >= 0) by (nonlinear_arith)
        requires
            ri >= 0 && out_cols >= 0,
    ;
}

/// Computes two to the given power as a machine word.
pub fn pow2_usize(e: usize) -> (r: usize)
    requires
        pow2(e as nat) <= usize::MAX,
    ensures
        r == pow2(e as nat),
        r >= 1,
{
    let mut r: usize = 1;
    let mut i: usize = 0;
    proof {
        assert(pow2(0) == 1) by {
            vstd::arithmetic::power2::lemma2_to64();
        }
    }
    while i < e
        invariant
            i <= e,
            r == pow2(i as nat),
            pow2(e as nat) <= usize::MAX,
        decreases e - i,
    {
        proof {
            lemma_pow2_unfold((i + 1) as nat);
            if i + 1 < e {
                vstd::arithmetic::power2::lemma_pow2_strictly_increases((i + 1) as nat, e as nat);
            }
        }
        r = r * 2;
        i = i + 1;
    }
    proof {
        lemma_pow2_pos(e as nat);
    }
    r
}

} // verus!
