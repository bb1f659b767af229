//! Sparse Laurent polynomials over Z/pZ and 3x3 matrices of them.

use vstd::prelude::*;
use vstd::std_specs::cmp::PartialEqSpecImpl;
use vstd::std_specs::ops::AddSpecImpl;

verus! {

/// A polynomial in canonical sparse form: terms `(power, coefficient)` by
/// strictly increasing power, every coefficient in `(0, p)`.
#[derive(Clone, Debug)]
pub struct Polynomial {
    pub data: Vec<(u16, u8)>,
    pub p: u8,
}

/// Strictly increasing powers and no coefficient outside `(0, p)`.
pub open spec fn canonical(s: Seq<(u16, u8)>, p: u8) -> bool {
    &&& forall|i: int, j: int| 0 <= i < j < s.len() ==> s[i].0 < s[j].0
    &&& forall|i: int| 0 <= i < s.len() ==> 0 < #[trigger] s[i].1 < p
}

/// The coefficient of `t^k` in the polynomial with terms `s`.
pub open spec fn coeff(s: Seq<(u16, u8)>, k: int) -> int
    decreases s.len(),
{
    if s.len() == 0 {
        0
    } else if s[0].0 == k {
        s[0].1 as int
    } else {
        coeff(s.skip(1), k)
    }
}

/// The sum of two coefficients in Z/pZ.
pub open spec fn add_coeff(a: u8, b: u8, p: u8) -> u8 {
    ((a + b) % (p as int)) as u8
}

/// The terms of the sum of two polynomials given by their terms.
pub open spec fn add_terms(a: Seq<(u16, u8)>, b: Seq<(u16, u8)>, p: u8) -> Seq<(u16, u8)>
    decreases a.len() + b.len(),
{
    if a.len() == 0 {
        b
    } else if b.len() == 0 {
        a
    } else if a[0].0 < b[0].0 {
        seq![a[0]] + add_terms(a.skip(1), b, p)
    } else if a[0].0 > b[0].0 {
        seq![b[0]] + add_terms(a, b.skip(1), p)
    } else {
        let c = add_coeff(a[0].1, b[0].1, p);
        let rest = add_terms(a.skip(1), b.skip(1), p);
        if c != 0 {
            seq![(a[0].0, c)] + rest
        } else {
            rest
        }
    }
}

/// The terms of a polynomial multiplied by `t^power`, or by `-t^power`
/// where `neg` is set.
pub open spec fn shift_terms(s: Seq<(u16, u8)>, power: u16, neg: bool, p: u8) -> Seq<(u16, u8)> {
    Seq::new(
        s.len(),
        |i: int|
            (
                (s[i].0 + power) as u16,
                if neg {
                    (p - s[i].1) as u8
                } else {
                    s[i].1
                },
            ),
    )
}

/// A polynomial is viewed as the sequence of its terms.
impl View for Polynomial {
    type V = Seq<(u16, u8)>;

    open spec fn view(&self) -> Seq<(u16, u8)> {
        self.data@
    }
}

impl Polynomial {
    /// The polynomial is in canonical form over a positive modulus.
    pub open spec fn wf(&self) -> bool {
        self.p >= 1 && canonical(self.data@, self.p)
    }

    /// The polynomial with the terms `elements` over the modulus `p`. The
    /// terms are taken as they are: whether they are canonical is for the
    /// caller to see to.
    pub fn new(elements: Vec<(u16, u8)>, p: u8) -> (r: Polynomial)
        ensures
            r.data == elements,
            r.p == p,
    {
        Polynomial { data: elements, p }
    }

    /// Whether the polynomial is in canonical form over a positive modulus.
    pub fn is_canonical(&self) -> (r: bool)
        ensures
            r == self.wf(),
    {
        if self.p == 0 {
            return false;
        }
        let n = self.data.len();
        let mut i: usize = 0;
        while i < n
            invariant
                n == self.data@.len(),
                i <= n,
                self.p >= 1,
                forall|a: int, b: int| 0 <= a < b < i ==> self.data@[a].0 < self.data@[b].0,
                forall|a: int| 0 <= a < i ==> 0 < #[trigger] self.data@[a].1 < self.p,
            decreases n - i,
        {
            let (k, c) = self.data[i];
            if c == 0 || c >= self.p {
                return false;
            }
            if i > 0 {
                let before = self.data[i - 1].0;
                if before >= k {
                    return false;
                }
                assert forall|a: int| 0 <= a < i implies self.data@[a].0 < k by {
                    if a < i - 1 {
                        assert(self.data@[a].0 < self.data@[i - 1].0);
                    }
                }
            }
            i += 1;
        }
        true
    }

    /// The zero polynomial: no terms.
    pub fn zero(p: u8) -> (r: Polynomial)
        ensures
            r.data@ == Seq::<(u16, u8)>::empty(),
            r.p == p,
            p >= 1 ==> r.wf(),
    {
        Self::new(Vec::new(), p)
    }

    /// The polynomial 1: the one term `t^0`.
    pub fn one(p: u8) -> (r: Polynomial)
        ensures
            r.data@ == seq![(0u16, 1u8)],
            r.p == p,
            p >= 2 ==> r.wf(),
    {
        let mut v: Vec<(u16, u8)> = Vec::new();
        v.push((0, 1));
        assert(v@ =~= seq![(0u16, 1u8)]);
        Self::new(v, p)
    }

    /// Whether the polynomial has no terms.
    pub fn is_zero(&self) -> (r: bool)
        ensures
            r == (self.data@.len() == 0),
    {
        self.data.len() == 0
    }

    /// The power of the last term of a polynomial that is not zero: the
    /// highest power of a canonical polynomial.
    pub fn max_power(&self) -> (r: u16)
        requires
            self.data@.len() > 0,
        ensures
            r == self.data@.last().0,
            self.wf() ==> powers_upto(self.data@, r as int),
    {
        proof {
            if self.wf() {
                let s = self.data@;
                assert forall|i: int| 0 <= i < s.len() implies (#[trigger] s[i]).0 <= s.last().0 by {
                    if i < s.len() - 1 {
                        assert(s[i].0 < s[s.len() - 1].0);
                    }
                }
            }
        }
        self.data[self.data.len() - 1].0
    }

    /// The power of the first term of a polynomial that is not zero: the
    /// lowest power of a canonical polynomial.
    pub fn min_power(&self) -> (r: u16)
        requires
            self.data@.len() > 0,
        ensures
            r == self.data@.first().0,
            self.wf() ==> powers_from(self.data@, r as int),
    {
        proof {
            if self.wf() {
                let s = self.data@;
                assert forall|i: int| 0 <= i < s.len() implies s[0].0 <= (#[trigger] s[i]).0 by {
                    if i > 0 {
                        assert(s[0].0 < s[i].0);
                    }
                }
            }
        }
        self.data[0].0
    }

    /// The product with `t^power`, negated where `neg` is set.
    pub fn mult(&self, power: u16, neg: bool) -> (r: Polynomial)
        requires
            self.wf(),
            self.data@.len() > 0 ==> self.data@.last().0 + power <= u16::MAX,
        ensures
            r.p == self.p,
            r.data@ == shift_terms(self.data@, power, neg, self.p),
            r.wf(),
    {
        let mut out: Vec<(u16, u8)> = Vec::new();
        let n = self.data.len();
        let mut i: usize = 0;
        while i < n
            invariant
                n == self.data@.len(),
                i <= n,
                self.wf(),
                n > 0 ==> self.data@.last().0 + power <= u16::MAX,
                out@ == shift_terms(self.data@, power, neg, self.p).take(i as int),
            decreases n - i,
        {
            let (k, v) = self.data[i];
            assert(self.data@[i as int].0 <= self.data@.last().0);
            let c: u8 = (if neg {
                self.p - v
            } else {
                v
            }) % self.p;
            proof {
                let full = shift_terms(self.data@, power, neg, self.p);
                assert(full.take(i + 1) =~= full.take(i as int).push(full[i as int]));
                vstd::arithmetic::div_mod::lemma_small_mod((self.p - v) as nat, self.p as nat);
                vstd::arithmetic::div_mod::lemma_small_mod(v as nat, self.p as nat);
            }
            out.push((k + power, c));
            i += 1;
        }
        proof {
            let full = shift_terms(self.data@, power, neg, self.p);
            assert(full.take(n as int) =~= full);
            lemma_shift_canonical(self.data@, power, neg, self.p);
        }
        Polynomial { data: out, p: self.p }
    }
}

/// Shifting a canonical polynomial whose powers leave room keeps it canonical.
pub proof fn lemma_shift_canonical(s: Seq<(u16, u8)>, power: u16, neg: bool, p: u8)
    requires
        canonical(s, p),
        s.len() > 0 ==> s.last().0 + power <= u16::MAX,
    ensures
        canonical(shift_terms(s, power, neg, p), p),
{
    let r = shift_terms(s, power, neg, p);
    assert forall|i: int, j: int| 0 <= i < j < r.len() implies r[i].0 < r[j].0 by {
        assert(s[i].0 < s[j].0);
        assert(s[j].0 <= s.last().0);
    }
    assert forall|i: int| 0 <= i < r.len() implies 0 < #[trigger] r[i].1 < p by {
        assert(0 < s[i].1 < p);
    }
}

impl Polynomial {
    /// The sum of two polynomials: the merge of their terms by power, with
    /// coefficients at equal powers added in Z/pZ and zero results dropped.
    /// The modulus is that of `self`.
    pub fn plus(&self, rhs: &Polynomial) -> (r: Polynomial)
        requires
            self.p >= 1,
        ensures
            r.p == self.p,
            r.data@ == add_terms(self.data@, rhs.data@, self.p),
            self.wf() && rhs.wf() && rhs.p == self.p ==> r.wf(),
            self.wf() && rhs.wf() && rhs.p == self.p ==> forall|k: int|
                #[trigger] coeff(r.data@, k) == (coeff(self.data@, k) + coeff(rhs.data@, k)) % (
                self.p as int),
    {
        let mut c: Vec<(u16, u8)> = Vec::new();
        let mut i: usize = 0;
        let mut j: usize = 0;
        let ghost a = self.data@;
        let ghost b = rhs.data@;
        let ghost p = self.p;
        proof {
            assert(a.skip(0) =~= a);
            assert(b.skip(0) =~= b);
            assert(c@ + add_terms(a, b, p) =~= add_terms(a, b, p));
        }
        while i < self.data.len() && j < rhs.data.len()
            invariant
                a == self.data@,
                b == rhs.data@,
                p == self.p,
                p >= 1,
                i <= a.len(),
                j <= b.len(),
                c@ + add_terms(a.skip(i as int), b.skip(j as int), p) == add_terms(a, b, p),
            decreases a.len() - i + b.len() - j,
        {
            let l = self.data[i];
            let r = rhs.data[j];
            proof {
                assert(a.skip(i as int).skip(1) =~= a.skip(i + 1));
                assert(b.skip(j as int).skip(1) =~= b.skip(j + 1));
            }
            if l.0 > r.0 {
                proof {
                    assert(c@.push(r) + add_terms(a.skip(i as int), b.skip(j + 1), p) =~= c@ + (seq![r]
                        + add_terms(a.skip(i as int), b.skip(j + 1), p)));
                }
                c.push(r);
                j += 1;
            } else if l.0 < r.0 {
                proof {
                    assert(c@.push(l) + add_terms(a.skip(i + 1), b.skip(j as int), p) =~= c@ + (seq![l]
                        + add_terms(a.skip(i + 1), b.skip(j as int), p)));
                }
                c.push(l);
                i += 1;
            } else {
                let sum: u16 = (l.1 as u16 + r.1 as u16) % (self.p as u16);
                let coeff: u8 = sum as u8;
                if coeff != 0 {
                    proof {
                        assert(c@.push((l.0, coeff)) + add_terms(a.skip(i + 1), b.skip(j + 1), p) =~= c@
                            + (seq![(l.0, coeff)] + add_terms(a.skip(i + 1), b.skip(j + 1), p)));
                    }
                    c.push((l.0, coeff));
                }
                i += 1;
                j += 1;
            }
        }
        while j < rhs.data.len()
            invariant
                b == rhs.data@,
                j <= b.len(),
                i <= a.len(),
                i == a.len() || j == b.len(),
                c@ + add_terms(a.skip(i as int), b.skip(j as int), p) == add_terms(a, b, p),
            decreases b.len() - j,
        {
            proof {
                assert(b.skip(j as int).skip(1) =~= b.skip(j + 1));
                assert(b.skip(j as int) =~= seq![b[j as int]] + b.skip(j + 1));
                assert(c@.push(b[j as int]) + b.skip(j + 1) =~= c@ + b.skip(j as int));
                assert(a.skip(i as int).len() == 0);
            }
            c.push(rhs.data[j]);
            j += 1;
        }
        while i < self.data.len()
            invariant
                a == self.data@,
                i <= a.len(),
                j == b.len(),
                c@ + add_terms(a.skip(i as int), b.skip(j as int), p) == add_terms(a, b, p),
            decreases a.len() - i,
        {
            proof {
                assert(a.skip(i as int) =~= seq![a[i as int]] + a.skip(i + 1));
                assert(c@.push(a[i as int]) + a.skip(i + 1) =~= c@ + a.skip(i as int));
                assert(b.skip(j as int).len() == 0);
            }
            c.push(self.data[i]);
            i += 1;
        }
        proof {
            assert(c@ + Seq::<(u16, u8)>::empty() =~= c@);
            if self.wf() && rhs.wf() && rhs.p == self.p {
                lemma_add_canonical(a, b, p, 0);
                assert forall|k: int| #[trigger]
                    coeff(c@, k) == (coeff(a, k) + coeff(b, k)) % (p as int) by {
                    lemma_add_coeff(a, b, p, k);
                }
            }
        }
        Polynomial { data: c, p: self.p }
    }
}

impl core::ops::Add for &Polynomial {
    type Output = Polynomial;

    /// The sum of two polynomials, as `plus` gives it.
    fn add(self, rhs: &Polynomial) -> (r: Polynomial)
        ensures
            r.p == self.p,
            r.data@ == add_terms(self.data@, rhs.data@, self.p),
            self.wf() && rhs.wf() && rhs.p == self.p ==> r.wf(),
            self.wf() && rhs.wf() && rhs.p == self.p ==> forall|k: int|
                #[trigger] coeff(r.data@, k) == (coeff(self.data@, k) + coeff(rhs.data@, k)) % (
                self.p as int),
    {
        self.plus(rhs)
    }
}

/// `+` on references asks for a positive modulus and is specified by the
/// `ensures` of `add`: no spec-mode `Polynomial` can be built from its terms,
/// so `add_spec` names none.
impl AddSpecImpl for &Polynomial {
    open spec fn obeys_add_spec() -> bool {
        false
    }

    open spec fn add_req(self, rhs: &Polynomial) -> bool {
        self.p >= 1
    }

    open spec fn add_spec(self, rhs: &Polynomial) -> Polynomial {
        *self
    }
}

impl core::ops::Add for Polynomial {
    type Output = Polynomial;

    /// The sum of two polynomials, as `plus` gives it.
    fn add(self, rhs: Polynomial) -> (r: Polynomial)
        ensures
            r.p == self.p,
            r.data@ == add_terms(self.data@, rhs.data@, self.p),
            self.wf() && rhs.wf() && rhs.p == self.p ==> r.wf(),
            self.wf() && rhs.wf() && rhs.p == self.p ==> forall|k: int|
                #[trigger] coeff(r.data@, k) == (coeff(self.data@, k) + coeff(rhs.data@, k)) % (
                self.p as int),
    {
        self.plus(&rhs)
    }
}

/// `+` on values asks for a positive modulus and is specified by the
/// `ensures` of `add`.
impl AddSpecImpl for Polynomial {
    open spec fn obeys_add_spec() -> bool {
        false
    }

    open spec fn add_req(self, rhs: Polynomial) -> bool {
        self.p >= 1
    }

    open spec fn add_spec(self, rhs: Polynomial) -> Polynomial {
        self
    }
}

impl PartialEq for Polynomial {
    /// Two polynomials are equal when their terms are; the moduli are not
    /// compared.
    fn eq(&self, rhs: &Polynomial) -> (r: bool) {
        if self.data.len() != rhs.data.len() {
            return false;
        }
        let n = self.data.len();
        let mut i: usize = 0;
        while i < n
            invariant
                n == self.data@.len(),
                n == rhs.data@.len(),
                i <= n,
                forall|j: int| 0 <= j < i ==> self.data@[j] == rhs.data@[j],
            decreases n - i,
        {
            let l = self.data[i];
            let r = rhs.data[i];
            if l.0 != r.0 || l.1 != r.1 {
                return false;
            }
            i += 1;
        }
        assert(self.data@ =~= rhs.data@);
        true
    }
}

impl PartialEqSpecImpl for Polynomial {
    open spec fn obeys_eq_spec() -> bool {
        true
    }

    open spec fn eq_spec(&self, rhs: &Polynomial) -> bool {
        self.data@ == rhs.data@
    }
}

/// A 3x3 matrix of polynomials over one modulus, stored row by row.
#[derive(Clone, Debug)]
pub struct Matrix {
    pub d: [Polynomial; 9],
    pub p: u8,
}

/// Some entry of `m` holds a term of power `k`.
pub open spec fn has_power(m: Seq<Seq<(u16, u8)>>, k: int) -> bool {
    exists|i: int, t: int| 0 <= i < m.len() && 0 <= t < m[i].len() && (#[trigger] m[i][t]).0 == k
}

/// `k` is the least power that occurs in `m`.
pub open spec fn is_lowest_power(m: Seq<Seq<(u16, u8)>>, k: int) -> bool {
    has_power(m, k) && forall|j: int| has_power(m, j) ==> k <= j
}

/// `k` is the greatest power that occurs in `m`.
pub open spec fn is_highest_power(m: Seq<Seq<(u16, u8)>>, k: int) -> bool {
    has_power(m, k) && forall|j: int| has_power(m, j) ==> j <= k
}

/// The projective length of the matrix with entries `m`: the span of the
/// powers that occur in it, both ends counted.
pub open spec fn projlen_of(m: Seq<Seq<(u16, u8)>>) -> int {
    (choose|hi: int| is_highest_power(m, hi)) - (choose|lo: int| is_lowest_power(m, lo)) + 1
}

/// The entries of the identity matrix.
pub open spec fn identity_entries() -> Seq<Seq<(u16, u8)>> {
    Seq::new(
        9,
        |i: int|
            if i % 4 == 0 {
                seq![(0u16, 1u8)]
            } else {
                Seq::empty()
            },
    )
}

/// The identity matrix has projective length 1, over every modulus.
pub proof fn lemma_identity_projlen()
    ensures
        projlen_of(identity_entries()) == 1,
{
    let m = identity_entries();
    assert(m[0][0].0 == 0);
    assert(has_power(m, 0));
    assert forall|k: int| has_power(m, k) implies k == 0 by {
        let (i, t) = choose|i: int, t: int|
            0 <= i < m.len() && 0 <= t < m[i].len() && (#[trigger] m[i][t]).0 == k;
        assert(m[i] == seq![(0u16, 1u8)]);
    }
    assert(is_lowest_power(m, 0));
    assert(is_highest_power(m, 0));
    let lo = choose|x: int| is_lowest_power(m, x);
    let hi = choose|x: int| is_highest_power(m, x);
    assert(lo == 0 && hi == 0);
}

/// A matrix is viewed as its nine entries, row by row, each by its terms.
impl View for Matrix {
    type V = Seq<Seq<(u16, u8)>>;

    open spec fn view(&self) -> Seq<Seq<(u16, u8)>> {
        Seq::new(9, |i: int| self.d[i].data@)
    }
}

impl Matrix {
    /// Every entry is canonical over the matrix's modulus.
    pub open spec fn wf(&self) -> bool {
        &&& self.p >= 1
        &&& forall|i: int| 0 <= i < 9 ==> (#[trigger] self.d[i]).wf() && self.d[i].p == self.p
    }

    /// Some entry is not the zero polynomial.
    pub open spec fn is_nonzero(&self) -> bool {
        exists|i: int| 0 <= i < 9 && (#[trigger] self.d[i]).data@.len() > 0
    }

    /// No entry holds a power above `hi`.
    pub open spec fn powers_upto(&self, hi: int) -> bool {
        forall|i: int| 0 <= i < 9 ==> powers_upto((#[trigger] self.d[i]).data@, hi)
    }

    /// The projective length: the span of the powers that occur in the
    /// matrix, both ends counted.
    pub open spec fn spec_projlen(&self) -> int {
        projlen_of(self@)
    }

    /// A bound on the powers can be raised.
    pub proof fn lemma_powers_weaken(&self, lo: int, hi: int)
        requires
            self.powers_upto(lo),
            lo <= hi,
        ensures
            self.powers_upto(hi),
    {
        assert forall|i: int| 0 <= i < 9 implies powers_upto((#[trigger] self.d[i]).data@, hi) by {
            assert(powers_upto(self.d[i].data@, lo));
        }
    }

    /// Whether every entry is canonical over the matrix's modulus.
    pub fn is_canonical(&self) -> (r: bool)
        ensures
            r == self.wf(),
    {
        if self.p == 0 {
            return false;
        }
        let mut i: usize = 0;
        while i < 9
            invariant
                i <= 9,
                self.p >= 1,
                forall|j: int| 0 <= j < i ==> (#[trigger] self.d[j]).wf() && self.d[j].p == self.p,
            decreases 9 - i,
        {
            if self.d[i].p != self.p || !self.d[i].is_canonical() {
                return false;
            }
            i += 1;
        }
        true
    }

    /// The zero matrix: nine zero polynomials.
    pub fn zero(p: u8) -> (r: Matrix)
        ensures
            r.p == p,
            forall|i: int| 0 <= i < 9 ==> (#[trigger] r.d[i]).data@.len() == 0 && r.d[i].p == p,
            r.powers_upto(0),
            p >= 1 ==> r.wf(),
    {
        let d: [Polynomial; 9] = [
            Polynomial::zero(p),
            Polynomial::zero(p),
            Polynomial::zero(p),
            Polynomial::zero(p),
            Polynomial::zero(p),
            Polynomial::zero(p),
            Polynomial::zero(p),
            Polynomial::zero(p),
            Polynomial::zero(p),
        ];
        Matrix { d, p }
    }

    /// The identity matrix: 1 on the diagonal, zero elsewhere.
    pub fn identity(p: u8) -> (r: Matrix)
        ensures
            r.p == p,
            r@ == identity_entries(),
            r.spec_projlen() == 1,
            r.powers_upto(0),
            forall|i: int| 0 <= i < 9 ==> (#[trigger] r.d[i]).p == p,
            p >= 2 ==> r.wf() && r.is_nonzero(),
    {
        proof {
            lemma_identity_projlen();
        }
        let d: [Polynomial; 9] = [
            Polynomial::one(p),
            Polynomial::zero(p),
            Polynomial::zero(p),
            Polynomial::zero(p),
            Polynomial::one(p),
            Polynomial::zero(p),
            Polynomial::zero(p),
            Polynomial::zero(p),
            Polynomial::one(p),
        ];
        let r = Matrix { d, p };
        assert(r.d[0].data@.len() > 0);
        assert(r@ =~= identity_entries());
        assert forall|i: int| 0 <= i < 9 implies powers_upto((#[trigger] r.d[i]).data@, 0) by {
            assert(r@[i] == r.d[i].data@);
            assert(identity_entries()[i].len() <= 1);
        }
        r
    }

    /// The highest power that occurs in a matrix whose entries are
    /// canonical; 0 for the zero matrix.
    pub fn max_power(&self) -> (r: u16)
        requires
            self.wf(),
        ensures
            self.powers_upto(r as int),
            self.is_nonzero() ==> has_power(self@, r as int),
            !self.is_nonzero() ==> r == 0,
    {
        let mut top: u16 = 0;
        let ghost mut at: int = -1;
        let mut i: usize = 0;
        while i < 9
            invariant
                i <= 9,
                self.wf(),
                -1 <= at < i,
                at == -1 ==> top == 0 && forall|j: int|
                    0 <= j < i ==> (#[trigger] self.d[j]).data@.len() == 0,
                at != -1 ==> self.d[at].data@.len() > 0 && self.d[at].data@.last().0 == top,
                forall|j: int| 0 <= j < i ==> powers_upto((#[trigger] self.d[j]).data@, top as int),
            decreases 9 - i,
        {
            if !self.d[i].is_zero() {
                assert(self.d[i as int].wf());
                let hi = self.d[i].max_power();
                if hi >= top {
                    proof {
                        assert forall|j: int| 0 <= j < i implies powers_upto(
                            (#[trigger] self.d[j]).data@,
                            hi as int,
                        ) by {
                            assert(powers_upto(self.d[j].data@, top as int));
                        }
                        at = i as int;
                    }
                    top = hi;
                } else {
                    proof {
                        assert(powers_upto(self.d[i as int].data@, hi as int));
                    }
                }
            }
            i += 1;
        }
        proof {
            if self.is_nonzero() {
                assert(at != -1) by {
                    let w = choose|j: int| 0 <= j < 9 && (#[trigger] self.d[j]).data@.len() > 0;
                    assert(self.d[w].data@.len() > 0);
                }
                let s = self.d[at].data@;
                assert(self@[at] == s);
                assert(self@[at][s.len() - 1].0 == top);
            } else if at != -1 {
                assert(self.d[at].data@.len() > 0);
            }
        }
        top
    }

    /// The projective length of a matrix that is not zero.
    pub fn projlen(&self) -> (r: u32)
        requires
            self.wf(),
            self.is_nonzero(),
        ensures
            r == self.spec_projlen(),
            1 <= r <= 65536,
    {
        let mut min_power: u16 = u16::MAX;
        let mut max_power: u16 = 0;
        let ghost mut lo_at: int = -1;
        let ghost mut hi_at: int = -1;
        let mut i: usize = 0;
        while i < 9
            invariant
                self.wf(),
                i <= 9,
                -1 <= lo_at < i,
                -1 <= hi_at < i,
                (lo_at == -1) == (hi_at == -1),
                lo_at == -1 ==> min_power == u16::MAX && max_power == 0,
                lo_at == -1 ==> forall|j: int| 0 <= j < i ==> (#[trigger] self.d[j]).data@.len() == 0,
                lo_at != -1 ==> self.d[lo_at].data@.len() > 0 && self.d[lo_at].data@.first().0
                    == min_power,
                hi_at != -1 ==> self.d[hi_at].data@.len() > 0 && self.d[hi_at].data@.last().0
                    == max_power,
                forall|j: int|
                    0 <= j < i && (#[trigger] self.d[j]).data@.len() > 0 ==> min_power
                        <= self.d[j].data@.first().0 && self.d[j].data@.last().0 <= max_power,
            decreases 9 - i,
        {
            if !self.d[i].is_zero() {
                let lo = self.d[i].min_power();
                let hi = self.d[i].max_power();
                if lo <= min_power {
                    min_power = lo;
                    proof {
                        lo_at = i as int;
                    }
                }
                if hi >= max_power {
                    max_power = hi;
                    proof {
                        hi_at = i as int;
                    }
                }
            }
            i += 1;
        }
        proof {
            assert(lo_at != -1) by {
                let w = choose|j: int| 0 <= j < 9 && (#[trigger] self.d[j]).data@.len() > 0;
                assert(self.d[w].data@.len() > 0);
            }
            self.lemma_bounds_are_projlen(min_power as int, max_power as int, lo_at, hi_at);
        }
        (max_power as u32) - (min_power as u32) + 1
    }

    /// Where `lo` is the first power of one entry, `hi` the last power of
    /// one, and every entry lies between them, they span the matrix.
    proof fn lemma_bounds_are_projlen(&self, lo: int, hi: int, lo_at: int, hi_at: int)
        requires
            self.wf(),
            0 <= lo_at < 9,
            0 <= hi_at < 9,
            self.d[lo_at].data@.len() > 0 && self.d[lo_at].data@.first().0 == lo,
            self.d[hi_at].data@.len() > 0 && self.d[hi_at].data@.last().0 == hi,
            forall|j: int|
                0 <= j < 9 && (#[trigger] self.d[j]).data@.len() > 0 ==> lo
                    <= self.d[j].data@.first().0 && self.d[j].data@.last().0 <= hi,
        ensures
            is_lowest_power(self@, lo),
            is_highest_power(self@, hi),
            self.spec_projlen() == hi - lo + 1,
            lo <= hi,
    {
        let m = self@;
        assert(m[lo_at] == self.d[lo_at].data@ && m[hi_at] == self.d[hi_at].data@);
        assert(m[lo_at][0].0 == lo);
        assert(has_power(m, lo));
        let last = m[hi_at].len() - 1;
        assert(m[hi_at][last].0 == hi);
        assert(has_power(m, hi));
        assert forall|k: int| has_power(m, k) implies lo <= k <= hi by {
            let (j, t) = choose|j: int, t: int|
                0 <= j < m.len() && 0 <= t < m[j].len() && (#[trigger] m[j][t]).0 == k;
            let s = self.d[j].data@;
            assert(m[j] == s);
            assert(self.d[j].wf());
            assert(s.len() > 0);
            if t > 0 {
                assert(s[0].0 < s[t].0);
            }
            if t < s.len() - 1 {
                assert(s[t].0 < s[s.len() - 1].0);
            }
        }
        assert(is_lowest_power(m, lo));
        assert(is_highest_power(m, hi));
        let lo2 = choose|x: int| is_lowest_power(m, x);
        let hi2 = choose|x: int| is_highest_power(m, x);
        assert(lo2 == lo && hi2 == hi);
    }
}

impl PartialEq for Matrix {
    /// Two matrices are equal when their entries are, one by one.
    fn eq(&self, rhs: &Matrix) -> (r: bool) {
        let mut i: usize = 0;
        while i < 9
            invariant
                i <= 9,
                forall|j: int| 0 <= j < i ==> (#[trigger] self.d[j]).data@ == rhs.d[j].data@,
            decreases 9 - i,
        {
            if self.d[i] != rhs.d[i] {
                return false;
            }
            i += 1;
        }
        true
    }
}

impl PartialEqSpecImpl for Matrix {
    open spec fn obeys_eq_spec() -> bool {
        true
    }

    open spec fn eq_spec(&self, rhs: &Matrix) -> bool {
        forall|j: int| 0 <= j < 9 ==> (#[trigger] self.d[j]).data@ == rhs.d[j].data@
    }
}

/// Every power in `s` is at least `lo`.
pub open spec fn powers_from(s: Seq<(u16, u8)>, lo: int) -> bool {
    forall|i: int| 0 <= i < s.len() ==> lo <= (#[trigger] s[i]).0
}

/// A canonical polynomial has every coefficient in `[0, p)`, and none
/// below its first power.
pub proof fn lemma_coeff_range(s: Seq<(u16, u8)>, p: u8, k: int)
    requires
        p >= 1,
        canonical(s, p),
    ensures
        0 <= coeff(s, k) < p,
        forall|lo: int| powers_from(s, lo) && k < lo ==> coeff(s, k) == 0,
    decreases s.len(),
{
    if s.len() > 0 {
        lemma_skip_canonical(s, p);
        lemma_coeff_range(s.skip(1), p, k);
        assert forall|lo: int| powers_from(s, lo) && k < lo implies coeff(s, k) == 0 by {
            assert(lo <= s[0].0);
            assert(powers_from(s.skip(1), lo)) by {
                assert forall|i: int| 0 <= i < s.skip(1).len() implies lo <= (#[trigger] s.skip(
                    1,
                )[i]).0 by {
                    assert(s.skip(1)[i] == s[i + 1]);
                }
            }
        }
        assert(0 < s[0].1 < p);
    }
}

/// The tail of a canonical polynomial is canonical and starts above its head.
pub proof fn lemma_skip_canonical(s: Seq<(u16, u8)>, p: u8)
    requires
        canonical(s, p),
        s.len() > 0,
    ensures
        canonical(s.skip(1), p),
        powers_from(s.skip(1), s[0].0 + 1),
        powers_from(s, s[0].0 as int),
{
    let t = s.skip(1);
    assert forall|i: int, j: int| 0 <= i < j < t.len() implies t[i].0 < t[j].0 by {
        assert(t[i] == s[i + 1] && t[j] == s[j + 1]);
    }
    assert forall|i: int| 0 <= i < t.len() implies 0 < #[trigger] t[i].1 < p by {
        assert(t[i] == s[i + 1]);
        assert(0 < s[i + 1].1 < p);
    }
    assert forall|i: int| 0 <= i < t.len() implies s[0].0 + 1 <= (#[trigger] t[i]).0 by {
        assert(t[i] == s[i + 1]);
        assert(s[0].0 < s[i + 1].0);
    }
    assert forall|i: int| 0 <= i < s.len() implies s[0].0 as int <= (#[trigger] s[i]).0 by {
        if i > 0 {
            assert(s[0].0 < s[i].0);
        }
    }
}

/// A term in front of a canonical polynomial that starts above its power.
pub proof fn lemma_cons_canonical(x: (u16, u8), s: Seq<(u16, u8)>, p: u8)
    requires
        canonical(s, p),
        powers_from(s, x.0 + 1),
        0 < x.1 < p,
    ensures
        canonical(seq![x] + s, p),
        powers_from(seq![x] + s, x.0 as int),
        (seq![x] + s).skip(1) == s,
        (seq![x] + s)[0] == x,
{
    let r = seq![x] + s;
    assert(r.skip(1) =~= s);
    assert forall|i: int, j: int| 0 <= i < j < r.len() implies r[i].0 < r[j].0 by {
        assert(r[j] == s[j - 1]);
        if i > 0 {
            assert(r[i] == s[i - 1]);
        }
    }
    assert forall|i: int| 0 <= i < r.len() implies 0 < #[trigger] r[i].1 < p by {
        if i > 0 {
            assert(r[i] == s[i - 1]);
            assert(0 < s[i - 1].1 < p);
        }
    }
    assert forall|i: int| 0 <= i < r.len() implies x.0 as int <= (#[trigger] r[i]).0 by {
        if i > 0 {
            assert(r[i] == s[i - 1]);
        }
    }
}

/// The sum of canonical polynomials is canonical, and starts no lower than
/// both of them.
pub proof fn lemma_add_canonical(a: Seq<(u16, u8)>, b: Seq<(u16, u8)>, p: u8, lo: int)
    requires
        p >= 1,
        canonical(a, p),
        canonical(b, p),
        powers_from(a, lo),
        powers_from(b, lo),
    ensures
        canonical(add_terms(a, b, p), p),
        powers_from(add_terms(a, b, p), lo),
    decreases a.len() + b.len(),
{
    if a.len() == 0 || b.len() == 0 {
    } else {
        lemma_skip_canonical(a, p);
        lemma_skip_canonical(b, p);
        assert(lo <= a[0].0 && lo <= b[0].0);
        assert(0 < a[0].1 < p && 0 < b[0].1 < p);
        if a[0].0 < b[0].0 {
            let rest = add_terms(a.skip(1), b, p);
            assert(powers_from(b, a[0].0 + 1)) by {
                assert forall|i: int| 0 <= i < b.len() implies a[0].0 + 1 <= (#[trigger] b[i]).0 by {
                    assert(b[0].0 <= b[i].0);
                }
            }
            lemma_add_canonical(a.skip(1), b, p, a[0].0 + 1);
            lemma_cons_canonical(a[0], rest, p);
        } else if a[0].0 > b[0].0 {
            let rest = add_terms(a, b.skip(1), p);
            assert(powers_from(a, b[0].0 + 1)) by {
                assert forall|i: int| 0 <= i < a.len() implies b[0].0 + 1 <= (#[trigger] a[i]).0 by {
                    assert(a[0].0 <= a[i].0);
                }
            }
            lemma_add_canonical(a, b.skip(1), p, b[0].0 + 1);
            lemma_cons_canonical(b[0], rest, p);
        } else {
            let c = add_coeff(a[0].1, b[0].1, p);
            let rest = add_terms(a.skip(1), b.skip(1), p);
            lemma_add_canonical(a.skip(1), b.skip(1), p, a[0].0 + 1);
            if c != 0 {
                lemma_cons_canonical((a[0].0, c), rest, p);
            } else {
                assert forall|i: int| 0 <= i < rest.len() implies lo <= (#[trigger] rest[i]).0 by {
                    assert(a[0].0 + 1 <= rest[i].0);
                }
            }
        }
    }
}

/// Addition works coefficient by coefficient in Z/pZ.
pub proof fn lemma_add_coeff(a: Seq<(u16, u8)>, b: Seq<(u16, u8)>, p: u8, k: int)
    requires
        p >= 1,
        canonical(a, p),
        canonical(b, p),
    ensures
        coeff(add_terms(a, b, p), k) == (coeff(a, k) + coeff(b, k)) % (p as int),
    decreases a.len() + b.len(),
{
    lemma_coeff_range(a, p, k);
    lemma_coeff_range(b, p, k);
    if a.len() == 0 {
        vstd::arithmetic::div_mod::lemma_small_mod(coeff(b, k) as nat, p as nat);
    } else if b.len() == 0 {
        vstd::arithmetic::div_mod::lemma_small_mod(coeff(a, k) as nat, p as nat);
    } else {
        lemma_skip_canonical(a, p);
        lemma_skip_canonical(b, p);
        lemma_coeff_range(a.skip(1), p, k);
        lemma_coeff_range(b.skip(1), p, k);
        assert(0 < a[0].1 < p && 0 < b[0].1 < p);
        if a[0].0 < b[0].0 {
            let rest = add_terms(a.skip(1), b, p);
            assert((seq![a[0]] + rest).skip(1) =~= rest);
            lemma_add_coeff(a.skip(1), b, p, k);
            if k == a[0].0 {
                assert(powers_from(b, b[0].0 as int));
                vstd::arithmetic::div_mod::lemma_small_mod(a[0].1 as nat, p as nat);
            }
        } else if a[0].0 > b[0].0 {
            let rest = add_terms(a, b.skip(1), p);
            assert((seq![b[0]] + rest).skip(1) =~= rest);
            lemma_add_coeff(a, b.skip(1), p, k);
            if k == b[0].0 {
                assert(powers_from(a, a[0].0 as int));
                vstd::arithmetic::div_mod::lemma_small_mod(b[0].1 as nat, p as nat);
            }
        } else {
            let c = add_coeff(a[0].1, b[0].1, p);
            let rest = add_terms(a.skip(1), b.skip(1), p);
            assert((seq![(a[0].0, c)] + rest).skip(1) =~= rest);
            lemma_add_coeff(a.skip(1), b.skip(1), p, k);
            if k == a[0].0 {
                vstd::arithmetic::div_mod::lemma_small_mod(0, p as nat);
                assert(0 <= (a[0].1 + b[0].1) % (p as int) < p) by {
                    vstd::arithmetic::div_mod::lemma_mod_bound(a[0].1 + b[0].1, p as int);
                }
            }
        }
    }
}

/// Addition is commutative.
pub proof fn lemma_add_commutative(a: Seq<(u16, u8)>, b: Seq<(u16, u8)>, p: u8)
    ensures
        add_terms(a, b, p) == add_terms(b, a, p),
    decreases a.len() + b.len(),
{
    if a.len() == 0 || b.len() == 0 {
    } else if a[0].0 < b[0].0 {
        lemma_add_commutative(a.skip(1), b, p);
    } else if a[0].0 > b[0].0 {
        lemma_add_commutative(a, b.skip(1), p);
    } else {
        lemma_add_commutative(a.skip(1), b.skip(1), p);
    }
}

/// The zero polynomial is neutral for addition, on either side.
pub proof fn lemma_add_zero(a: Seq<(u16, u8)>, p: u8)
    ensures
        add_terms(a, Seq::empty(), p) == a,
        add_terms(Seq::empty(), a, p) == a,
{
}

/// Multiplying by `t^0` changes nothing.
pub proof fn lemma_shift_identity(s: Seq<(u16, u8)>, p: u8)
    ensures
        shift_terms(s, 0, false, p) == s,
{
    assert(shift_terms(s, 0, false, p) =~= s);
}

/// Multiplying by `-t^a` turns every coefficient `c` into `p - c`.
pub proof fn lemma_shift_negates(s: Seq<(u16, u8)>, a: u16, p: u8, i: int)
    requires
        0 <= i < s.len(),
    ensures
        shift_terms(s, a, true, p).len() == s.len(),
        shift_terms(s, a, true, p)[i].1 == (p - s[i].1) as u8,
{
}

/// Shifts compose: the powers add up and the signs multiply.
pub proof fn lemma_shift_compose(s: Seq<(u16, u8)>, a: u16, na: bool, b: u16, nb: bool, p: u8)
    requires
        canonical(s, p),
        s.len() > 0 ==> s.last().0 + a + b <= u16::MAX,
    ensures
        shift_terms(shift_terms(s, a, na, p), b, nb, p) == shift_terms(
            s,
            (a + b) as u16,
            na != nb,
            p,
        ),
{
    let l = shift_terms(shift_terms(s, a, na, p), b, nb, p);
    let r = shift_terms(s, (a + b) as u16, na != nb, p);
    assert forall|i: int| 0 <= i < l.len() implies l[i] == r[i] by {
        assert(s[i].0 <= s.last().0);
        assert(0 < s[i].1 < p);
    }
    assert(l =~= r);
}

/// Every power in `s` is at most `hi`.
pub open spec fn powers_upto(s: Seq<(u16, u8)>, hi: int) -> bool {
    forall|i: int| 0 <= i < s.len() ==> (#[trigger] s[i]).0 <= hi
}

/// A sum holds no power above those of its operands.
pub proof fn lemma_add_powers_upto(a: Seq<(u16, u8)>, b: Seq<(u16, u8)>, p: u8, hi: int)
    requires
        powers_upto(a, hi),
        powers_upto(b, hi),
    ensures
        powers_upto(add_terms(a, b, p), hi),
    decreases a.len() + b.len(),
{
    if a.len() == 0 || b.len() == 0 {
    } else {
        assert(a[0].0 <= hi && b[0].0 <= hi);
        assert(powers_upto(a.skip(1), hi)) by {
            assert forall|i: int| 0 <= i < a.skip(1).len() implies (#[trigger] a.skip(1)[i]).0
                <= hi by {
                assert(a.skip(1)[i] == a[i + 1]);
            }
        }
        assert(powers_upto(b.skip(1), hi)) by {
            assert forall|i: int| 0 <= i < b.skip(1).len() implies (#[trigger] b.skip(1)[i]).0
                <= hi by {
                assert(b.skip(1)[i] == b[i + 1]);
            }
        }
        let (x, rest) = if a[0].0 < b[0].0 {
            (a[0], add_terms(a.skip(1), b, p))
        } else if a[0].0 > b[0].0 {
            (b[0], add_terms(a, b.skip(1), p))
        } else {
            ((a[0].0, add_coeff(a[0].1, b[0].1, p)), add_terms(a.skip(1), b.skip(1), p))
        };
        if a[0].0 < b[0].0 {
            lemma_add_powers_upto(a.skip(1), b, p, hi);
        } else if a[0].0 > b[0].0 {
            lemma_add_powers_upto(a, b.skip(1), p, hi);
        } else {
            lemma_add_powers_upto(a.skip(1), b.skip(1), p, hi);
        }
        assert forall|i: int| 0 <= i < (seq![x] + rest).len() implies (#[trigger] (seq![x]
            + rest)[i]).0 <= hi by {
            if i > 0 {
                assert((seq![x] + rest)[i] == rest[i - 1]);
            }
        }
    }
}

/// Two polynomials with the same powers whose coefficients add up to `p`,
/// term by term: each is the negative of the other.
pub open spec fn opposite(x: Seq<(u16, u8)>, y: Seq<(u16, u8)>, p: u8) -> bool {
    &&& x.len() == y.len()
    &&& forall|i: int| 0 <= i < x.len() ==> (#[trigger] x[i]).0 == y[i].0 && x[i].1 + y[i].1 == p
}

/// Canonical polynomials whose sum is zero are opposite.
pub proof fn lemma_zero_sum_opposite(x: Seq<(u16, u8)>, y: Seq<(u16, u8)>, p: u8)
    requires
        p >= 1,
        canonical(x, p),
        canonical(y, p),
        add_terms(x, y, p).len() == 0,
    ensures
        opposite(x, y, p),
    decreases x.len() + y.len(),
{
    if x.len() == 0 || y.len() == 0 {
    } else {
        assert(0 < x[0].1 < p && 0 < y[0].1 < p);
        let s = x[0].1 + y[0].1;
        assert(x[0].0 == y[0].0 && add_coeff(x[0].1, y[0].1, p) == 0);
        assert(s == p) by {
            if s < p {
                vstd::arithmetic::div_mod::lemma_small_mod(s as nat, p as nat);
            } else {
                vstd::arithmetic::div_mod::lemma_mod_add_multiples_vanish(s - p, p as int);
                vstd::arithmetic::div_mod::lemma_small_mod((s - p) as nat, p as nat);
            }
        }
        lemma_skip_canonical(x, p);
        lemma_skip_canonical(y, p);
        lemma_zero_sum_opposite(x.skip(1), y.skip(1), p);
        assert forall|i: int| 0 <= i < x.len() implies (#[trigger] x[i]).0 == y[i].0 && x[i].1
            + y[i].1 == p by {
            if i > 0 {
                assert(x.skip(1)[i - 1] == x[i]);
                assert(y.skip(1)[i - 1] == y[i]);
            }
        }
    }
}

/// The sum of opposite polynomials is zero.
pub proof fn lemma_opposite_sum_zero(x: Seq<(u16, u8)>, y: Seq<(u16, u8)>, p: u8)
    requires
        p >= 1,
        opposite(x, y, p),
    ensures
        add_terms(x, y, p).len() == 0,
    decreases x.len(),
{
    if x.len() > 0 {
        assert(x[0].0 == y[0].0 && x[0].1 + y[0].1 == p);
        vstd::arithmetic::div_mod::lemma_mod_self_0(p as int);
        assert(opposite(x.skip(1), y.skip(1), p)) by {
            assert forall|i: int| 0 <= i < x.skip(1).len() implies (#[trigger] x.skip(1)[i]).0
                == y.skip(1)[i].0 && x.skip(1)[i].1 + y.skip(1)[i].1 == p by {
                assert(x.skip(1)[i] == x[i + 1]);
                assert(y.skip(1)[i] == y[i + 1]);
            }
        }
        lemma_opposite_sum_zero(x.skip(1), y.skip(1), p);
    }
}

/// The terms of a polynomial times the single term `c t^k`: every power
/// raised by `k`, every coefficient multiplied by `c` in Z/pZ, and the
/// products that are zero dropped.
pub open spec fn scale_terms(x: Seq<(u16, u8)>, k: u16, c: u8, p: u8) -> Seq<(u16, u8)>
    decreases x.len(),
{
    if x.len() == 0 {
        Seq::empty()
    } else {
        let coef = ((x[0].1 * c) % (p as int)) as u8;
        let rest = scale_terms(x.skip(1), k, c, p);
        if coef != 0 {
            seq![((x[0].0 + k) as u16, coef)] + rest
        } else {
            rest
        }
    }
}

/// The terms of the product of two polynomials: the first times every term
/// of the second, added up.
pub open spec fn mul_terms(x: Seq<(u16, u8)>, y: Seq<(u16, u8)>, p: u8) -> Seq<(u16, u8)>
    decreases y.len(),
{
    if y.len() == 0 {
        Seq::empty()
    } else {
        add_terms(scale_terms(x, y[0].0, y[0].1, p), mul_terms(x, y.skip(1), p), p)
    }
}

/// Multiplying by the term `t^k` is shifting by `k`, and multiplying by
/// `(p - 1) t^k` is shifting by `k` and negating.
pub proof fn lemma_scale_is_shift(x: Seq<(u16, u8)>, k: u16, neg: bool, p: u8)
    requires
        p >= 2,
        canonical(x, p),
    ensures
        scale_terms(
            x,
            k,
            if neg {
                (p - 1) as u8
            } else {
                1u8
            },
            p,
        ) == shift_terms(x, k, neg, p),
    decreases x.len(),
{
    let c: u8 = if neg {
        (p - 1) as u8
    } else {
        1u8
    };
    if x.len() > 0 {
        lemma_skip_canonical(x, p);
        lemma_scale_is_shift(x.skip(1), k, neg, p);
        let v = x[0].1 as int;
        assert(0 < v < p);
        if neg {
            assert(v * (p - 1) == p * (v - 1) + (p - v)) by (nonlinear_arith);
            vstd::arithmetic::div_mod::lemma_mod_multiples_vanish(v - 1, p - v, p as int);
            vstd::arithmetic::div_mod::lemma_small_mod((p - v) as nat, p as nat);
            assert((v * (p - 1)) % (p as int) == p - v);
        } else {
            assert(v * 1 == v);
            vstd::arithmetic::div_mod::lemma_small_mod(v as nat, p as nat);
        }
        let head = shift_terms(x, k, neg, p)[0];
        assert(shift_terms(x, k, neg, p) =~= seq![head] + shift_terms(x.skip(1), k, neg, p));
    } else {
        assert(shift_terms(x, k, neg, p) =~= Seq::<(u16, u8)>::empty());
    }
}

} // verus!
