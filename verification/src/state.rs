//! A node of the search: a sequence of generators and the matrix they give.

use crate::algebra::{identity_entries, Matrix};
use crate::garside::{act_by, act_on};
use vstd::prelude::*;

verus! {

/// The longest generator sequence that can still be extended: every
/// generator raises the powers by at most 4, and a power is a `u16`.
pub const MAX_DEPTH: usize = 16382;

/// A sequence of generators and the matrix reached by applying them, in
/// order, to the identity.
#[derive(Clone)]
pub struct State {
    pub factors: Vec<u32>,
    pub mat: Matrix,
}

/// The entries of the matrix reached from the identity by applying the
/// generators `fs`, first to last, over the modulus `p`.
pub open spec fn reach(fs: Seq<u32>, p: u8) -> Seq<Seq<(u16, u8)>>
    decreases fs.len(),
{
    if fs.len() == 0 {
        identity_entries()
    } else {
        act_on(reach(fs.drop_last(), p), fs.last(), p)
    }
}

impl State {
    /// The state is one that the search can hold: a sequence of generator
    /// ids, not empty, with the matrix it reaches over the modulus `p`. That
    /// matrix is not zero, and its powers are at most 4 per generator.
    pub open spec fn wf(&self, p: u8) -> bool {
        &&& p >= 2
        &&& self.factors@.len() >= 1
        &&& forall|i: int| 0 <= i < self.factors@.len() ==> 1 <= #[trigger] self.factors@[i] <= 22
        &&& self.mat.wf()
        &&& self.mat.p == p
        &&& self.mat.is_nonzero()
        &&& self.mat@ == reach(self.factors@, p)
        &&& self.mat.powers_upto(4 * (self.factors@.len() as int))
    }

    /// The state of the one generator `factor`, applied to the identity.
    pub fn new(factor: u32, p: u8) -> (r: State)
        requires
            p >= 2,
        ensures
            r.factors@ == seq![factor],
            r.mat@ == act_on(identity_entries(), factor, p),
            r.mat.p == p,
            1 <= factor <= 22 ==> r.wf(p),
    {
        let eye = Matrix::identity(p);
        proof {
            eye.lemma_powers_weaken(0, u16::MAX - 4);
        }
        let mat: Matrix = act_by(&eye, factor, p);
        let mut factors: Vec<u32> = Vec::new();
        factors.push(factor);
        proof {
            assert(factors@ =~= seq![factor]);
            assert(factors@.drop_last() =~= Seq::<u32>::empty());
            assert(reach(factors@.drop_last(), p) == identity_entries());
        }
        State { factors, mat }
    }

    /// The projective length of the state's matrix.
    pub fn projlen(&self) -> (r: u32)
        requires
            self.mat.wf(),
            self.mat.is_nonzero(),
        ensures
            r == self.mat.spec_projlen(),
            1 <= r <= 65536,
    {
        self.mat.projlen()
    }

    /// Whether the state is a goal: its matrix has projective length 1.
    pub fn is_goal(&self) -> (r: bool)
        requires
            self.mat.wf(),
            self.mat.is_nonzero(),
        ensures
            r == (self.mat.spec_projlen() == 1),
    {
        self.projlen() == 1
    }

    /// The state with the generator `factor` applied after those of `self`.
    pub fn append(&self, factor: u32, p: u8) -> (r: State)
        requires
            self.mat.wf(),
            self.mat.powers_upto(u16::MAX - 4),
        ensures
            r.factors@ == self.factors@.push(factor),
            r.mat@ == act_on(self.mat@, factor, self.mat.p),
            r.mat.p == p,
            self.wf(p) && 1 <= factor <= 22 ==> r.wf(p),
    {
        let mut factors = self.factors.clone();
        factors.push(factor);
        let new_matrix: Matrix = act_by(&self.mat, factor, p);
        proof {
            assert(factors@.drop_last() =~= self.factors@);
            if self.wf(p) && 1 <= factor <= 22 {
                let n = self.factors@.len() as int;
                if 4 * n + 4 <= u16::MAX {
                    assert(new_matrix.powers_upto(4 * n + 4));
                } else {
                    assert forall|i: int| 0 <= i < 9 implies crate::algebra::powers_upto(
                        (#[trigger] new_matrix.d[i]).data@,
                        4 * n + 4,
                    ) by {}
                }
            }
        }
        State { factors, mat: new_matrix }
    }
}

} // verus!
