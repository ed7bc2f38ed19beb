use crate::bv::{lemma_bitwise_fit, lemma_modulus_bounds, modulus, BV};
use vstd::arithmetic::power2::pow2;
use vstd::prelude::*;

verus! {

/// A handle of a node in a store owned by the caller.
pub type Id = usize;

/// One node of a term: an operator with the handles of its operands, or a leaf.
#[derive(Clone, Debug)]
pub enum Math<const N: u32> {
    Add(Id, Id),
    Sub(Id, Id),
    Mul(Id, Id),
    Neg(Id),
    Not(Id),
    Shl(Id, Id),
    Shr(Id, Id),
    And(Id, Id),
    Or(Id, Id),
    Xor(Id, Id),
    Num(BV<N>),
    Var(String),
}

/// A concrete vector: one value per row of the shared variable assignments.
pub type CVec<const N: u32> = Vec<Option<BV<N>>>;

impl<const N: u32> Math<N> {
    pub open spec fn is_unary(self) -> bool {
        self is Neg || self is Not
    }

    pub open spec fn is_binary(self) -> bool {
        !self.is_unary() && !(self is Num) && !(self is Var)
    }

    /// The first operand of an operator node.
    pub open spec fn left(self) -> Id {
        match self {
            Math::Add(a, _) => a,
            Math::Sub(a, _) => a,
            Math::Mul(a, _) => a,
            Math::Neg(a) => a,
            Math::Not(a) => a,
            Math::Shl(a, _) => a,
            Math::Shr(a, _) => a,
            Math::And(a, _) => a,
            Math::Or(a, _) => a,
            Math::Xor(a, _) => a,
            _ => 0,
        }
    }

    /// The second operand of a binary node.
    pub open spec fn right(self) -> Id {
        match self {
            Math::Add(_, b) => b,
            Math::Sub(_, b) => b,
            Math::Mul(_, b) => b,
            Math::Shl(_, b) => b,
            Math::Shr(_, b) => b,
            Math::And(_, b) => b,
            Math::Or(_, b) => b,
            Math::Xor(_, b) => b,
            _ => 0,
        }
    }

    /// Every operand handle is below `bound`.
    pub open spec fn children_below(self, bound: int) -> bool {
        (self.is_unary() ==> self.left() < bound) && (self.is_binary() ==> self.left() < bound
            && self.right() < bound)
    }

    /// What the operator makes of operand values `a` and `b` (`b` unused by unary ones).
    pub open spec fn apply_spec(self, a: int, b: int) -> int {
        let m = modulus(N);
        match self {
            Math::Add(_, _) => (a + b) % m,
            Math::Sub(_, _) => (a - b) % m,
            Math::Mul(_, _) => (a * b) % m,
            Math::Neg(_) => (-a) % m,
            Math::Not(_) => m - 1 - a,
            Math::Shl(_, _) => if b >= N {
                0
            } else {
                (a * pow2(b as nat)) % m
            },
            Math::Shr(_, _) => if b >= N {
                0
            } else {
                a / (pow2(b as nat) as int)
            },
            Math::And(_, _) => ((a as u32) & (b as u32)) as int,
            Math::Or(_, _) => ((a as u32) | (b as u32)) as int,
            Math::Xor(_, _) => ((a as u32) ^ (b as u32)) as int,
            _ => 0,
        }
    }

    /// One row of an operator node's vector: defined where its operands are.
    pub open spec fn row_spec(self, x: Option<int>, y: Option<int>) -> Option<int> {
        if self.is_unary() {
            match x {
                Some(a) => Some(self.apply_spec(a, 0)),
                None => None,
            }
        } else {
            match (x, y) {
                (Some(a), Some(b)) => Some(self.apply_spec(a, b)),
                _ => None,
            }
        }
    }

    /// The vector of this node given the vectors of the store, row by row.
    pub open spec fn eval_spec(self, cvec_len: nat, store: Seq<Seq<Option<int>>>) -> Seq<
        Option<int>,
    > {
        match self {
            Math::Num(c) => Seq::new(cvec_len, |i: int| Some(c@)),
            Math::Var(_) => Seq::empty(),
            _ => if self.is_unary() {
                let a = store[self.left() as int];
                Seq::new(a.len(), |i: int| self.row_spec(a[i], None))
            } else {
                let a = store[self.left() as int];
                let b = store[self.right() as int];
                let len = if a.len() <= b.len() {
                    a.len()
                } else {
                    b.len()
                };
                Seq::new(len, |i: int| self.row_spec(a[i], b[i]))
            },
        }
    }

    /// The literal of a `Num` leaf.
    pub fn to_constant(&self) -> (r: Option<BV<N>>)
        ensures
            r == (if self is Num {
                Some(self->Num_0)
            } else {
                None
            }),
    {
        match self {
            Math::Num(c) => Some(*c),
            _ => None,
        }
    }

    /// The name of a `Var` leaf.
    pub fn to_var(&self) -> (r: Option<String>)
        ensures
            r is Some <==> self is Var,
            r is Some ==> r->Some_0 == self->Var_0,
    {
        match self {
            Math::Var(s) => Some(s.clone()),
            _ => None,
        }
    }

    /// Applies the operator to one row of operand values.
    fn apply(&self, a: BV<N>, b: BV<N>) -> (r: BV<N>)
        requires
            a.wf(),
            b.wf(),
            self.is_unary() || self.is_binary(),
        ensures
            r.wf(),
            r@ == self.apply_spec(a@, b@),
    {
        match self {
            Math::Add(_, _) => a.wrapping_add(b),
            Math::Sub(_, _) => a.wrapping_sub(b),
            Math::Mul(_, _) => a.wrapping_mul(b),
            Math::Neg(_) => a.wrapping_neg(),
            Math::Not(_) => a.not(),
            Math::Shl(_, _) => a.my_shl(b),
            Math::Shr(_, _) => a.my_shr(b),
            Math::And(_, _) => a.bitand(b),
            Math::Or(_, _) => a.bitor(b),
            Math::Xor(_, _) => a.bitxor(b),
            Math::Num(_) => a,
            Math::Var(_) => a,
        }
    }

    /// The vector of this node, computed row by row from the vectors of its operands.
    ///
    /// A literal repeats its value `cvec_len` times; a variable's vector is given from
    /// outside, so here it is empty.
    pub fn eval(&self, cvec_len: usize, cvecs: &Vec<CVec<N>>) -> (r: CVec<N>)
        requires
            BV::<N>::width_ok(),
            self.children_below(cvecs@.len() as int),
            self is Num ==> self->Num_0.wf(),
            store_ok(cvecs@),
        ensures
            cvec_view(r@) == self.eval_spec(cvec_len as nat, store_view(cvecs@)),
            forall|i: int| 0 <= i < r@.len() && #[trigger] r@[i] is Some ==> r@[i]->Some_0.wf(),
    {
        let ghost store = store_view(cvecs@);
        let mut r: CVec<N> = Vec::new();
        match self {
            Math::Num(c) => {
                let mut i: usize = 0;
                while i < cvec_len
                    invariant
                        i <= cvec_len,
                        c.wf(),
                        r@.len() == i,
                        forall|k: int| 0 <= k < i ==> #[trigger] r@[k] == Some(*c),
                    decreases cvec_len - i,
                {
                    r.push(Some(*c));
                    i = i + 1;
                }
                assert(cvec_view(r@) =~= self.eval_spec(cvec_len as nat, store));
            },
            Math::Var(_) => {
                assert(cvec_view(r@) =~= self.eval_spec(cvec_len as nat, store));
            },
            Math::Neg(a) | Math::Not(a) => {
                let xs = &cvecs[*a];
                let mut i: usize = 0;
                while i < xs.len()
                    invariant
                        BV::<N>::width_ok(),
                        self.is_unary(),
                        *a == self.left(),
                        (*a as int) < cvecs@.len(),
                        *xs == cvecs@[*a as int],
                        store == store_view(cvecs@),
                        store_ok(cvecs@),
                        i <= xs@.len(),
                        r@.len() == i,
                        forall|k: int|
                            0 <= k < i ==> #[trigger] row_view(r@[k]) == self.row_spec(
                                row_view(xs@[k]),
                                None,
                            ),
                        forall|k: int| 0 <= k < i && #[trigger] r@[k] is Some ==> r@[k]->Some_0.wf(),
                    decreases xs@.len() - i,
                {
                    proof {
                        assert(cvecs@[*a as int]@[i as int] is Some ==> cvecs@[*a as int]@[i as int]->Some_0.wf());
                    }
                    match xs[i] {
                        Some(x) => r.push(Some(self.apply(x, x))),
                        None => r.push(None),
                    }
                    i = i + 1;
                }
                assert(cvec_view(r@) =~= self.eval_spec(cvec_len as nat, store));
            },
            Math::Add(a, b) | Math::Sub(a, b) | Math::Mul(a, b) | Math::Shl(a, b) | Math::Shr(a, b)
            | Math::And(a, b) | Math::Or(a, b) | Math::Xor(a, b) => {
                let xs = &cvecs[*a];
                let ys = &cvecs[*b];
                let len = if xs.len() <= ys.len() {
                    xs.len()
                } else {
                    ys.len()
                };
                let mut i: usize = 0;
                while i < len
                    invariant
                        BV::<N>::width_ok(),
                        self.is_binary(),
                        *a == self.left(),
                        (*a as int) < cvecs@.len(),
                        *b == self.right(),
                        (*b as int) < cvecs@.len(),
                        *xs == cvecs@[*a as int],
                        *ys == cvecs@[*b as int],
                        len <= xs@.len(),
                        len <= ys@.len(),
                        store == store_view(cvecs@),
                        store_ok(cvecs@),
                        i <= len,
                        r@.len() == i,
                        forall|k: int|
                            0 <= k < i ==> #[trigger] row_view(r@[k]) == self.row_spec(
                                row_view(xs@[k]),
                                row_view(ys@[k]),
                            ),
                        forall|k: int| 0 <= k < i && #[trigger] r@[k] is Some ==> r@[k]->Some_0.wf(),
                    decreases len - i,
                {
                    proof {
                        assert(cvecs@[*a as int]@[i as int] is Some ==> cvecs@[*a as int]@[i as int]->Some_0.wf());
                        assert(cvecs@[*b as int]@[i as int] is Some ==> cvecs@[*b as int]@[i as int]->Some_0.wf());
                    }
                    match (xs[i], ys[i]) {
                        (Some(x), Some(y)) => r.push(Some(self.apply(x, y))),
                        _ => r.push(None),
                    }
                    i = i + 1;
                }
                assert(cvec_view(r@) =~= self.eval_spec(cvec_len as nat, store));
            },
        }
        r
    }
}

pub open spec fn row_view<const N: u32>(x: Option<BV<N>>) -> Option<int> {
    match x {
        Some(b) => Some(b@),
        None => None,
    }
}

pub open spec fn cvec_view<const N: u32>(c: Seq<Option<BV<N>>>) -> Seq<Option<int>> {
    c.map_values(|x: Option<BV<N>>| row_view(x))
}

pub open spec fn store_view<const N: u32>(s: Seq<CVec<N>>) -> Seq<Seq<Option<int>>> {
    s.map_values(|c: CVec<N>| cvec_view(c@))
}

/// Every defined value in the store is a well-formed word.
pub open spec fn store_ok<const N: u32>(s: Seq<CVec<N>>) -> bool {
    forall|k: int, i: int|
        0 <= k < s.len() && 0 <= i < s[k]@.len() && (#[trigger] s[k]@[i]) is Some
            ==> s[k]@[i]->Some_0.wf()
}

/// Evaluation has no hidden state: a node's vector depends on its operands' vectors alone,
/// so two stores that agree on them give the same vector.
pub proof fn lemma_eval_deterministic<const N: u32>(
    node: Math<N>,
    cvec_len: nat,
    s1: Seq<Seq<Option<int>>>,
    s2: Seq<Seq<Option<int>>>,
)
    requires
        node.children_below(s1.len() as int),
        node.children_below(s2.len() as int),
        node.is_unary() || node.is_binary() ==> s1[node.left() as int] == s2[node.left() as int],
        node.is_binary() ==> s1[node.right() as int] == s2[node.right() as int],
    ensures
        node.eval_spec(cvec_len, s1) == node.eval_spec(cvec_len, s2),
{
}

/// Every operator is total: on operands that are `N`-bit words, a row is defined and is
/// again an `N`-bit word, whatever the shift amount.
pub proof fn lemma_rows_total<const N: u32>(node: Math<N>, a: int, b: int)
    requires
        BV::<N>::width_ok(),
        node.is_unary() || node.is_binary(),
        0 <= a < modulus(N),
        0 <= b < modulus(N),
    ensures
        node.row_spec(Some(a), Some(b)) is Some,
        0 <= node.row_spec(Some(a), Some(b))->Some_0 < modulus(N),
{
    let m = modulus(N);
    lemma_modulus_bounds(N);
    if node.is_unary() {
        assert(node.row_spec(Some(a), Some(b)) == Some(node.apply_spec(a, 0)));
    } else {
        assert(node.row_spec(Some(a), Some(b)) == Some(node.apply_spec(a, b)));
    }
    match node {
        Math::Shr(_, _) => {
            if b < N {
                vstd::arithmetic::power2::lemma_pow2_pos(b as nat);
                assert(a / (pow2(b as nat) as int) <= a) by (nonlinear_arith)
                    requires
                        pow2(b as nat) > 0,
                        a >= 0,
                ;
                assert(a / (pow2(b as nat) as int) >= 0) by (nonlinear_arith)
                    requires
                        pow2(b as nat) > 0,
                        a >= 0,
                ;
            }
        },
        Math::And(_, _) | Math::Or(_, _) | Math::Xor(_, _) => {
            lemma_bitwise_fit(a as u32, b as u32, N);
        },
        _ => {},
    }
}

} // verus!
