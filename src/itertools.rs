//! The cartesian product of two sequences, yielded pair by pair in row-major order.
use vstd::prelude::*;
use vstd::arithmetic::div_mod::{
    lemma_fundamental_div_mod_converse_div, lemma_fundamental_div_mod_converse_mod,
};

verus! {

/// Every pair `(a[k / |b|], b[k % |b|])`: each item of `a` with each item of
/// `b`, the items of `b` varying fastest.
pub open spec fn product<A, B>(a: Seq<A>, b: Seq<B>) -> Seq<(A, B)> {
    Seq::new(
        (a.len() * b.len()) as nat,
        |k: int| (a[k / (b.len() as int)], b[k % (b.len() as int)]),
    )
}

/// Pairs every item of one vector with every item of another, one pair at a time.
pub struct CartesianProduct<A, B> {
    a: Vec<A>,
    b: Vec<B>,
    i: usize,
    j: usize,
}

impl<A: Copy, B: Copy> CartesianProduct<A, B> {
    /// Position of the next pair in the whole product.
    spec fn pos(&self) -> int {
        self.i * self.b.len() + self.j
    }

    pub closed spec fn wf(&self) -> bool {
        &&& self.i <= self.a.len()
        &&& (self.j < self.b.len() || self.j == 0)
        &&& (self.i == self.a.len() ==> self.j == 0)
    }

    /// The pairs still to come.
    pub closed spec fn remaining(&self) -> Seq<(A, B)> {
        product(self.a@, self.b@).skip(self.pos())
    }

    pub fn new(a: Vec<A>, b: Vec<B>) -> (r: CartesianProduct<A, B>)
        ensures
            r.wf(),
            r.remaining() == product(a@, b@),
    {
        let r = CartesianProduct { a, b, i: 0, j: 0 };
        assert(r.remaining() =~= product(r.a@, r.b@));
        r
    }

    /// The next pair, or `None` once every pair has been given.
    pub fn next(&mut self) -> (r: Option<(A, B)>)
        requires
            old(self).wf(),
        ensures
            final(self).wf(),
            old(self).remaining().len() == 0 ==> r.is_none() && final(self).remaining() == old(
                self,
            ).remaining(),
            old(self).remaining().len() > 0 ==> r == Some(old(self).remaining()[0])
                && final(self).remaining() == old(self).remaining().drop_first(),
    {
        let ghost n = self.b.len() as int;
        let ghost m = self.a.len() as int;
        let ghost p = self.pos();
        let ghost whole = product(self.a@, self.b@);
        if self.i < self.a.len() && self.j < self.b.len() {
            let item = (self.a[self.i], self.b[self.j]);
            proof {
                let (i, j) = (self.i as int, self.j as int);
                assert(i * n + j < m * n) by (nonlinear_arith)
                    requires
                        0 <= i < m,
                        0 <= j < n,
                ;
                lemma_fundamental_div_mod_converse_div(p, n, i, j);
                lemma_fundamental_div_mod_converse_mod(p, n, i, j);
                assert(whole[p] == item);
            }
            self.j = self.j + 1;
            if self.j == self.b.len() {
                self.j = 0;
                self.i = self.i + 1;
                assert((self.i as int) * n == (self.i - 1) * n + n) by (nonlinear_arith);
            }
            assert(self.pos() == p + 1);
            assert(self.remaining() =~= old(self).remaining().drop_first());
            Some(item)
        } else {
            proof {
                if n == 0 {
                    assert(m * n == 0) by (nonlinear_arith)
                        requires
                            n == 0,
                    ;
                }
            }
            assert(old(self).remaining().len() == 0);
            None
        }
    }

    /// Every pair still to come, in order.
    pub fn collect_vec(self) -> (r: Vec<(A, B)>)
        requires
            self.wf(),
        ensures
            r@ == self.remaining(),
    {
        let ghost all = self.remaining();
        let ghost start = self;
        let mut rest = self;
        let mut out: Vec<(A, B)> = Vec::new();
        loop
            invariant
                rest.wf(),
                all == start.remaining(),
                start == self,
                all == out@ + rest.remaining(),
            decreases rest.remaining().len(),
        {
            match rest.next() {
                Some(pair) => {
                    out.push(pair);
                    assert(all =~= out@ + rest.remaining());
                },
                None => {
                    assert(all =~= out@);
                    return out;
                },
            }
        }
    }
}

/// Cartesian products of a vector with another.
pub trait Itertools<A: Copy>: Sized {
    /// The items of the receiver.
    spec fn items(&self) -> Seq<A>;

    fn cartesian_product<B: Copy>(self, other: Vec<B>) -> (r: CartesianProduct<A, B>)
        ensures
            r.wf(),
            r.remaining() == product(self.items(), other@),
    ;
}

impl<A: Copy> Itertools<A> for Vec<A> {
    open spec fn items(&self) -> Seq<A> {
        self@
    }

    fn cartesian_product<B: Copy>(self, other: Vec<B>) -> (r: CartesianProduct<A, B>) {
        CartesianProduct::new(self, other)
    }
}

} // verus!
