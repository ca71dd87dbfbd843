//! Quantized tensors: the integer-valued vectors, with their shapes, that the
//! circuit and the public-input assembler work on.

use vstd::prelude::*;

verus! {

/// A quantized (integer-valued) tensor together with its shape.
#[derive(Clone, Debug)]
pub struct QuantizedTensor {
    /// The fixed-point integer values, in row-major order.
    pub values: Vec<i32>,
    /// The dimensions of the tensor.
    pub dims: Vec<usize>,
}

impl QuantizedTensor {
    /// The number of elements a tensor of the given dimensions holds:
    /// the product of the dimensions (1 for a zero-dimensional tensor).
    pub open spec fn spec_size(dims: Seq<usize>) -> nat
        decreases dims.len(),
    {
        if dims.len() == 0 {
            1
        } else {
            Self::spec_size(dims.drop_last()) * (dims.last() as nat)
        }
    }

    /// A tensor is well formed when its value count matches its shape.
    pub open spec fn well_formed(self) -> bool {
        Self::spec_size(self.dims@) == self.values@.len()
    }

    /// A tensor whose shape is the plain length of its value vector, as the
    /// public-input path derives it.
    pub fn from_vector(values: Vec<i32>) -> (t: QuantizedTensor)
        ensures
            t.values@ == values@,
            t.dims@ == seq![values@.len() as usize],
            t.well_formed(),
    {
        let n = values.len();
        let mut dims: Vec<usize> = Vec::new();
        dims.push(n);
        proof {
            assert(dims@.drop_last() =~= Seq::<usize>::empty());
            assert(Self::spec_size(Seq::<usize>::empty()) == 1);
            assert(dims@.last() == n);
            assert(Self::spec_size(dims@) == 1 * (n as nat));
        }
        QuantizedTensor { values, dims }
    }

    /// General constructor: accepts the pair exactly when the value count
    /// matches the product of the dimensions.
    pub fn new(values: Vec<i32>, dims: Vec<usize>) -> (r: Option<QuantizedTensor>)
        ensures
            r matches Some(t) ==> t.values@ == values@ && t.dims@ == dims@ && t.well_formed(),
            r is None ==> Self::spec_size(dims@) != values@.len(),
    {
        let n = dims.len();
        let target = values.len();

        let mut has_zero = false;
        let mut j: usize = 0;
        while j < n
            invariant
                j <= n,
                n == dims@.len(),
                has_zero <==> exists|k: int| 0 <= k < j && dims@[k] == 0,
            decreases n - j,
        {
            if dims[j] == 0 {
                has_zero = true;
            }
            j += 1;
        }

        if has_zero {
            proof {
                let k = choose|k: int| 0 <= k < n && dims@[k] == 0;
                Self::lemma_size_zero_dim(dims@, k);
            }
            if target == 0 {
                return Some(QuantizedTensor { values, dims });
            } else {
                return None;
            }
        }

        if target == 0 {
            proof {
                Self::lemma_size_monotone(dims@, 0);
                assert(dims@.take(0) =~= Seq::<usize>::empty());
            }
            return None;
        }

        let mut acc: u128 = 1;
        let mut i: usize = 0;
        while i < n
            invariant
                i <= n,
                n == dims@.len(),
                target == values@.len(),
                forall|k: int| 0 <= k < n ==> dims@[k] != 0,
                acc as nat == Self::spec_size(dims@.take(i as int)),
                acc as nat <= target as nat,
                target <= usize::MAX,
            decreases n - i,
        {
            let d = dims[i];
            proof {
                assert(dims@.take(i + 1 as int).drop_last() =~= dims@.take(i as int));
                assert(dims@.take(i + 1 as int).last() == dims@[i as int]);
                assert(acc * (d as u128) < 0x1_0000_0000_0000_0000_0000_0000_0000_0000)
                    by (nonlinear_arith)
                    requires
                        acc <= 0xffff_ffff_ffff_ffff,
                        d <= 0xffff_ffff_ffff_ffff,
                ;
            }
            acc = acc * (d as u128);
            i += 1;
            if acc > target as u128 {
                proof {
                    Self::lemma_size_monotone(dims@, i as int);
                    assert(Self::spec_size(dims@) >= acc as nat);
                }
                return None;
            }
        }
        proof {
            assert(dims@.take(n as int) =~= dims@);
        }
        if acc == target as u128 {
            Some(QuantizedTensor { values, dims })
        } else {
            None
        }
    }

    /// If some dimension is zero, the tensor holds no elements.
    proof fn lemma_size_zero_dim(dims: Seq<usize>, k: int)
        requires
            0 <= k < dims.len(),
            dims[k] == 0,
        ensures
            Self::spec_size(dims) == 0,
        decreases dims.len(),
    {
        if k == dims.len() - 1 {
            assert(dims.last() == dims[k]);
            let u = Self::spec_size(dims.drop_last());
            assert(Self::spec_size(dims) == u * 0);
            assert(u * 0 == 0) by (nonlinear_arith);
        } else {
            Self::lemma_size_zero_dim(dims.drop_last(), k);
            let w = dims.last() as nat;
            assert(Self::spec_size(dims) == 0 * w);
            assert(0 * w == 0) by (nonlinear_arith);
        }
    }

    /// With no zero dimension, the element count only grows as dimensions
    /// are appended.
    proof fn lemma_size_monotone(dims: Seq<usize>, i: int)
        requires
            0 <= i <= dims.len(),
            forall|k: int| 0 <= k < dims.len() ==> dims[k] != 0,
        ensures
            Self::spec_size(dims) >= Self::spec_size(dims.take(i)),
        decreases dims.len() - i,
    {
        if i == dims.len() {
            assert(dims.take(i) =~= dims);
        } else {
            Self::lemma_size_monotone(dims, i + 1);
            assert(dims.take(i + 1).drop_last() =~= dims.take(i));
            assert(dims.take(i + 1).last() == dims[i]);
            let a = Self::spec_size(dims.take(i));
            let b = dims[i] as nat;
            assert(a * b >= a) by (nonlinear_arith)
                requires
                    b >= 1,
            ;
        }
    }

    /// A tensor of the same shape with every value zeroed: the witness-free
    /// form used for key generation.
    pub fn zeroed(&self) -> (t: QuantizedTensor)
        ensures
            t.dims@ == self.dims@,
            t.values@.len() == self.values@.len(),
            forall|k: int| 0 <= k < t.values@.len() ==> t.values@[k] == 0,
            self.well_formed() ==> t.well_formed(),
    {
        let n = self.values.len();
        let mut values: Vec<i32> = Vec::new();
        let mut i: usize = 0;
        while i < n
            invariant
                i <= n,
                values@.len() == i as nat,
                forall|k: int| 0 <= k < i ==> values@[k] == 0,
            decreases n - i,
        {
            values.push(0);
            i += 1;
        }
        let m = self.dims.len();
        let mut dims: Vec<usize> = Vec::new();
        let mut j: usize = 0;
        while j < m
            invariant
                j <= m,
                m == self.dims@.len(),
                dims@ =~= self.dims@.take(j as int),
            decreases m - j,
        {
            dims.push(self.dims[j]);
            j += 1;
        }
        proof {
            assert(self.dims@.take(m as int) =~= self.dims@);
        }
        QuantizedTensor { values, dims }
    }

}

} // verus!
