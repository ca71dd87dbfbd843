//! The proof object: the portable artifact a proving run produces — the
//! ordered public-input rows and the opaque proof bytes — with its
//! canonical serialized form, and the instance assembly shared by proof
//! creation and verification.

use vstd::prelude::*;

use crate::codec;
use crate::codec::enc_proof_json;
use crate::codec::rows_view;
use crate::codec::FormatError;
use crate::tensor::QuantizedTensor;

verus! {

/// A proof over a model circuit: the public inputs it binds, row for row
/// in assembly order, and the proof bytes the transcript produced.
#[derive(Clone, Debug, PartialEq, Eq)]
pub struct Proof {
    /// The public-input rows, exactly as assembled at creation time.
    pub public_inputs: Vec<Vec<i32>>,
    /// The generated proof, as a vector of bytes.
    pub proof: Vec<u8>,
}

impl Proof {
    /// The canonical serialized form of this proof object.
    pub open spec fn spec_json(self) -> Seq<u8> {
        enc_proof_json(rows_view(self.public_inputs@), self.proof@)
    }

    /// Serializes the proof object to its canonical byte sequence; the
    /// caller writes the bytes to the proof file.
    pub fn save(&self) -> (r: Vec<u8>)
        ensures
            r@ == self.spec_json(),
    {
        codec::encode_proof(&self.public_inputs, &self.proof)
    }

    /// Deserializes a proof file's bytes. Succeeds, with exactly the
    /// encoded rows and proof bytes, on every canonical encoding, and
    /// fails with a format error on every other input — never a
    /// partially populated proof object.
    pub fn load(data: &Vec<u8>) -> (r: Result<Proof, FormatError>)
        ensures
            (r matches Ok(p) ==> data@ == p.spec_json()),
            (r is Err ==> forall|pi: Seq<Seq<i32>>, pr: Seq<u8>|
                data@ != enc_proof_json(pi, pr)),
            load_complete(data@, r),
    {
        let d = codec::decode_proof(data);
        match d {
            Some((public_inputs, proof)) => {
                let p = Proof { public_inputs, proof };
                let ghost gp = p;
                proof {
                    assert forall|pi: Seq<Seq<i32>>, pr: Seq<u8>| data@ == enc_proof_json(
                        pi, pr) implies (Ok::<Proof, FormatError>(gp) matches Ok(q)
                        && rows_view(q.public_inputs@) == pi && q.proof@ == pr) by {
                    }
                    assert(load_complete(data@, Ok::<Proof, FormatError>(gp)));
                }
                Ok(p)
            }
            None => {
                proof {
                    assert forall|pi: Seq<Seq<i32>>, pr: Seq<u8>| data@ == enc_proof_json(
                        pi, pr) implies false by {
                    }
                    assert(load_complete(data@, Err::<Proof, FormatError>(FormatError)));
                }
                Err(FormatError)
            }
        }
    }
}

/// Completeness of proof loading: whenever the input bytes are the
/// canonical encoding of some proof object, loading succeeded and
/// returned exactly that object.
pub open spec fn load_complete(s: Seq<u8>, r: Result<Proof, FormatError>) -> bool {
    forall|pi: Seq<Seq<i32>>, pr: Seq<u8>| s == enc_proof_json(pi, pr)
        ==> (r matches Ok(p) && rows_view(p.public_inputs@) == pi && p.proof@ == pr)
}

/// Element-for-element equality of two byte vectors.
fn eq_bytes(a: &Vec<u8>, b: &Vec<u8>) -> (r: bool)
    ensures
        r <==> a@ == b@,
{
    if a.len() != b.len() {
        proof {
            assert(a@.len() != b@.len());
        }
        return false;
    }
    let n = a.len();
    let mut i: usize = 0;
    while i < n
        invariant
            i <= n,
            n == a@.len(),
            n == b@.len(),
            forall|k: int| 0 <= k < i ==> a@[k] == b@[k],
        decreases n - i,
    {
        if a[i] != b[i] {
            return false;
        }
        i += 1;
    }
    proof {
        assert(a@ =~= b@);
    }
    true
}

/// Element-for-element equality of two integer vectors.
fn eq_i32_vec(a: &Vec<i32>, b: &Vec<i32>) -> (r: bool)
    ensures
        r <==> a@ == b@,
{
    if a.len() != b.len() {
        proof {
            assert(a@.len() != b@.len());
        }
        return false;
    }
    let n = a.len();
    let mut i: usize = 0;
    while i < n
        invariant
            i <= n,
            n == a@.len(),
            n == b@.len(),
            forall|k: int| 0 <= k < i ==> a@[k] == b@[k],
        decreases n - i,
    {
        if a[i] != b[i] {
            return false;
        }
        i += 1;
    }
    proof {
        assert(a@ =~= b@);
    }
    true
}

/// Row-for-row equality of two row lists.
fn eq_rows(a: &Vec<Vec<i32>>, b: &Vec<Vec<i32>>) -> (r: bool)
    ensures
        r <==> rows_view(a@) == rows_view(b@),
{
    if a.len() != b.len() {
        proof {
            assert(rows_view(a@).len() != rows_view(b@).len());
        }
        return false;
    }
    let n = a.len();
    let mut i: usize = 0;
    while i < n
        invariant
            i <= n,
            n == a@.len(),
            n == b@.len(),
            forall|k: int| 0 <= k < i ==> a@[k]@ == b@[k]@,
        decreases n - i,
    {
        if !eq_i32_vec(&a[i], &b[i]) {
            proof {
                assert(rows_view(a@)[i as int] == a@[i as int]@);
                assert(rows_view(b@)[i as int] == b@[i as int]@);
            }
            return false;
        }
        i += 1;
    }
    proof {
        assert(rows_view(a@) =~= rows_view(b@));
    }
    true
}

/// The proof file round-trips: loading what `save` produced always
/// succeeds and gives back a proof object with the same public-input
/// rows and the same proof bytes, for every proof object. The returned
/// flag is the outcome of the comparison, and it is always true.
pub fn save_load_round_trip(p: &Proof) -> (ok: bool)
    ensures
        ok,
{
    let bytes = p.save();
    let loaded = Proof::load(&bytes);
    match loaded {
        Ok(q) => {
            proof {
                assert(bytes@ == enc_proof_json(rows_view(p.public_inputs@), p.proof@));
                assert(rows_view(q.public_inputs@) == rows_view(p.public_inputs@));
                assert(q.proof@ == p.proof@);
            }
            let e1 = eq_rows(&q.public_inputs, &p.public_inputs);
            let e2 = eq_bytes(&q.proof, &p.proof);
            e1 && e2
        }
        Err(_) => {
            proof {
                assert(bytes@ == enc_proof_json(rows_view(p.public_inputs@), p.proof@));
                assert(false);
            }
            false
        }
    }
}

/// The value rows of a list of tensors, in order: what binds each tensor
/// to the circuit's instance columns.
pub fn public_input_values(tensors: &Vec<QuantizedTensor>) -> (r: Vec<Vec<i32>>)
    ensures
        r@.len() == tensors@.len(),
        forall|i: int| 0 <= i < r@.len() ==> r@[i]@ == tensors@[i].values@,
{
    let n = tensors.len();
    let mut r: Vec<Vec<i32>> = Vec::new();
    let mut i: usize = 0;
    while i < n
        invariant
            i <= n,
            n == tensors@.len(),
            r@.len() == i as nat,
            forall|j: int| 0 <= j < i ==> r@[j]@ == tensors@[j].values@,
        decreases n - i,
    {
        let t = &tensors[i];
        let m = t.values.len();
        let mut row: Vec<i32> = Vec::new();
        let mut j: usize = 0;
        while j < m
            invariant
                j <= m,
                m == t.values@.len(),
                row@ =~= t.values@.take(j as int),
            decreases m - j,
        {
            row.push(t.values[j]);
            j += 1;
        }
        proof {
            assert(t.values@.take(m as int) =~= t.values@);
        }
        r.push(row);
        i += 1;
    }
    r
}

/// Packages a created proof: the public-input rows are the tensors' value
/// rows, element for element and in the same order, beside the proof
/// bytes. Verification succeeds only against this exact correspondence.
pub fn package_proof(public_inputs: &Vec<QuantizedTensor>, proof_bytes: Vec<u8>) -> (p: Proof)
    ensures
        p.public_inputs@.len() == public_inputs@.len(),
        forall|i: int| 0 <= i < p.public_inputs@.len()
            ==> p.public_inputs@[i]@ == public_inputs@[i].values@,
        p.proof@ == proof_bytes@,
{
    Proof { public_inputs: public_input_values(public_inputs), proof: proof_bytes }
}

/// Assembles the instance structure handed to the backend: one proof
/// batches exactly one circuit instance, whose single column group holds
/// all public-input rows in assembly order. Creation and verification both
/// derive their instances through this one mapping, so equal public inputs
/// yield bit-for-bit identical instance assemblies.
pub fn prepare_instances(public_inputs: Vec<Vec<i32>>) -> (r: Vec<Vec<Vec<i32>>>)
    ensures
        r@.len() == 1,
        r@[0]@ == public_inputs@,
{
    let mut r: Vec<Vec<Vec<i32>>> = Vec::new();
    r.push(public_inputs);
    r
}

} // verus!
