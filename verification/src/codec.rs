//! The proof object's canonical wire format: a JSON object
//! `{"public_inputs":[[..],..],"proof":[..]}` with decimal integers and no
//! interior whitespace, exactly as the proof file is written. The encoder
//! produces the canonical byte sequence and the parser accepts exactly the
//! canonical byte sequences, so the two round-trip.

use vstd::prelude::*;

verus! {

/// The byte sequence could not be parsed as a proof object.
#[derive(Clone, Copy, Debug, PartialEq, Eq, Structural)]
pub struct FormatError;

/// ASCII decimal digit.
pub open spec fn is_digit(b: u8) -> bool {
    48 <= b && b <= 57
}

/// The canonical decimal digits of a natural number, most significant
/// first, with no leading zero (a lone `0` for zero).
pub open spec fn digits_of(n: nat) -> Seq<u8>
    decreases n,
{
    if n < 10 {
        seq![(48 + n) as u8]
    } else {
        digits_of(n / 10).push((48 + n % 10) as u8)
    }
}

/// The numeric value of a sequence of ASCII digits.
pub open spec fn dec_val(ds: Seq<u8>) -> int
    decreases ds.len(),
{
    if ds.len() == 0 {
        0
    } else {
        dec_val(ds.drop_last()) * 10 + (ds.last() - 48)
    }
}

/// The canonical decimal encoding of an integer: a minus sign for negative
/// values, then the digits of the magnitude.
pub open spec fn enc_int(n: int) -> Seq<u8> {
    if n < 0 {
        seq![45u8] + digits_of((-n) as nat)
    } else {
        digits_of(n as nat)
    }
}

/// The comma-separated encodings of a sequence of signed integers.
pub open spec fn enc_i32_items(v: Seq<i32>) -> Seq<u8>
    decreases v.len(),
{
    if v.len() == 0 {
        Seq::<u8>::empty()
    } else if v.len() == 1 {
        enc_int(v[0] as int)
    } else {
        enc_int(v[0] as int) + seq![44u8] + enc_i32_items(v.skip(1))
    }
}

/// A JSON array of signed integers.
pub open spec fn enc_i32_row(v: Seq<i32>) -> Seq<u8> {
    seq![91u8] + enc_i32_items(v) + seq![93u8]
}

/// The comma-separated encodings of a sequence of bytes.
pub open spec fn enc_u8_items(v: Seq<u8>) -> Seq<u8>
    decreases v.len(),
{
    if v.len() == 0 {
        Seq::<u8>::empty()
    } else if v.len() == 1 {
        digits_of(v[0] as nat)
    } else {
        digits_of(v[0] as nat) + seq![44u8] + enc_u8_items(v.skip(1))
    }
}

/// A JSON array of bytes.
pub open spec fn enc_u8_row(v: Seq<u8>) -> Seq<u8> {
    seq![91u8] + enc_u8_items(v) + seq![93u8]
}

/// The comma-separated encodings of a sequence of integer rows.
pub open spec fn enc_row_items(v: Seq<Seq<i32>>) -> Seq<u8>
    decreases v.len(),
{
    if v.len() == 0 {
        Seq::<u8>::empty()
    } else if v.len() == 1 {
        enc_i32_row(v[0])
    } else {
        enc_i32_row(v[0]) + seq![44u8] + enc_row_items(v.skip(1))
    }
}

/// A JSON array of integer rows.
pub open spec fn enc_rows(v: Seq<Seq<i32>>) -> Seq<u8> {
    seq![91u8] + enc_row_items(v) + seq![93u8]
}

/// The opening of the proof object: `{"public_inputs":`.
pub open spec fn spec_header() -> Seq<u8> {
    seq![123u8, 34u8, 112u8, 117u8, 98u8, 108u8, 105u8, 99u8, 95u8, 105u8, 110u8, 112u8, 117u8,
        116u8, 115u8, 34u8, 58u8]
}

/// The separator between the two members: `,"proof":`.
pub open spec fn spec_mid() -> Seq<u8> {
    seq![44u8, 34u8, 112u8, 114u8, 111u8, 111u8, 102u8, 34u8, 58u8]
}

/// The canonical serialized form of a proof object: the public-input rows,
/// then the proof bytes, under their member names.
pub open spec fn enc_proof_json(pi: Seq<Seq<i32>>, pr: Seq<u8>) -> Seq<u8> {
    spec_header() + enc_rows(pi) + spec_mid() + enc_u8_row(pr) + seq![125u8]
}

/// The rows of a vector of vectors, as a sequence of sequences.
pub open spec fn rows_view(v: Seq<Vec<i32>>) -> Seq<Seq<i32>> {
    Seq::new(v.len(), |i: int| v[i]@)
}

/// `t` occurs in `s` at position `i`.
pub open spec fn matches_at(s: Seq<u8>, i: int, t: Seq<u8>) -> bool {
    0 <= i && i + t.len() <= s.len() && s.subrange(i, i + t.len()) == t
}

/// Position `j` ends a run of digits: it is the end of the input or holds
/// a non-digit.
pub open spec fn digit_run_end(s: Seq<u8>, j: int) -> bool {
    j == s.len() || (0 <= j < s.len() && !is_digit(s[j]))
}

/// An occurrence of a concatenation is an occurrence of each part in turn.
pub proof fn lemma_matches_cat(s: Seq<u8>, i: int, a: Seq<u8>, b: Seq<u8>)
    ensures
        matches_at(s, i, a + b) <==> matches_at(s, i, a) && matches_at(s, i + a.len(), b),
{
    if matches_at(s, i, a + b) {
        assert(s.subrange(i, i + a.len()) =~= a) by {
            assert forall|k: int| 0 <= k < a.len() implies s[i + k] == a[k] by {
                assert(s.subrange(i, i + (a + b).len())[k] == (a + b)[k]);
            }
        }
        assert(s.subrange(i + a.len(), i + a.len() + b.len()) =~= b) by {
            assert forall|k: int| 0 <= k < b.len() implies s[i + a.len() + k] == b[k] by {
                assert(s.subrange(i, i + (a + b).len())[a.len() + k] == (a + b)[a.len() + k]);
            }
        }
    }
    if matches_at(s, i, a) && matches_at(s, i + a.len(), b) {
        assert(s.subrange(i, i + (a + b).len()) =~= a + b) by {
            assert forall|k: int| 0 <= k < (a + b).len() implies s[i + k] == (a + b)[k] by {
                if k < a.len() {
                    assert(s.subrange(i, i + a.len())[k] == a[k]);
                } else {
                    assert(s.subrange(i + a.len(), i + a.len() + b.len())[k - a.len()]
                        == b[k - a.len()]);
                }
            }
        }
    }
}

/// Every canonical digit string is a nonempty string of digits.
pub proof fn lemma_digits_shape(n: nat)
    ensures
        digits_of(n).len() >= 1,
        forall|k: int| 0 <= k < digits_of(n).len() ==> is_digit(#[trigger] digits_of(n)[k]),
    decreases n,
{
    if n >= 10 {
        lemma_digits_shape(n / 10);
    }
}

/// A positive number's leading digit is not zero.
pub proof fn lemma_digits_first_nonzero(n: nat)
    requires
        n >= 1,
    ensures
        digits_of(n)[0] != 48,
    decreases n,
{
    if n >= 10 {
        lemma_digits_first_nonzero(n / 10);
        lemma_digits_shape(n / 10);
    }
}

/// Reading back the canonical digits of a number gives the number.
pub proof fn lemma_dec_val_digits(n: nat)
    ensures
        dec_val(digits_of(n)) == n,
    decreases n,
{
    if n < 10 {
        assert(digits_of(n) =~= seq![(48 + n) as u8]);
        assert(digits_of(n).drop_last() =~= Seq::<u8>::empty());
        assert(dec_val(Seq::<u8>::empty()) == 0);
        assert(((48 + n) as u8) as int == 48 + n);
        assert(digits_of(n).last() == (48 + n) as u8);
    } else {
        lemma_dec_val_digits(n / 10);
        lemma_digits_shape(n / 10);
        assert(digits_of(n).drop_last() =~= digits_of(n / 10));
        assert(digits_of(n).last() == (48 + n % 10) as u8);
        assert(((48 + n % 10) as u8) as int == 48 + n % 10);
        assert(dec_val(digits_of(n)) == dec_val(digits_of(n / 10)) * 10 + n % 10);
        assert((n / 10) * 10 + n % 10 == n);
    }
}

/// A digit string's value is never negative.
pub proof fn lemma_dec_val_nonneg(ds: Seq<u8>)
    requires
        forall|k: int| 0 <= k < ds.len() ==> is_digit(#[trigger] ds[k]),
    ensures
        dec_val(ds) >= 0,
    decreases ds.len(),
{
    if ds.len() > 0 {
        lemma_dec_val_nonneg(ds.drop_last());
    }
}

/// A digit string with a nonzero leading digit has a positive value.
pub proof fn lemma_dec_val_positive(ds: Seq<u8>)
    requires
        ds.len() >= 1,
        forall|k: int| 0 <= k < ds.len() ==> is_digit(#[trigger] ds[k]),
        ds[0] != 48,
    ensures
        dec_val(ds) >= 1,
    decreases ds.len(),
{
    if ds.len() == 1 {
        assert(ds.drop_last() =~= Seq::<u8>::empty());
        assert(is_digit(ds[0]));
        assert(ds.last() == ds[0]);
        assert(dec_val(ds) == ds[0] - 48);
    } else {
        assert(forall|k: int| 0 <= k < ds.drop_last().len()
            ==> is_digit(#[trigger] ds.drop_last()[k]));
        lemma_dec_val_positive(ds.drop_last());
        assert(is_digit(ds.last()));
        assert(dec_val(ds) == dec_val(ds.drop_last()) * 10 + (ds.last() - 48));
        assert(dec_val(ds.drop_last()) * 10 >= 10);
    }
}

/// A nonempty digit string without a leading zero is the canonical digit
/// string of its value.
pub proof fn lemma_canonical_digits(ds: Seq<u8>)
    requires
        ds.len() >= 1,
        forall|k: int| 0 <= k < ds.len() ==> is_digit(#[trigger] ds[k]),
        ds.len() > 1 ==> ds[0] != 48,
    ensures
        dec_val(ds) >= 0,
        ds == digits_of(dec_val(ds) as nat),
    decreases ds.len(),
{
    lemma_dec_val_nonneg(ds);
    if ds.len() == 1 {
        assert(ds.drop_last() =~= Seq::<u8>::empty());
        assert(dec_val(Seq::<u8>::empty()) == 0);
        assert(ds.last() == ds[0]);
        assert(is_digit(ds[0]));
        assert(dec_val(ds) == ds[0] - 48);
        assert(ds =~= digits_of(dec_val(ds) as nat));
    } else {
        let ds0 = ds.drop_last();
        lemma_canonical_digits(ds0);
        lemma_dec_val_positive(ds0);
        let v0 = dec_val(ds0);
        let d = ds.last() - 48;
        let v = dec_val(ds);
        assert(v == v0 * 10 + d);
        vstd::arithmetic::div_mod::lemma_fundamental_div_mod_converse(v, 10, v0, d);
        assert(v / 10 == v0 && v % 10 == d);
        assert(v >= 10) by {
            assert(v0 >= 1);
            assert(v0 * 10 >= 10) by (nonlinear_arith)
                requires
                    v0 >= 1,
            ;
        }
        assert(digits_of(v as nat) == digits_of((v as nat) / 10).push(
            (48 + (v as nat) % 10) as u8));
        assert((v as nat) / 10 == v0 as nat && (v as nat) % 10 == d as nat);
        assert(ds =~= ds0.push(ds.last()));
    }
}

/// A prefix of a digit string has a value no larger than the whole.
pub proof fn lemma_dec_val_prefix(ds: Seq<u8>, k: int)
    requires
        0 <= k <= ds.len(),
        forall|j: int| 0 <= j < ds.len() ==> is_digit(#[trigger] ds[j]),
    ensures
        dec_val(ds.take(k)) <= dec_val(ds),
    decreases ds.len() - k,
{
    if k == ds.len() {
        assert(ds.take(k) =~= ds);
    } else {
        lemma_dec_val_prefix(ds, k + 1);
        assert(ds.take(k + 1).drop_last() =~= ds.take(k));
        assert(ds.take(k + 1).last() == ds[k]);
        assert(forall|j: int| 0 <= j < ds.take(k).len() ==> is_digit(#[trigger] ds.take(k)[j]));
        lemma_dec_val_nonneg(ds.take(k));
        assert(dec_val(ds.take(k + 1)) == dec_val(ds.take(k)) * 10 + (ds[k] - 48));
    }
}

/// The first byte of an integer encoding is a minus sign or a digit.
pub proof fn lemma_enc_int_first(m: int)
    ensures
        enc_int(m).len() >= 1,
        enc_int(m)[0] == 45 || is_digit(enc_int(m)[0]),
        m >= 0 ==> is_digit(enc_int(m)[0]),
        m < 0 ==> enc_int(m)[0] == 45,
{
    if m < 0 {
        lemma_digits_shape((-m) as nat);
    } else {
        lemma_digits_shape(m as nat);
    }
}

/// Appends the canonical decimal digits of `n`.
pub fn write_uint(out: &mut Vec<u8>, n: u32)
    ensures
        final(out)@ == old(out)@ + digits_of(n as nat),
{
    let ghost start = out@;
    if n == 0 {
        out.push(48);
        proof {
            assert(digits_of(0) =~= seq![48u8]);
            assert(out@ =~= start + digits_of(0));
        }
        return ;
    }
    let mut tmp: Vec<u8> = Vec::new();
    let mut m = n;
    while m > 0
        invariant
            n >= 1,
            m > 0 ==> digits_of(n as nat) =~= digits_of(m as nat) + tmp@.reverse(),
            m == 0 ==> digits_of(n as nat) =~= tmp@.reverse(),
        decreases m,
    {
        let d: u8 = (m % 10) as u8 + 48;
        proof {
            if m >= 10 {
                assert(digits_of(m as nat) == digits_of((m as nat) / 10).push(
                    (48 + (m as nat) % 10) as u8));
            } else {
                assert(digits_of(m as nat) =~= seq![(48 + (m as nat)) as u8]);
            }
            assert(tmp@.push(d).reverse() =~= seq![d] + tmp@.reverse());
            if m >= 10 {
                assert(digits_of(m as nat) + tmp@.reverse() =~= digits_of((m as nat) / 10)
                    + (tmp@.push(d).reverse()));
            } else {
                assert(digits_of(m as nat) + tmp@.reverse() =~= tmp@.push(d).reverse());
            }
        }
        tmp.push(d);
        m = m / 10;
    }
    let k = tmp.len();
    let mut idx: usize = 0;
    while idx < k
        invariant
            k == tmp@.len(),
            idx <= k,
            digits_of(n as nat) =~= tmp@.reverse(),
            out@ =~= start + tmp@.reverse().take(idx as int),
        decreases k - idx,
    {
        proof {
            assert(tmp@.reverse()[idx as int] == tmp@[k - 1 - idx]);
            assert(tmp@.reverse().take(idx + 1) =~= tmp@.reverse().take(idx as int).push(
                tmp@.reverse()[idx as int]));
        }
        out.push(tmp[k - 1 - idx]);
        idx += 1;
    }
    proof {
        assert(tmp@.reverse().take(k as int) =~= tmp@.reverse());
    }
}

/// Appends the canonical decimal encoding of a signed integer.
pub fn write_int(out: &mut Vec<u8>, n: i32)
    ensures
        final(out)@ == old(out)@ + enc_int(n as int),
{
    let ghost start = out@;
    if n < 0 {
        out.push(45);
        let mag: u32 = (-(n as i64)) as u32;
        proof {
            assert(mag as nat == (-(n as int)) as nat);
        }
        write_uint(out, mag);
        proof {
            assert(out@ =~= start + enc_int(n as int));
        }
    } else {
        write_uint(out, n as u32);
    }
}

/// Splitting off the last element of a nonempty sequence of integers
/// appends one more comma-separated encoding.
pub proof fn lemma_i32_items_push(v: Seq<i32>, x: i32)
    requires
        v.len() >= 1,
    ensures
        enc_i32_items(v.push(x)) == enc_i32_items(v) + seq![44u8] + enc_int(x as int),
    decreases v.len(),
{
    if v.len() == 1 {
        assert(v.push(x).skip(1) =~= seq![x]);
        assert(enc_i32_items(seq![x]) == enc_int(x as int));
        assert(enc_i32_items(v.push(x)) =~= enc_i32_items(v) + seq![44u8] + enc_int(x as int));
    } else {
        lemma_i32_items_push(v.skip(1), x);
        assert(v.push(x).skip(1) =~= v.skip(1).push(x));
        assert(enc_i32_items(v.push(x)) =~= enc_i32_items(v) + seq![44u8] + enc_int(x as int));
    }
}

/// The same, for a sequence of bytes.
pub proof fn lemma_u8_items_push(v: Seq<u8>, x: u8)
    requires
        v.len() >= 1,
    ensures
        enc_u8_items(v.push(x)) == enc_u8_items(v) + seq![44u8] + digits_of(x as nat),
    decreases v.len(),
{
    if v.len() == 1 {
        assert(v.push(x).skip(1) =~= seq![x]);
        assert(enc_u8_items(seq![x]) == digits_of(x as nat));
        assert(enc_u8_items(v.push(x)) =~= enc_u8_items(v) + seq![44u8] + digits_of(x as nat));
    } else {
        lemma_u8_items_push(v.skip(1), x);
        assert(v.push(x).skip(1) =~= v.skip(1).push(x));
        assert(enc_u8_items(v.push(x)) =~= enc_u8_items(v) + seq![44u8] + digits_of(x as nat));
    }
}

/// The same, for a sequence of integer rows.
pub proof fn lemma_row_items_push(v: Seq<Seq<i32>>, x: Seq<i32>)
    requires
        v.len() >= 1,
    ensures
        enc_row_items(v.push(x)) == enc_row_items(v) + seq![44u8] + enc_i32_row(x),
    decreases v.len(),
{
    if v.len() == 1 {
        assert(v.push(x).skip(1) =~= seq![x]);
        assert(enc_row_items(seq![x]) == enc_i32_row(x));
        assert(enc_row_items(v.push(x)) =~= enc_row_items(v) + seq![44u8] + enc_i32_row(x));
    } else {
        lemma_row_items_push(v.skip(1), x);
        assert(v.push(x).skip(1) =~= v.skip(1).push(x));
        assert(enc_row_items(v.push(x)) =~= enc_row_items(v) + seq![44u8] + enc_i32_row(x));
    }
}

/// Appends a JSON array of signed integers.
pub fn write_i32_row(out: &mut Vec<u8>, v: &Vec<i32>)
    ensures
        final(out)@ == old(out)@ + enc_i32_row(v@),
{
    let ghost start = out@;
    out.push(91);
    let n = v.len();
    let mut i: usize = 0;
    while i < n
        invariant
            i <= n,
            n == v@.len(),
            out@ =~= start + seq![91u8] + enc_i32_items(v@.take(i as int)),
        decreases n - i,
    {
        if i > 0 {
            out.push(44);
        }
        write_int(out, v[i]);
        proof {
            assert(v@.take(i + 1) =~= v@.take(i as int).push(v@[i as int]));
            if i == 0 {
                assert(enc_i32_items(v@.take(1)) == enc_int(v@[0] as int));
            } else {
                lemma_i32_items_push(v@.take(i as int), v@[i as int]);
            }
            assert(out@ =~= start + seq![91u8] + enc_i32_items(v@.take(i + 1)));
        }
        i += 1;
    }
    out.push(93);
    proof {
        assert(v@.take(n as int) =~= v@);
        assert(out@ =~= start + enc_i32_row(v@));
    }
}

/// Appends a JSON array of bytes.
pub fn write_u8_row(out: &mut Vec<u8>, v: &Vec<u8>)
    ensures
        final(out)@ == old(out)@ + enc_u8_row(v@),
{
    let ghost start = out@;
    out.push(91);
    let n = v.len();
    let mut i: usize = 0;
    while i < n
        invariant
            i <= n,
            n == v@.len(),
            out@ =~= start + seq![91u8] + enc_u8_items(v@.take(i as int)),
        decreases n - i,
    {
        if i > 0 {
            out.push(44);
        }
        write_uint(out, v[i] as u32);
        proof {
            assert(v@.take(i + 1) =~= v@.take(i as int).push(v@[i as int]));
            if i == 0 {
                assert(enc_u8_items(v@.take(1)) == digits_of(v@[0] as nat));
            } else {
                lemma_u8_items_push(v@.take(i as int), v@[i as int]);
            }
            assert(out@ =~= start + seq![91u8] + enc_u8_items(v@.take(i + 1)));
        }
        i += 1;
    }
    out.push(93);
    proof {
        assert(v@.take(n as int) =~= v@);
        assert(out@ =~= start + enc_u8_row(v@));
    }
}

/// Appends a JSON array of integer rows.
pub fn write_rows(out: &mut Vec<u8>, v: &Vec<Vec<i32>>)
    ensures
        final(out)@ == old(out)@ + enc_rows(rows_view(v@)),
{
    let ghost start = out@;
    out.push(91);
    let n = v.len();
    let mut i: usize = 0;
    while i < n
        invariant
            i <= n,
            n == v@.len(),
            out@ =~= start + seq![91u8] + enc_row_items(rows_view(v@).take(i as int)),
        decreases n - i,
    {
        if i > 0 {
            out.push(44);
        }
        write_i32_row(out, &v[i]);
        proof {
            assert(rows_view(v@).take(i + 1) =~= rows_view(v@).take(i as int).push(v@[i as int]@));
            if i == 0 {
                assert(enc_row_items(rows_view(v@).take(1)) == enc_i32_row(v@[0]@));
            } else {
                lemma_row_items_push(rows_view(v@).take(i as int), v@[i as int]@);
            }
            assert(out@ =~= start + seq![91u8] + enc_row_items(rows_view(v@).take(i + 1)));
        }
        i += 1;
    }
    out.push(93);
    proof {
        assert(rows_view(v@).take(n as int) =~= rows_view(v@));
        assert(out@ =~= start + enc_rows(rows_view(v@)));
    }
}

/// Parses a canonical unsigned decimal number at position `i`, bounded by
/// `max`: accepts exactly the canonical digit strings of values up to
/// `max` that end the input or are followed by a non-digit.
fn parse_uint(s: &Vec<u8>, i: usize, max: u64) -> (r: Option<(u64, usize)>)
    requires
        i <= s@.len(),
        max <= 0x1_0000_0000,
    ensures
        (r matches Some((v, j)) ==> i < j <= s@.len() && v <= max
            && s@.subrange(i as int, j as int) == digits_of(v as nat)
            && digit_run_end(s@, j as int)),
        forall|n: nat| n <= max && matches_at(s@, i as int, digits_of(n))
            && digit_run_end(s@, i + digits_of(n).len())
            ==> (r matches Some((v, j)) && v == n && j == i + digits_of(n).len()),
{
    let len = s.len();
    if i >= len {
        proof {
            assert forall|n: nat| n <= max && matches_at(s@, i as int, digits_of(n))
                && digit_run_end(s@, i + digits_of(n).len()) implies false by {
                lemma_digits_shape(n);
            }
        }
        return None;
    }
    let b0 = s[i];
    if b0 < 48 || b0 > 57 {
        proof {
            assert forall|n: nat| n <= max && matches_at(s@, i as int, digits_of(n))
                && digit_run_end(s@, i + digits_of(n).len()) implies false by {
                lemma_digits_shape(n);
                assert(s@.subrange(i as int, i + digits_of(n).len())[0] == s@[i as int]);
                assert(is_digit(digits_of(n)[0]));
            }
        }
        return None;
    }
    if b0 == 48 {
        if i + 1 < len && 48 <= s[i + 1] && s[i + 1] <= 57 {
            proof {
                assert forall|n: nat| n <= max && matches_at(s@, i as int, digits_of(n))
                    && digit_run_end(s@, i + digits_of(n).len()) implies false by {
                    lemma_digits_shape(n);
                    assert(s@.subrange(i as int, i + digits_of(n).len())[0] == s@[i as int]);
                    if n >= 1 {
                        lemma_digits_first_nonzero(n);
                    } else {
                        assert(digits_of(0) =~= seq![48u8]);
                        assert(digits_of(n).len() == 1);
                        assert(is_digit(s@[i + 1]));
                    }
                }
            }
            return None;
        }
        proof {
            assert(s@.subrange(i as int, i + 1) =~= seq![48u8]);
            assert(digits_of(0) =~= seq![48u8]);
            assert(digit_run_end(s@, i + 1));
            assert forall|n: nat| n <= max && matches_at(s@, i as int, digits_of(n))
                && digit_run_end(s@, i + digits_of(n).len()) implies n == 0
                && i + digits_of(n).len() == i + 1 by {
                lemma_digits_shape(n);
                assert(s@.subrange(i as int, i + digits_of(n).len())[0] == s@[i as int]);
                if n >= 1 {
                    lemma_digits_first_nonzero(n);
                }
            }
        }
        return Some((0, i + 1));
    }
    let mut acc: u64 = (b0 - 48) as u64;
    let mut j = i + 1;
    proof {
        assert(s@.subrange(i as int, i + 1) =~= seq![b0]);
        assert(seq![b0].drop_last() =~= Seq::<u8>::empty());
        assert(dec_val(Seq::<u8>::empty()) == 0);
        assert(seq![b0].last() == b0);
        assert(dec_val(seq![b0]) == 0 * 10 + (b0 - 48));
        assert(dec_val(s@.subrange(i as int, i + 1)) == b0 - 48);
    }
    if acc > max {
        proof {
            assert forall|n: nat| n <= max && matches_at(s@, i as int, digits_of(n))
                && digit_run_end(s@, i + digits_of(n).len()) implies false by {
                lemma_digits_shape(n);
                assert(s@.subrange(i as int, i + digits_of(n).len())[0] == s@[i as int]);
                assert(digits_of(n)[0] == b0);
                lemma_dec_val_digits(n);
                lemma_dec_val_prefix(digits_of(n), 1);
                assert(digits_of(n).take(1) =~= seq![b0]);
                assert(seq![b0].drop_last() =~= Seq::<u8>::empty());
                assert(dec_val(seq![b0]) == b0 - 48);
            }
        }
        return None;
    }
    while j < len && 48 <= s[j] && s[j] <= 57
        invariant
            i < j <= len,
            i < len,
            len == s@.len(),
            s@[i as int] == b0,
            49 <= b0 <= 57,
            max <= 0x1_0000_0000,
            acc <= max,
            forall|k: int| i <= k < j ==> is_digit(#[trigger] s@[k]),
            acc as int == dec_val(s@.subrange(i as int, j as int)),
        decreases len - j,
    {
        let d = s[j];
        let cand: u64 = acc * 10 + ((d - 48) as u64);
        proof {
            assert(s@.subrange(i as int, j + 1).drop_last() =~= s@.subrange(i as int, j as int));
            assert(s@.subrange(i as int, j + 1).last() == s@[j as int]);
            assert(dec_val(s@.subrange(i as int, j + 1)) == acc * 10 + (d - 48));
        }
        if cand > max {
            proof {
                assert forall|n: nat| n <= max && matches_at(s@, i as int, digits_of(n))
                    && digit_run_end(s@, i + digits_of(n).len()) implies false by {
                    lemma_digits_shape(n);
                    let dl = digits_of(n).len() as int;
                    assert forall|k: int| 0 <= k < dl implies s@[i + k]
                        == digits_of(n)[k] by {
                        assert(s@.subrange(i as int, i + dl)[k] == s@[i + k]);
                    }
                    if i + dl <= j as int {
                        if i + dl < j as int {
                            assert(is_digit(s@[i + dl]));
                        } else {
                            assert(is_digit(s@[j as int]));
                        }
                        assert(false);
                    }
                    assert(j + 1 - i <= dl);
                    assert(s@.subrange(i as int, j + 1) =~= digits_of(n).take(j + 1 - i));
                    lemma_dec_val_prefix(digits_of(n), j + 1 - i);
                    lemma_dec_val_digits(n);
                    assert(cand <= n);
                }
            }
            return None;
        }
        acc = cand;
        j += 1;
    }
    proof {
        let ds = s@.subrange(i as int, j as int);
        assert(ds[0] == s@[i as int]);
        assert forall|k: int| 0 <= k < ds.len() implies is_digit(#[trigger] ds[k]) by {
            assert(ds[k] == s@[i + k]);
        }
        lemma_canonical_digits(ds);
        assert(ds == digits_of(acc as nat));
        assert(digit_run_end(s@, j as int));
        assert forall|n: nat| n <= max && matches_at(s@, i as int, digits_of(n))
            && digit_run_end(s@, i + digits_of(n).len()) implies acc == n
            && j == i + digits_of(n).len() by {
            lemma_digits_shape(n);
            let dl = digits_of(n).len() as int;
            assert forall|k: int| 0 <= k < dl implies s@[i + k] == digits_of(n)[k] by {
                assert(s@.subrange(i as int, i + dl)[k] == s@[i + k]);
            }
            if j - i < dl {
                assert(s@[j as int] == digits_of(n)[j - i]);
                assert(is_digit(s@[j as int]));
                assert(false);
            }
            if j - i > dl {
                assert(is_digit(s@[i + dl]));
                assert(false);
            }
            assert(ds =~= digits_of(n));
            lemma_dec_val_digits(n);
        }
    }
    Some((acc, j))
}

/// Parses a canonical signed decimal number at position `i`: accepts
/// exactly the canonical encodings of 32-bit signed integers that end the
/// input or are followed by a non-digit.
fn parse_int_num(s: &Vec<u8>, i: usize) -> (r: Option<(i32, usize)>)
    requires
        i <= s@.len(),
    ensures
        (r matches Some((v, j)) ==> i < j <= s@.len()
            && s@.subrange(i as int, j as int) == enc_int(v as int)
            && digit_run_end(s@, j as int)),
        forall|m: int| -0x8000_0000 <= m < 0x8000_0000 && matches_at(s@, i as int, enc_int(m))
            && digit_run_end(s@, i + enc_int(m).len())
            ==> (r matches Some((v, j)) && v == m && j == i + enc_int(m).len()),
{
    let len = s.len();
    if i < len && s[i] == 45 {
        let r0 = parse_uint(s, i + 1, 0x8000_0000);
        match r0 {
            Some((v, j)) => {
                if v >= 1 {
                    let out: i32 = (-(v as i64)) as i32;
                    proof {
                        assert(out as int == -(v as int));
                        assert(s@.subrange(i as int, i + 1) =~= seq![45u8]);
                        assert(s@.subrange(i as int, j as int) =~= seq![45u8] + s@.subrange(
                            i + 1, j as int));
                        assert(enc_int(out as int) == seq![45u8] + digits_of(v as nat));
                        assert forall|m: int| -0x8000_0000 <= m < 0x8000_0000
                            && matches_at(s@, i as int, enc_int(m))
                            && digit_run_end(s@, i + enc_int(m).len()) implies out == m
                            && j == i + enc_int(m).len() by {
                            lemma_enc_int_first(m);
                            assert(s@.subrange(i as int, i + enc_int(m).len())[0]
                                == s@[i as int]);
                            if m >= 0 {
                                assert(is_digit(enc_int(m)[0]));
                                assert(false);
                            } else {
                                let mag = (-m) as nat;
                                assert(enc_int(m) == seq![45u8] + digits_of(mag));
                                lemma_matches_cat(s@, i as int, seq![45u8], digits_of(mag));
                                assert(matches_at(s@, i + 1, digits_of(mag)));
                                assert(i + enc_int(m).len() == i + 1 + digits_of(mag).len());
                                assert(digit_run_end(s@, i + 1 + digits_of(mag).len()));
                                assert(mag <= 0x8000_0000);
                            }
                        }
                    }
                    Some((out, j))
                } else {
                    proof {
                        assert forall|m: int| -0x8000_0000 <= m < 0x8000_0000
                            && matches_at(s@, i as int, enc_int(m))
                            && digit_run_end(s@, i + enc_int(m).len()) implies false by {
                            lemma_enc_int_first(m);
                            assert(s@.subrange(i as int, i + enc_int(m).len())[0]
                                == s@[i as int]);
                            if m >= 0 {
                                assert(is_digit(enc_int(m)[0]));
                            } else {
                                let mag = (-m) as nat;
                                assert(enc_int(m) == seq![45u8] + digits_of(mag));
                                lemma_matches_cat(s@, i as int, seq![45u8], digits_of(mag));
                                assert(matches_at(s@, i + 1, digits_of(mag)));
                                assert(digit_run_end(s@, i + 1 + digits_of(mag).len()));
                                assert(mag <= 0x8000_0000);
                                assert(v == mag);
                            }
                        }
                    }
                    None
                }
            }
            None => {
                proof {
                    assert forall|m: int| -0x8000_0000 <= m < 0x8000_0000
                        && matches_at(s@, i as int, enc_int(m))
                        && digit_run_end(s@, i + enc_int(m).len()) implies false by {
                        lemma_enc_int_first(m);
                        assert(s@.subrange(i as int, i + enc_int(m).len())[0] == s@[i as int]);
                        if m >= 0 {
                            assert(is_digit(enc_int(m)[0]));
                        } else {
                            let mag = (-m) as nat;
                            assert(enc_int(m) == seq![45u8] + digits_of(mag));
                            lemma_matches_cat(s@, i as int, seq![45u8], digits_of(mag));
                            assert(matches_at(s@, i + 1, digits_of(mag)));
                            assert(digit_run_end(s@, i + 1 + digits_of(mag).len()));
                            assert(mag <= 0x8000_0000);
                        }
                    }
                }
                None
            }
        }
    } else {
        let r0 = parse_uint(s, i, 0x7fff_ffff);
        match r0 {
            Some((v, j)) => {
                proof {
                    assert(enc_int(v as int) == digits_of(v as nat));
                    assert forall|m: int| -0x8000_0000 <= m < 0x8000_0000
                        && matches_at(s@, i as int, enc_int(m))
                        && digit_run_end(s@, i + enc_int(m).len()) implies v == m
                        && j == i + enc_int(m).len() by {
                        lemma_enc_int_first(m);
                        assert(s@.subrange(i as int, i + enc_int(m).len())[0] == s@[i as int]);
                        if m < 0 {
                            assert(s@[i as int] == 45);
                            assert(false);
                        } else {
                            assert(enc_int(m) == digits_of(m as nat));
                        }
                    }
                }
                Some((v as i32, j))
            }
            None => {
                proof {
                    assert forall|m: int| -0x8000_0000 <= m < 0x8000_0000
                        && matches_at(s@, i as int, enc_int(m))
                        && digit_run_end(s@, i + enc_int(m).len()) implies false by {
                        lemma_enc_int_first(m);
                        assert(s@.subrange(i as int, i + enc_int(m).len())[0] == s@[i as int]);
                        if m < 0 {
                            assert(s@[i as int] == 45);
                        } else {
                            assert(enc_int(m) == digits_of(m as nat));
                        }
                    }
                }
                None
            }
        }
    }
}

/// What follows the first element inside a nonempty integer list: the
/// closing bracket, or a comma and the remaining elements.
pub open spec fn i32_items_tail(v: Seq<i32>) -> Seq<u8> {
    if v.len() == 1 {
        seq![93u8]
    } else {
        seq![44u8] + (enc_i32_items(v.skip(1)) + seq![93u8])
    }
}

/// A nonempty integer list's encoding (with its closing bracket) is its
/// first element's encoding followed by the tail.
pub proof fn lemma_i32_items_head(v: Seq<i32>)
    requires
        v.len() >= 1,
    ensures
        enc_i32_items(v) + seq![93u8] == enc_int(v[0] as int) + i32_items_tail(v),
        i32_items_tail(v).len() >= 1,
        i32_items_tail(v)[0] == 44 || i32_items_tail(v)[0] == 93,
        (v.len() == 1) <==> (i32_items_tail(v)[0] == 93),
        !is_digit(i32_items_tail(v)[0]),
        (enc_i32_items(v) + seq![93u8]).len() == enc_int(v[0] as int).len()
            + i32_items_tail(v).len(),
{
    if v.len() == 1 {
        assert(enc_i32_items(v) + seq![93u8] =~= enc_int(v[0] as int) + i32_items_tail(v));
    } else {
        assert(enc_i32_items(v) + seq![93u8] =~= enc_int(v[0] as int) + i32_items_tail(v));
    }
}

/// The same decomposition for a nonempty byte list.
pub open spec fn u8_items_tail(v: Seq<u8>) -> Seq<u8> {
    if v.len() == 1 {
        seq![93u8]
    } else {
        seq![44u8] + (enc_u8_items(v.skip(1)) + seq![93u8])
    }
}

/// A nonempty byte list's encoding (with its closing bracket) is its
/// first element's digits followed by the tail.
pub proof fn lemma_u8_items_head(v: Seq<u8>)
    requires
        v.len() >= 1,
    ensures
        enc_u8_items(v) + seq![93u8] == digits_of(v[0] as nat) + u8_items_tail(v),
        u8_items_tail(v).len() >= 1,
        u8_items_tail(v)[0] == 44 || u8_items_tail(v)[0] == 93,
        (v.len() == 1) <==> (u8_items_tail(v)[0] == 93),
        !is_digit(u8_items_tail(v)[0]),
        (enc_u8_items(v) + seq![93u8]).len() == digits_of(v[0] as nat).len()
            + u8_items_tail(v).len(),
{
    if v.len() == 1 {
        assert(enc_u8_items(v) + seq![93u8] =~= digits_of(v[0] as nat) + u8_items_tail(v));
    } else {
        assert(enc_u8_items(v) + seq![93u8] =~= digits_of(v[0] as nat) + u8_items_tail(v));
    }
}

/// The same decomposition for a nonempty list of rows.
pub open spec fn row_items_tail(v: Seq<Seq<i32>>) -> Seq<u8> {
    if v.len() == 1 {
        seq![93u8]
    } else {
        seq![44u8] + (enc_row_items(v.skip(1)) + seq![93u8])
    }
}

/// A nonempty row list's encoding (with its closing bracket) is its first
/// row's encoding followed by the tail.
pub proof fn lemma_row_items_head(v: Seq<Seq<i32>>)
    requires
        v.len() >= 1,
    ensures
        enc_row_items(v) + seq![93u8] == enc_i32_row(v[0]) + row_items_tail(v),
        row_items_tail(v).len() >= 1,
        row_items_tail(v)[0] == 44 || row_items_tail(v)[0] == 93,
        (v.len() == 1) <==> (row_items_tail(v)[0] == 93),
        (enc_row_items(v) + seq![93u8]).len() == enc_i32_row(v[0]).len()
            + row_items_tail(v).len(),
{
    if v.len() == 1 {
        assert(enc_row_items(v) + seq![93u8] =~= enc_i32_row(v[0]) + row_items_tail(v));
    } else {
        assert(enc_row_items(v) + seq![93u8] =~= enc_i32_row(v[0]) + row_items_tail(v));
    }
}

/// A nonempty canonical integer list, with its closing bracket, occurs
/// at position `i`.
#[verifier::opaque]
pub open spec fn i32_list_at(s: Seq<u8>, i: int, v: Seq<i32>) -> bool {
    v.len() >= 1 && matches_at(s, i, enc_i32_items(v) + seq![93u8])
}

/// Completeness of list parsing: whenever a canonical integer list with
/// its closing bracket occurs at `i`, the parse succeeded, appended
/// exactly that list, and stopped right after the bracket.
pub open spec fn i32_items_complete(
    s: Seq<u8>,
    i: int,
    a0: Seq<i32>,
    a1: Seq<i32>,
    r: Option<usize>,
) -> bool {
    forall|v: Seq<i32>| i32_list_at(s, i, v)
        ==> (r matches Some(j) && a1 == a0 + v
            && j == i + (enc_i32_items(v) + seq![93u8]).len())
}

/// Parses `int (',' int)* ']'` at position `i`, pushing the parsed
/// elements onto `acc`: accepts exactly the canonical encodings.
#[verifier::rlimit(100)]
#[verifier::spinoff_prover]
fn parse_i32_items(s: &Vec<u8>, i: usize, acc: &mut Vec<i32>) -> (r: Option<usize>)
    requires
        i <= s@.len(),
    ensures
        (r matches Some(j) ==> i < j <= s@.len()
            && final(acc)@.len() > old(acc)@.len()
            && final(acc)@.take(old(acc)@.len() as int) == old(acc)@
            && s@.subrange(i as int, j as int)
                == enc_i32_items(final(acc)@.skip(old(acc)@.len() as int)) + seq![93u8]),
        i32_items_complete(s@, i as int, old(acc)@, final(acc)@, r),
    decreases s@.len() - i,
{
    let ghost ga = acc@;
    let len = s.len();
    let r0 = parse_int_num(s, i);
    match r0 {
        None => {
            proof {
                assert forall|v: Seq<i32>| i32_list_at(s@, i as int, v) implies false by {
                    reveal(i32_list_at);
                    lemma_i32_items_head(v);
                    lemma_matches_cat(s@, i as int, enc_int(v[0] as int), i32_items_tail(v));
                    let e0 = enc_int(v[0] as int);
                    assert(s@.subrange(i + e0.len(), i + e0.len() + i32_items_tail(v).len())[0]
                        == s@[i + e0.len()]);
                    assert(digit_run_end(s@, i + e0.len()));
                    assert(matches_at(s@, i as int, enc_int(v[0] as int)));
                    assert(-0x8000_0000 <= (v[0] as int) && (v[0] as int) < 0x8000_0000);
                }
                assert(i32_items_complete(s@, i as int, ga, acc@, None::<usize>));
            }
            None
        }
        Some((x, j)) => {
            if j >= len {
                proof {
                    assert forall|v: Seq<i32>| i32_list_at(s@, i as int, v) implies false by {
                        reveal(i32_list_at);
                        lemma_i32_items_head(v);
                        lemma_matches_cat(s@, i as int, enc_int(v[0] as int), i32_items_tail(v));
                        let e0 = enc_int(v[0] as int);
                        assert(s@.subrange(i + e0.len(), i + e0.len()
                            + i32_items_tail(v).len())[0] == s@[i + e0.len()]);
                        assert(digit_run_end(s@, i + e0.len()));
                        assert(matches_at(s@, i as int, enc_int(v[0] as int)));
                        assert(-0x8000_0000 <= (v[0] as int) && (v[0] as int) < 0x8000_0000);
                        assert(j == i + e0.len());
                    }
                    assert(i32_items_complete(s@, i as int, ga, acc@, None::<usize>));
                }
                return None;
            }
            let b = s[j];
            acc.push(x);
            let ghost gb = acc@;
            if b == 93 {
                proof {
                    assert(gb == ga.push(x));
                    assert(gb.take(ga.len() as int) =~= ga);
                    assert(gb.skip(ga.len() as int) =~= seq![x]);
                    assert(enc_i32_items(seq![x]) == enc_int(x as int));
                    assert(s@.subrange(j as int, j + 1) =~= seq![93u8]);
                    assert(s@.subrange(i as int, j + 1) =~= s@.subrange(i as int, j as int)
                        + s@.subrange(j as int, j + 1));
                    assert(s@.subrange(i as int, j + 1) == enc_i32_items(seq![x]) + seq![93u8]);
                    assert forall|v: Seq<i32>| i32_list_at(s@, i as int, v) implies
                        gb == ga + v && j + 1 == i + (enc_i32_items(v) + seq![93u8]).len() by {
                        reveal(i32_list_at);
                        lemma_i32_items_head(v);
                        lemma_matches_cat(s@, i as int, enc_int(v[0] as int), i32_items_tail(v));
                        let e0 = enc_int(v[0] as int);
                        assert(s@.subrange(i + e0.len(), i + e0.len()
                            + i32_items_tail(v).len())[0] == s@[i + e0.len()]);
                        assert(digit_run_end(s@, i + e0.len()));
                        assert(matches_at(s@, i as int, enc_int(v[0] as int)));
                        assert(-0x8000_0000 <= (v[0] as int) && (v[0] as int) < 0x8000_0000);
                        assert(x == v[0] && j == i + e0.len());
                        assert(s@[j as int] == i32_items_tail(v)[0]);
                        assert(v.len() == 1);
                        assert(v =~= seq![x]);
                        assert(gb =~= ga + v);
                    }
                    assert(i32_items_complete(s@, i as int, ga, gb, Some((j + 1) as usize)));
                }
                Some(j + 1)
            } else if b == 44 {
                let r1 = parse_i32_items(s, j + 1, acc);
                match r1 {
                    None => {
                        proof {
                            assert forall|v: Seq<i32>| i32_list_at(s@, i as int, v) implies
                                false by {
                                reveal(i32_list_at);
                                lemma_i32_items_head(v);
                                lemma_matches_cat(s@, i as int, enc_int(v[0] as int),
                                    i32_items_tail(v));
                                let e0 = enc_int(v[0] as int);
                                assert(s@.subrange(i + e0.len(), i + e0.len()
                                    + i32_items_tail(v).len())[0] == s@[i + e0.len()]);
                                assert(digit_run_end(s@, i + e0.len()));
                                assert(matches_at(s@, i as int, enc_int(v[0] as int)));
                                assert(-0x8000_0000 <= (v[0] as int)
                                    && (v[0] as int) < 0x8000_0000);
                                assert(x == v[0] && j == i + e0.len());
                                assert(s@[j as int] == i32_items_tail(v)[0]);
                                assert(v.len() >= 2);
                                lemma_matches_cat(s@, j as int, seq![44u8],
                                    enc_i32_items(v.skip(1)) + seq![93u8]);
                                assert(matches_at(s@, j + 1,
                                    enc_i32_items(v.skip(1)) + seq![93u8]));
                                assert(i32_list_at(s@, j + 1, v.skip(1))) by {
                                    reveal(i32_list_at);
                                }
                            }
                            assert(i32_items_complete(s@, i as int, ga, acc@, None::<usize>));
                        }
                        None
                    }
                    Some(k) => {
                        proof {
                            assert(acc@.take(gb.len() as int) == gb);
                            assert(acc@.take(ga.len() as int) =~= ga) by {
                                assert forall|t: int| 0 <= t < ga.len() implies acc@[t]
                                    == ga[t] by {
                                    assert(acc@.take(gb.len() as int)[t] == acc@[t]);
                                }
                            }
                            assert(acc@[ga.len() as int] == gb[ga.len() as int]) by {
                                assert(acc@.take(gb.len() as int)[ga.len() as int]
                                    == acc@[ga.len() as int]);
                            }
                            let rest = acc@.skip(ga.len() as int);
                            assert(rest[0] == x);
                            assert(rest.len() >= 2);
                            assert(rest.skip(1) =~= acc@.skip(gb.len() as int));
                            assert(enc_i32_items(rest) == enc_int(x as int) + seq![44u8]
                                + enc_i32_items(rest.skip(1)));
                            assert(s@.subrange(j as int, j + 1) =~= seq![44u8]);
                            assert(s@.subrange(i as int, k as int) =~= s@.subrange(i as int,
                                j as int) + s@.subrange(j as int, j + 1) + s@.subrange(j + 1,
                                k as int));
                            assert(s@.subrange(i as int, k as int) =~= enc_i32_items(rest)
                                + seq![93u8]);
                            assert forall|v: Seq<i32>| i32_list_at(s@, i as int, v) implies
                                acc@ == ga + v
                                && k == i + (enc_i32_items(v) + seq![93u8]).len() by {
                                reveal(i32_list_at);
                                lemma_i32_items_head(v);
                                lemma_matches_cat(s@, i as int, enc_int(v[0] as int),
                                    i32_items_tail(v));
                                let e0 = enc_int(v[0] as int);
                                assert(s@.subrange(i + e0.len(), i + e0.len()
                                    + i32_items_tail(v).len())[0] == s@[i + e0.len()]);
                                assert(digit_run_end(s@, i + e0.len()));
                                assert(matches_at(s@, i as int, enc_int(v[0] as int)));
                                assert(-0x8000_0000 <= (v[0] as int)
                                    && (v[0] as int) < 0x8000_0000);
                                assert(x == v[0] && j == i + e0.len());
                                assert(s@[j as int] == i32_items_tail(v)[0]);
                                assert(v.len() >= 2);
                                lemma_matches_cat(s@, j as int, seq![44u8],
                                    enc_i32_items(v.skip(1)) + seq![93u8]);
                                assert(matches_at(s@, j + 1,
                                    enc_i32_items(v.skip(1)) + seq![93u8]));
                                assert(v.skip(1).len() >= 1);
                                assert(i32_list_at(s@, j + 1, v.skip(1))) by {
                                    reveal(i32_list_at);
                                }
                                assert(acc@ == gb + v.skip(1));
                                assert(acc@ =~= ga + v) by {
                                    assert(v =~= seq![v[0]] + v.skip(1));
                                }
                                assert(k == j + 1 + (enc_i32_items(v.skip(1))
                                    + seq![93u8]).len());
                            }
                            assert(i32_items_complete(s@, i as int, ga, acc@, Some(k)));
                        }
                        Some(k)
                    }
                }
            } else {
                proof {
                    assert forall|v: Seq<i32>| i32_list_at(s@, i as int, v) implies false by {
                        reveal(i32_list_at);
                        lemma_i32_items_head(v);
                        lemma_matches_cat(s@, i as int, enc_int(v[0] as int), i32_items_tail(v));
                        let e0 = enc_int(v[0] as int);
                        assert(s@.subrange(i + e0.len(), i + e0.len()
                            + i32_items_tail(v).len())[0] == s@[i + e0.len()]);
                        assert(digit_run_end(s@, i + e0.len()));
                        assert(matches_at(s@, i as int, enc_int(v[0] as int)));
                        assert(-0x8000_0000 <= (v[0] as int) && (v[0] as int) < 0x8000_0000);
                        assert(x == v[0] && j == i + e0.len());
                        assert(s@[j as int] == i32_items_tail(v)[0]);
                    }
                    assert(i32_items_complete(s@, i as int, ga, acc@, None::<usize>));
                }
                None
            }
        }
    }
}


/// Parses a JSON array of signed integers at position `i`: accepts
/// exactly the canonical row encodings.
fn parse_i32_row(s: &Vec<u8>, i: usize) -> (r: Option<(Vec<i32>, usize)>)
    requires
        i <= s@.len(),
    ensures
        (r matches Some((w, j)) ==> i < j <= s@.len()
            && s@.subrange(i as int, j as int) == enc_i32_row(w@)),
        forall|v: Seq<i32>| matches_at(s@, i as int, enc_i32_row(v))
            ==> (r matches Some((w, j)) && w@ == v && j == i + enc_i32_row(v).len()),
{
    let len = s.len();
    if !(i < len && s[i] == 91) {
        proof {
            assert forall|v: Seq<i32>| matches_at(s@, i as int, enc_i32_row(v)) implies
                false by {
                assert(enc_i32_row(v)[0] == 91);
                assert(s@.subrange(i as int, i + enc_i32_row(v).len())[0] == s@[i as int]);
            }
        }
        return None;
    }
    if i + 1 < len && s[i + 1] == 93 {
        proof {
            assert(enc_i32_row(Seq::<i32>::empty()) =~= seq![91u8, 93u8]);
            assert(s@.subrange(i as int, i + 2) =~= seq![91u8, 93u8]);
            assert(s@.subrange(i as int, i + 2) == enc_i32_row(Seq::<i32>::empty()));
            assert forall|v: Seq<i32>| matches_at(s@, i as int, enc_i32_row(v)) implies
                v =~= Seq::<i32>::empty() && i + 2 == i + enc_i32_row(v).len() by {
                if v.len() >= 1 {
                    lemma_i32_items_head(v);
                    lemma_enc_int_first(v[0] as int);
                    assert(enc_i32_row(v) =~= seq![91u8] + (enc_i32_items(v) + seq![93u8]));
                    assert(enc_i32_row(v)[1] == (enc_i32_items(v) + seq![93u8])[0]);
                    assert((enc_i32_items(v) + seq![93u8])[0] == enc_int(v[0] as int)[0]);
                    assert(s@.subrange(i as int, i + enc_i32_row(v).len())[1] == s@[i + 1]);
                    assert(s@[i + 1] == 45 || is_digit(s@[i + 1]));
                    assert(false);
                }
            }
        }
        let w: Vec<i32> = Vec::new();
        return Some((w, i + 2));
    }
    let mut w: Vec<i32> = Vec::new();
    let r0 = parse_i32_items(s, i + 1, &mut w);
    match r0 {
        Some(j) => {
            proof {
                assert(w@.skip(0) =~= w@);
                assert(s@.subrange(i as int, i + 1) =~= seq![91u8]);
                assert(s@.subrange(i as int, j as int) =~= s@.subrange(i as int, i + 1)
                    + s@.subrange(i + 1, j as int));
                assert(s@.subrange(i as int, j as int) =~= enc_i32_row(w@));
                assert forall|v: Seq<i32>| matches_at(s@, i as int, enc_i32_row(v)) implies
                    w@ == v && j == i + enc_i32_row(v).len() by {
                    assert(enc_i32_row(v) =~= seq![91u8] + (enc_i32_items(v) + seq![93u8]));
                    lemma_matches_cat(s@, i as int, seq![91u8], enc_i32_items(v) + seq![93u8]);
                    if v.len() == 0 {
                        assert(enc_i32_items(v).len() == 0);
                        assert((enc_i32_items(v) + seq![93u8])[0] == 93);
                        assert(s@.subrange(i + 1, i + 1
                            + (enc_i32_items(v) + seq![93u8]).len())[0] == s@[i + 1]);
                        assert(s@[i + 1] == 93);
                        assert(false);
                    }
                    assert(i32_list_at(s@, i + 1, v)) by {
                        reveal(i32_list_at);
                    }
                    assert(w@ == Seq::<i32>::empty() + v);
                    assert(w@ =~= v);
                }
            }
            Some((w, j))
        }
        None => {
            proof {
                assert forall|v: Seq<i32>| matches_at(s@, i as int, enc_i32_row(v)) implies
                    false by {
                    assert(enc_i32_row(v) =~= seq![91u8] + (enc_i32_items(v) + seq![93u8]));
                    lemma_matches_cat(s@, i as int, seq![91u8], enc_i32_items(v) + seq![93u8]);
                    if v.len() == 0 {
                        assert((enc_i32_items(v) + seq![93u8])[0] == 93);
                        assert(s@.subrange(i + 1, i + 1
                            + (enc_i32_items(v) + seq![93u8]).len())[0] == s@[i + 1]);
                        assert(s@[i + 1] == 93);
                        assert(i + 1 < s@.len());
                        assert(false);
                    }
                    assert(i32_list_at(s@, i + 1, v)) by {
                        reveal(i32_list_at);
                    }
                }
            }
            None
        }
    }
}

/// A nonempty canonical byte list, with its closing bracket, occurs at
/// position `i`.
#[verifier::opaque]
pub open spec fn u8_list_at(s: Seq<u8>, i: int, v: Seq<u8>) -> bool {
    v.len() >= 1 && matches_at(s, i, enc_u8_items(v) + seq![93u8])
}

/// Completeness of byte-list parsing, as for integer lists.
pub open spec fn u8_items_complete(
    s: Seq<u8>,
    i: int,
    a0: Seq<u8>,
    a1: Seq<u8>,
    r: Option<usize>,
) -> bool {
    forall|v: Seq<u8>| u8_list_at(s, i, v)
        ==> (r matches Some(j) && a1 == a0 + v
            && j == i + (enc_u8_items(v) + seq![93u8]).len())
}

/// Parses `byte (',' byte)* ']'` at position `i`, pushing the parsed
/// bytes onto `acc`: accepts exactly the canonical encodings.
#[verifier::rlimit(100)]
#[verifier::spinoff_prover]
fn parse_u8_items(s: &Vec<u8>, i: usize, acc: &mut Vec<u8>) -> (r: Option<usize>)
    requires
        i <= s@.len(),
    ensures
        (r matches Some(j) ==> i < j <= s@.len()
            && final(acc)@.len() > old(acc)@.len()
            && final(acc)@.take(old(acc)@.len() as int) == old(acc)@
            && s@.subrange(i as int, j as int)
                == enc_u8_items(final(acc)@.skip(old(acc)@.len() as int)) + seq![93u8]),
        u8_items_complete(s@, i as int, old(acc)@, final(acc)@, r),
    decreases s@.len() - i,
{
    let ghost ga = acc@;
    let len = s.len();
    let r0 = parse_uint(s, i, 255);
    match r0 {
        None => {
            proof {
                assert forall|v: Seq<u8>| u8_list_at(s@, i as int, v) implies false by {
                    reveal(u8_list_at);
                    lemma_u8_items_head(v);
                    lemma_matches_cat(s@, i as int, digits_of(v[0] as nat), u8_items_tail(v));
                    let e0 = digits_of(v[0] as nat);
                    assert(s@.subrange(i + e0.len(), i + e0.len() + u8_items_tail(v).len())[0]
                        == s@[i + e0.len()]);
                    assert(digit_run_end(s@, i + e0.len()));
                    assert(matches_at(s@, i as int, digits_of(v[0] as nat)));
                    assert((v[0] as nat) <= 255);
                }
                assert(u8_items_complete(s@, i as int, ga, acc@, None::<usize>));
            }
            None
        }
        Some((x, j)) => {
            if j >= len {
                proof {
                    assert forall|v: Seq<u8>| u8_list_at(s@, i as int, v) implies false by {
                        reveal(u8_list_at);
                        lemma_u8_items_head(v);
                        lemma_matches_cat(s@, i as int, digits_of(v[0] as nat),
                            u8_items_tail(v));
                        let e0 = digits_of(v[0] as nat);
                        assert(s@.subrange(i + e0.len(), i + e0.len()
                            + u8_items_tail(v).len())[0] == s@[i + e0.len()]);
                        assert(digit_run_end(s@, i + e0.len()));
                        assert(matches_at(s@, i as int, digits_of(v[0] as nat)));
                        assert((v[0] as nat) <= 255);
                        assert(j == i + e0.len());
                    }
                    assert(u8_items_complete(s@, i as int, ga, acc@, None::<usize>));
                }
                return None;
            }
            let b = s[j];
            let x8: u8 = x as u8;
            acc.push(x8);
            let ghost gb = acc@;
            proof {
                assert(x8 as nat == x as nat);
            }
            if b == 93 {
                proof {
                    assert(gb == ga.push(x8));
                    assert(gb.take(ga.len() as int) =~= ga);
                    assert(gb.skip(ga.len() as int) =~= seq![x8]);
                    assert(enc_u8_items(seq![x8]) == digits_of(x8 as nat));
                    assert(s@.subrange(j as int, j + 1) =~= seq![93u8]);
                    assert(s@.subrange(i as int, j + 1) =~= s@.subrange(i as int, j as int)
                        + s@.subrange(j as int, j + 1));
                    assert(s@.subrange(i as int, j + 1) == enc_u8_items(seq![x8]) + seq![93u8]);
                    assert forall|v: Seq<u8>| u8_list_at(s@, i as int, v) implies
                        gb == ga + v && j + 1 == i + (enc_u8_items(v) + seq![93u8]).len() by {
                        reveal(u8_list_at);
                        lemma_u8_items_head(v);
                        lemma_matches_cat(s@, i as int, digits_of(v[0] as nat),
                            u8_items_tail(v));
                        let e0 = digits_of(v[0] as nat);
                        assert(s@.subrange(i + e0.len(), i + e0.len()
                            + u8_items_tail(v).len())[0] == s@[i + e0.len()]);
                        assert(digit_run_end(s@, i + e0.len()));
                        assert(matches_at(s@, i as int, digits_of(v[0] as nat)));
                        assert((v[0] as nat) <= 255);
                        assert(x == v[0] && j == i + e0.len());
                        assert(s@[j as int] == u8_items_tail(v)[0]);
                        assert(v.len() == 1);
                        assert(v =~= seq![x8]);
                        assert(gb =~= ga + v);
                    }
                    assert(u8_items_complete(s@, i as int, ga, gb, Some((j + 1) as usize)));
                }
                Some(j + 1)
            } else if b == 44 {
                let r1 = parse_u8_items(s, j + 1, acc);
                match r1 {
                    None => {
                        proof {
                            assert forall|v: Seq<u8>| u8_list_at(s@, i as int, v) implies
                                false by {
                                reveal(u8_list_at);
                                lemma_u8_items_head(v);
                                lemma_matches_cat(s@, i as int, digits_of(v[0] as nat),
                                    u8_items_tail(v));
                                let e0 = digits_of(v[0] as nat);
                                assert(s@.subrange(i + e0.len(), i + e0.len()
                                    + u8_items_tail(v).len())[0] == s@[i + e0.len()]);
                                assert(digit_run_end(s@, i + e0.len()));
                                assert(matches_at(s@, i as int, digits_of(v[0] as nat)));
                                assert((v[0] as nat) <= 255);
                                assert(x == v[0] && j == i + e0.len());
                                assert(s@[j as int] == u8_items_tail(v)[0]);
                                assert(v.len() >= 2);
                                lemma_matches_cat(s@, j as int, seq![44u8],
                                    enc_u8_items(v.skip(1)) + seq![93u8]);
                                assert(matches_at(s@, j + 1,
                                    enc_u8_items(v.skip(1)) + seq![93u8]));
                                assert(u8_list_at(s@, j + 1, v.skip(1))) by {
                                    reveal(u8_list_at);
                                }
                            }
                            assert(u8_items_complete(s@, i as int, ga, acc@, None::<usize>));
                        }
                        None
                    }
                    Some(k) => {
                        proof {
                            assert(acc@.take(gb.len() as int) == gb);
                            assert(acc@.take(ga.len() as int) =~= ga) by {
                                assert forall|t: int| 0 <= t < ga.len() implies acc@[t]
                                    == ga[t] by {
                                    assert(acc@.take(gb.len() as int)[t] == acc@[t]);
                                }
                            }
                            assert(acc@[ga.len() as int] == gb[ga.len() as int]) by {
                                assert(acc@.take(gb.len() as int)[ga.len() as int]
                                    == acc@[ga.len() as int]);
                            }
                            let rest = acc@.skip(ga.len() as int);
                            assert(rest[0] == x8);
                            assert(rest.len() >= 2);
                            assert(rest.skip(1) =~= acc@.skip(gb.len() as int));
                            assert(enc_u8_items(rest) == digits_of(x8 as nat) + seq![44u8]
                                + enc_u8_items(rest.skip(1)));
                            assert(s@.subrange(j as int, j + 1) =~= seq![44u8]);
                            assert(s@.subrange(i as int, k as int) =~= s@.subrange(i as int,
                                j as int) + s@.subrange(j as int, j + 1) + s@.subrange(j + 1,
                                k as int));
                            assert(s@.subrange(i as int, k as int) =~= enc_u8_items(rest)
                                + seq![93u8]);
                            assert forall|v: Seq<u8>| u8_list_at(s@, i as int, v) implies
                                Some(k) matches Some(jj) && acc@ == ga + v
                                && jj == i + (enc_u8_items(v) + seq![93u8]).len() by {
                                reveal(u8_list_at);
                                lemma_u8_items_head(v);
                                lemma_matches_cat(s@, i as int, digits_of(v[0] as nat),
                                    u8_items_tail(v));
                                let e0 = digits_of(v[0] as nat);
                                assert(s@.subrange(i + e0.len(), i + e0.len()
                                    + u8_items_tail(v).len())[0] == s@[i + e0.len()]);
                                assert(digit_run_end(s@, i + e0.len()));
                                assert(matches_at(s@, i as int, digits_of(v[0] as nat)));
                                assert((v[0] as nat) <= 255);
                                assert(x == v[0] && j == i + e0.len());
                                assert(s@[j as int] == u8_items_tail(v)[0]);
                                assert(v.len() >= 2);
                                lemma_matches_cat(s@, j as int, seq![44u8],
                                    enc_u8_items(v.skip(1)) + seq![93u8]);
                                assert(matches_at(s@, j + 1,
                                    enc_u8_items(v.skip(1)) + seq![93u8]));
                                assert(v.skip(1).len() >= 1);
                                assert(u8_list_at(s@, j + 1, v.skip(1))) by {
                                    reveal(u8_list_at);
                                }
                                assert(acc@ == gb + v.skip(1));
                                assert(acc@ =~= ga + v) by {
                                    assert(v =~= seq![v[0]] + v.skip(1));
                                }
                                assert(k == j + 1 + (enc_u8_items(v.skip(1))
                                    + seq![93u8]).len());
                                assert((enc_u8_items(v) + seq![93u8]).len()
                                    == e0.len() + 1 + (enc_u8_items(v.skip(1))
                                    + seq![93u8]).len());
                                assert(k == i + (enc_u8_items(v) + seq![93u8]).len());
                            }
                            assert(u8_items_complete(s@, i as int, ga, acc@, Some(k)));
                        }
                        Some(k)
                    }
                }
            } else {
                proof {
                    assert forall|v: Seq<u8>| u8_list_at(s@, i as int, v) implies false by {
                        reveal(u8_list_at);
                        lemma_u8_items_head(v);
                        lemma_matches_cat(s@, i as int, digits_of(v[0] as nat),
                            u8_items_tail(v));
                        let e0 = digits_of(v[0] as nat);
                        assert(s@.subrange(i + e0.len(), i + e0.len()
                            + u8_items_tail(v).len())[0] == s@[i + e0.len()]);
                        assert(digit_run_end(s@, i + e0.len()));
                        assert(matches_at(s@, i as int, digits_of(v[0] as nat)));
                        assert((v[0] as nat) <= 255);
                        assert(x == v[0] && j == i + e0.len());
                        assert(s@[j as int] == u8_items_tail(v)[0]);
                    }
                    assert(u8_items_complete(s@, i as int, ga, acc@, None::<usize>));
                }
                None
            }
        }
    }
}

/// Parses a JSON array of bytes at position `i`: accepts exactly the
/// canonical byte-row encodings.
fn parse_u8_row(s: &Vec<u8>, i: usize) -> (r: Option<(Vec<u8>, usize)>)
    requires
        i <= s@.len(),
    ensures
        (r matches Some((w, j)) ==> i < j <= s@.len()
            && s@.subrange(i as int, j as int) == enc_u8_row(w@)),
        forall|v: Seq<u8>| matches_at(s@, i as int, enc_u8_row(v))
            ==> (r matches Some((w, j)) && w@ == v && j == i + enc_u8_row(v).len()),
{
    let len = s.len();
    if !(i < len && s[i] == 91) {
        proof {
            assert forall|v: Seq<u8>| matches_at(s@, i as int, enc_u8_row(v)) implies
                false by {
                assert(enc_u8_row(v)[0] == 91);
                assert(s@.subrange(i as int, i + enc_u8_row(v).len())[0] == s@[i as int]);
            }
        }
        return None;
    }
    if i + 1 < len && s[i + 1] == 93 {
        proof {
            assert(enc_u8_row(Seq::<u8>::empty()) =~= seq![91u8, 93u8]);
            assert(s@.subrange(i as int, i + 2) =~= seq![91u8, 93u8]);
            assert(s@.subrange(i as int, i + 2) == enc_u8_row(Seq::<u8>::empty()));
            assert forall|v: Seq<u8>| matches_at(s@, i as int, enc_u8_row(v)) implies
                v =~= Seq::<u8>::empty() && i + 2 == i + enc_u8_row(v).len() by {
                if v.len() >= 1 {
                    lemma_u8_items_head(v);
                    lemma_digits_shape(v[0] as nat);
                    assert(enc_u8_row(v) =~= seq![91u8] + (enc_u8_items(v) + seq![93u8]));
                    assert((enc_u8_items(v) + seq![93u8])[0] == digits_of(v[0] as nat)[0]);
                    assert(s@.subrange(i as int, i + enc_u8_row(v).len())[1] == s@[i + 1]);
                    assert(is_digit(s@[i + 1]));
                    assert(false);
                }
            }
        }
        let w: Vec<u8> = Vec::new();
        return Some((w, i + 2));
    }
    let mut w: Vec<u8> = Vec::new();
    let r0 = parse_u8_items(s, i + 1, &mut w);
    match r0 {
        Some(j) => {
            proof {
                assert(w@.skip(0) =~= w@);
                assert(s@.subrange(i as int, i + 1) =~= seq![91u8]);
                assert(s@.subrange(i as int, j as int) =~= s@.subrange(i as int, i + 1)
                    + s@.subrange(i + 1, j as int));
                assert(s@.subrange(i as int, j as int) =~= enc_u8_row(w@));
                assert forall|v: Seq<u8>| matches_at(s@, i as int, enc_u8_row(v)) implies
                    w@ == v && j == i + enc_u8_row(v).len() by {
                    assert(enc_u8_row(v) =~= seq![91u8] + (enc_u8_items(v) + seq![93u8]));
                    lemma_matches_cat(s@, i as int, seq![91u8], enc_u8_items(v) + seq![93u8]);
                    if v.len() == 0 {
                        assert((enc_u8_items(v) + seq![93u8])[0] == 93);
                        assert(s@.subrange(i + 1, i + 1
                            + (enc_u8_items(v) + seq![93u8]).len())[0] == s@[i + 1]);
                        assert(s@[i + 1] == 93);
                        assert(false);
                    }
                    assert(u8_list_at(s@, i + 1, v)) by {
                        reveal(u8_list_at);
                    }
                    assert(w@ == Seq::<u8>::empty() + v);
                    assert(w@ =~= v);
                }
            }
            Some((w, j))
        }
        None => {
            proof {
                assert forall|v: Seq<u8>| matches_at(s@, i as int, enc_u8_row(v)) implies
                    false by {
                    assert(enc_u8_row(v) =~= seq![91u8] + (enc_u8_items(v) + seq![93u8]));
                    lemma_matches_cat(s@, i as int, seq![91u8], enc_u8_items(v) + seq![93u8]);
                    if v.len() == 0 {
                        assert((enc_u8_items(v) + seq![93u8])[0] == 93);
                        assert(s@.subrange(i + 1, i + 1
                            + (enc_u8_items(v) + seq![93u8]).len())[0] == s@[i + 1]);
                        assert(s@[i + 1] == 93);
                        assert(i + 1 < s@.len());
                        assert(false);
                    }
                    assert(u8_list_at(s@, i + 1, v)) by {
                        reveal(u8_list_at);
                    }
                }
            }
            None
        }
    }
}

/// A nonempty canonical list of integer rows, with its closing bracket,
/// occurs at position `i`.
#[verifier::opaque]
pub open spec fn row_list_at(s: Seq<u8>, i: int, v: Seq<Seq<i32>>) -> bool {
    v.len() >= 1 && matches_at(s, i, enc_row_items(v) + seq![93u8])
}

/// Completeness of row-list parsing, as for integer lists.
pub open spec fn row_items_complete(
    s: Seq<u8>,
    i: int,
    a0: Seq<Seq<i32>>,
    a1: Seq<Seq<i32>>,
    r: Option<usize>,
) -> bool {
    forall|v: Seq<Seq<i32>>| row_list_at(s, i, v)
        ==> (r matches Some(j) && a1 == a0 + v
            && j == i + (enc_row_items(v) + seq![93u8]).len())
}

/// Parses `row (',' row)* ']'` at position `i`, pushing the parsed rows
/// onto `acc`: accepts exactly the canonical encodings.
#[verifier::rlimit(100)]
#[verifier::spinoff_prover]
fn parse_row_items(s: &Vec<u8>, i: usize, acc: &mut Vec<Vec<i32>>) -> (r: Option<usize>)
    requires
        i <= s@.len(),
    ensures
        (r matches Some(j) ==> i < j <= s@.len()
            && final(acc)@.len() > old(acc)@.len()
            && rows_view(final(acc)@).take(old(acc)@.len() as int) == rows_view(old(acc)@)
            && s@.subrange(i as int, j as int)
                == enc_row_items(rows_view(final(acc)@).skip(old(acc)@.len() as int))
                + seq![93u8]),
        row_items_complete(s@, i as int, rows_view(old(acc)@), rows_view(final(acc)@), r),
    decreases s@.len() - i,
{
    let ghost ga = rows_view(acc@);
    let len = s.len();
    let r0 = parse_i32_row(s, i);
    match r0 {
        None => {
            proof {
                assert forall|v: Seq<Seq<i32>>| row_list_at(s@, i as int, v) implies false by {
                    reveal(row_list_at);
                    lemma_row_items_head(v);
                    lemma_matches_cat(s@, i as int, enc_i32_row(v[0]), row_items_tail(v));
                    assert(matches_at(s@, i as int, enc_i32_row(v[0])));
                }
                assert(row_items_complete(s@, i as int, ga, rows_view(acc@), None::<usize>));
            }
            None
        }
        Some((row, j)) => {
            if j >= len {
                proof {
                    assert forall|v: Seq<Seq<i32>>| row_list_at(s@, i as int, v) implies
                        false by {
                        reveal(row_list_at);
                        lemma_row_items_head(v);
                        lemma_matches_cat(s@, i as int, enc_i32_row(v[0]), row_items_tail(v));
                        assert(matches_at(s@, i as int, enc_i32_row(v[0])));
                        assert(j == i + enc_i32_row(v[0]).len());
                        assert(s@.subrange(i + enc_i32_row(v[0]).len(), i
                            + enc_i32_row(v[0]).len() + row_items_tail(v).len())[0]
                            == s@[i + enc_i32_row(v[0]).len()]);
                    }
                    assert(row_items_complete(s@, i as int, ga, rows_view(acc@),
                        None::<usize>));
                }
                return None;
            }
            let b = s[j];
            let ghost grow = row@;
            acc.push(row);
            let ghost gb = rows_view(acc@);
            proof {
                assert(gb =~= ga.push(grow));
            }
            if b == 93 {
                proof {
                    assert(gb.take(ga.len() as int) =~= ga);
                    assert(gb.skip(ga.len() as int) =~= seq![grow]);
                    assert(enc_row_items(seq![grow]) == enc_i32_row(grow));
                    assert(s@.subrange(j as int, j + 1) =~= seq![93u8]);
                    assert(s@.subrange(i as int, j + 1) =~= s@.subrange(i as int, j as int)
                        + s@.subrange(j as int, j + 1));
                    assert(s@.subrange(i as int, j + 1) == enc_row_items(seq![grow])
                        + seq![93u8]);
                    assert forall|v: Seq<Seq<i32>>| row_list_at(s@, i as int, v) implies
                        Some((j + 1) as usize) matches Some(jj) && gb == ga + v
                        && jj == i + (enc_row_items(v) + seq![93u8]).len() by {
                        reveal(row_list_at);
                        lemma_row_items_head(v);
                        lemma_matches_cat(s@, i as int, enc_i32_row(v[0]), row_items_tail(v));
                        assert(matches_at(s@, i as int, enc_i32_row(v[0])));
                        assert(grow == v[0] && j == i + enc_i32_row(v[0]).len());
                        assert(s@.subrange(i + enc_i32_row(v[0]).len(), i
                            + enc_i32_row(v[0]).len() + row_items_tail(v).len())[0]
                            == s@[i + enc_i32_row(v[0]).len()]);
                        assert(s@[j as int] == row_items_tail(v)[0]);
                        assert(v.len() == 1);
                        assert(v =~= seq![grow]);
                        assert(gb =~= ga + v);
                    }
                    assert(row_items_complete(s@, i as int, ga, gb, Some((j + 1) as usize)));
                }
                Some(j + 1)
            } else if b == 44 {
                let r1 = parse_row_items(s, j + 1, acc);
                match r1 {
                    None => {
                        proof {
                            assert forall|v: Seq<Seq<i32>>| row_list_at(s@, i as int, v)
                                implies false by {
                                reveal(row_list_at);
                                lemma_row_items_head(v);
                                lemma_matches_cat(s@, i as int, enc_i32_row(v[0]),
                                    row_items_tail(v));
                                assert(matches_at(s@, i as int, enc_i32_row(v[0])));
                                assert(grow == v[0] && j == i + enc_i32_row(v[0]).len());
                                assert(s@.subrange(i + enc_i32_row(v[0]).len(), i
                                    + enc_i32_row(v[0]).len() + row_items_tail(v).len())[0]
                                    == s@[i + enc_i32_row(v[0]).len()]);
                                assert(s@[j as int] == row_items_tail(v)[0]);
                                assert(v.len() >= 2);
                                lemma_matches_cat(s@, j as int, seq![44u8],
                                    enc_row_items(v.skip(1)) + seq![93u8]);
                                assert(matches_at(s@, j + 1,
                                    enc_row_items(v.skip(1)) + seq![93u8]));
                                assert(row_list_at(s@, j + 1, v.skip(1))) by {
                                    reveal(row_list_at);
                                }
                            }
                            assert(row_items_complete(s@, i as int, ga, rows_view(acc@),
                                None::<usize>));
                        }
                        None
                    }
                    Some(k) => {
                        proof {
                            let gc = rows_view(acc@);
                            assert(gc.take(gb.len() as int) == gb);
                            assert(gc.take(ga.len() as int) =~= ga) by {
                                assert forall|t: int| 0 <= t < ga.len() implies gc[t]
                                    == ga[t] by {
                                    assert(gc.take(gb.len() as int)[t] == gc[t]);
                                }
                            }
                            assert(gc[ga.len() as int] == gb[ga.len() as int]) by {
                                assert(gc.take(gb.len() as int)[ga.len() as int]
                                    == gc[ga.len() as int]);
                            }
                            let rest = gc.skip(ga.len() as int);
                            assert(rest[0] == grow);
                            assert(rest.len() >= 2);
                            assert(rest.skip(1) =~= gc.skip(gb.len() as int));
                            assert(enc_row_items(rest) == enc_i32_row(grow) + seq![44u8]
                                + enc_row_items(rest.skip(1)));
                            assert(s@.subrange(j as int, j + 1) =~= seq![44u8]);
                            assert(s@.subrange(i as int, k as int) =~= s@.subrange(i as int,
                                j as int) + s@.subrange(j as int, j + 1) + s@.subrange(j + 1,
                                k as int));
                            assert(s@.subrange(i as int, k as int) =~= enc_row_items(rest)
                                + seq![93u8]);
                            assert forall|v: Seq<Seq<i32>>| row_list_at(s@, i as int, v)
                                implies Some(k) matches Some(jj) && gc == ga + v
                                && jj == i + (enc_row_items(v) + seq![93u8]).len() by {
                                reveal(row_list_at);
                                lemma_row_items_head(v);
                                lemma_matches_cat(s@, i as int, enc_i32_row(v[0]),
                                    row_items_tail(v));
                                assert(matches_at(s@, i as int, enc_i32_row(v[0])));
                                assert(grow == v[0] && j == i + enc_i32_row(v[0]).len());
                                assert(s@.subrange(i + enc_i32_row(v[0]).len(), i
                                    + enc_i32_row(v[0]).len() + row_items_tail(v).len())[0]
                                    == s@[i + enc_i32_row(v[0]).len()]);
                                assert(s@[j as int] == row_items_tail(v)[0]);
                                assert(v.len() >= 2);
                                lemma_matches_cat(s@, j as int, seq![44u8],
                                    enc_row_items(v.skip(1)) + seq![93u8]);
                                assert(matches_at(s@, j + 1,
                                    enc_row_items(v.skip(1)) + seq![93u8]));
                                assert(v.skip(1).len() >= 1);
                                assert(row_list_at(s@, j + 1, v.skip(1))) by {
                                    reveal(row_list_at);
                                }
                                assert(gc == gb + v.skip(1));
                                assert(gc =~= ga + v) by {
                                    assert(v =~= seq![v[0]] + v.skip(1));
                                }
                                assert(k == j + 1 + (enc_row_items(v.skip(1))
                                    + seq![93u8]).len());
                                assert((enc_row_items(v) + seq![93u8]).len()
                                    == enc_i32_row(v[0]).len() + 1 + (enc_row_items(v.skip(1))
                                    + seq![93u8]).len());
                            }
                            assert(row_items_complete(s@, i as int, ga, gc, Some(k)));
                        }
                        Some(k)
                    }
                }
            } else {
                proof {
                    assert forall|v: Seq<Seq<i32>>| row_list_at(s@, i as int, v) implies
                        false by {
                        reveal(row_list_at);
                        lemma_row_items_head(v);
                        lemma_matches_cat(s@, i as int, enc_i32_row(v[0]), row_items_tail(v));
                        assert(matches_at(s@, i as int, enc_i32_row(v[0])));
                        assert(grow == v[0] && j == i + enc_i32_row(v[0]).len());
                        assert(s@.subrange(i + enc_i32_row(v[0]).len(), i
                            + enc_i32_row(v[0]).len() + row_items_tail(v).len())[0]
                            == s@[i + enc_i32_row(v[0]).len()]);
                        assert(s@[j as int] == row_items_tail(v)[0]);
                    }
                    assert(row_items_complete(s@, i as int, ga, rows_view(acc@),
                        None::<usize>));
                }
                None
            }
        }
    }
}

/// Parses the JSON array of public-input rows at position `i`: accepts
/// exactly the canonical encodings.
fn parse_rows(s: &Vec<u8>, i: usize) -> (r: Option<(Vec<Vec<i32>>, usize)>)
    requires
        i <= s@.len(),
    ensures
        (r matches Some((w, j)) ==> i < j <= s@.len()
            && s@.subrange(i as int, j as int) == enc_rows(rows_view(w@))),
        forall|v: Seq<Seq<i32>>| matches_at(s@, i as int, enc_rows(v))
            ==> (r matches Some((w, j)) && rows_view(w@) == v && j == i + enc_rows(v).len()),
{
    let len = s.len();
    if !(i < len && s[i] == 91) {
        proof {
            assert forall|v: Seq<Seq<i32>>| matches_at(s@, i as int, enc_rows(v)) implies
                false by {
                assert(enc_rows(v)[0] == 91);
                assert(s@.subrange(i as int, i + enc_rows(v).len())[0] == s@[i as int]);
            }
        }
        return None;
    }
    if i + 1 < len && s[i + 1] == 93 {
        proof {
            assert(enc_rows(Seq::<Seq<i32>>::empty()) =~= seq![91u8, 93u8]);
            assert(s@.subrange(i as int, i + 2) =~= seq![91u8, 93u8]);
            assert(s@.subrange(i as int, i + 2) == enc_rows(Seq::<Seq<i32>>::empty()));
            assert(rows_view(Seq::<Vec<i32>>::empty()) =~= Seq::<Seq<i32>>::empty());
            assert forall|v: Seq<Seq<i32>>| matches_at(s@, i as int, enc_rows(v)) implies
                v =~= Seq::<Seq<i32>>::empty() && i + 2 == i + enc_rows(v).len() by {
                if v.len() >= 1 {
                    lemma_row_items_head(v);
                    assert(enc_rows(v) =~= seq![91u8] + (enc_row_items(v) + seq![93u8]));
                    assert((enc_row_items(v) + seq![93u8])[0] == enc_i32_row(v[0])[0]);
                    assert(enc_i32_row(v[0])[0] == 91);
                    assert(s@.subrange(i as int, i + enc_rows(v).len())[1] == s@[i + 1]);
                    assert(s@[i + 1] == 91);
                    assert(false);
                }
            }
        }
        let w: Vec<Vec<i32>> = Vec::new();
        return Some((w, i + 2));
    }
    let mut w: Vec<Vec<i32>> = Vec::new();
    let r0 = parse_row_items(s, i + 1, &mut w);
    match r0 {
        Some(j) => {
            proof {
                assert(rows_view(w@).skip(0) =~= rows_view(w@));
                assert(s@.subrange(i as int, i + 1) =~= seq![91u8]);
                assert(s@.subrange(i as int, j as int) =~= s@.subrange(i as int, i + 1)
                    + s@.subrange(i + 1, j as int));
                assert(s@.subrange(i as int, j as int) =~= enc_rows(rows_view(w@)));
                assert forall|v: Seq<Seq<i32>>| matches_at(s@, i as int, enc_rows(v)) implies
                    rows_view(w@) == v && j == i + enc_rows(v).len() by {
                    assert(enc_rows(v) =~= seq![91u8] + (enc_row_items(v) + seq![93u8]));
                    lemma_matches_cat(s@, i as int, seq![91u8], enc_row_items(v) + seq![93u8]);
                    if v.len() == 0 {
                        assert((enc_row_items(v) + seq![93u8])[0] == 93);
                        assert(s@.subrange(i + 1, i + 1
                            + (enc_row_items(v) + seq![93u8]).len())[0] == s@[i + 1]);
                        assert(s@[i + 1] == 93);
                        assert(false);
                    }
                    assert(row_list_at(s@, i + 1, v)) by {
                        reveal(row_list_at);
                    }
                    assert(rows_view(Seq::<Vec<i32>>::empty()) =~= Seq::<Seq<i32>>::empty());
                    assert(rows_view(w@) == Seq::<Seq<i32>>::empty() + v);
                    assert(rows_view(w@) =~= v);
                }
            }
            Some((w, j))
        }
        None => {
            proof {
                assert forall|v: Seq<Seq<i32>>| matches_at(s@, i as int, enc_rows(v)) implies
                    false by {
                    assert(enc_rows(v) =~= seq![91u8] + (enc_row_items(v) + seq![93u8]));
                    lemma_matches_cat(s@, i as int, seq![91u8], enc_row_items(v) + seq![93u8]);
                    if v.len() == 0 {
                        assert((enc_row_items(v) + seq![93u8])[0] == 93);
                        assert(s@.subrange(i + 1, i + 1
                            + (enc_row_items(v) + seq![93u8]).len())[0] == s@[i + 1]);
                        assert(s@[i + 1] == 93);
                        assert(i + 1 < s@.len());
                        assert(false);
                    }
                    assert(row_list_at(s@, i + 1, v)) by {
                        reveal(row_list_at);
                    }
                    assert(rows_view(Seq::<Vec<i32>>::empty()) =~= Seq::<Seq<i32>>::empty());
                }
            }
            None
        }
    }
}

/// The positions of the members inside a canonical proof-object encoding.
pub proof fn lemma_proof_json_parts(s: Seq<u8>, pi: Seq<Seq<i32>>, pr: Seq<u8>)
    requires
        s == enc_proof_json(pi, pr),
    ensures
        s.len() == 17 + enc_rows(pi).len() + 9 + enc_u8_row(pr).len() + 1,
        matches_at(s, 0, spec_header()),
        matches_at(s, 17, enc_rows(pi)),
        matches_at(s, 17 + enc_rows(pi).len() as int, spec_mid()),
        matches_at(s, 17 + enc_rows(pi).len() as int + 9, enc_u8_row(pr)),
        s[s.len() - 1] == 125,
{
    let a = spec_header();
    let b = enc_rows(pi);
    let c = spec_mid();
    let d = enc_u8_row(pr);
    let e = seq![125u8];
    assert(a.len() == 17);
    assert(c.len() == 9);
    assert(s =~= a + (b + (c + (d + e))));
    assert(s.subrange(0, s.len() as int) =~= s);
    assert(matches_at(s, 0, a + (b + (c + (d + e)))));
    lemma_matches_cat(s, 0, a, b + (c + (d + e)));
    lemma_matches_cat(s, 17, b, c + (d + e));
    lemma_matches_cat(s, 17 + b.len() as int, c, d + e);
    lemma_matches_cat(s, 17 + b.len() as int + 9, d, e);
    assert(s.subrange(s.len() - 1, s.len() as int) =~= e);
    assert(s[s.len() - 1] == 125);
}

/// Completeness of proof-object decoding: whenever the input is the
/// canonical encoding of some proof object, decoding succeeded and
/// returned exactly that object.
pub open spec fn decode_complete(s: Seq<u8>, r: Option<(Vec<Vec<i32>>, Vec<u8>)>) -> bool {
    forall|pi: Seq<Seq<i32>>, pr: Seq<u8>| s == enc_proof_json(pi, pr)
        ==> (r matches Some(p) && rows_view(p.0@) == pi && p.1@ == pr)
}

/// Deserializes a canonical proof-object byte sequence: returns the
/// public-input rows and the proof bytes exactly when the input is a
/// canonical encoding, and nothing otherwise.
#[verifier::rlimit(100)]
#[verifier::spinoff_prover]
pub fn decode_proof(s: &Vec<u8>) -> (r: Option<(Vec<Vec<i32>>, Vec<u8>)>)
    ensures
        (r matches Some(p) ==> s@ == enc_proof_json(rows_view(p.0@), p.1@)),
        decode_complete(s@, r),
{
    let n = s.len();
    if n < 17 {
        proof {
            assert forall|pi: Seq<Seq<i32>>, pr: Seq<u8>| s@ == enc_proof_json(pi, pr) implies
                false by {
                lemma_proof_json_parts(s@, pi, pr);
            }
            assert(decode_complete(s@, None::<(Vec<Vec<i32>>, Vec<u8>)>));
        }
        return None;
    }
    let ok = s[0] == 123 && s[1] == 34 && s[2] == 112 && s[3] == 117 && s[4] == 98
        && s[5] == 108 && s[6] == 105 && s[7] == 99 && s[8] == 95 && s[9] == 105
        && s[10] == 110 && s[11] == 112 && s[12] == 117 && s[13] == 116 && s[14] == 115
        && s[15] == 34 && s[16] == 58;
    if !ok {
        proof {
            assert forall|pi: Seq<Seq<i32>>, pr: Seq<u8>| s@ == enc_proof_json(pi, pr) implies
                false by {
                lemma_proof_json_parts(s@, pi, pr);
                assert forall|t: int| 0 <= t < 17 implies s@[t] == spec_header()[t] by {
                    assert(s@.subrange(0, 17)[t] == s@[t]);
                }
            }
            assert(decode_complete(s@, None::<(Vec<Vec<i32>>, Vec<u8>)>));
        }
        return None;
    }
    proof {
        assert(s@.subrange(0, 17) =~= spec_header());
    }
    let r0 = parse_rows(s, 17);
    match r0 {
        None => {
            proof {
                assert forall|pi: Seq<Seq<i32>>, pr: Seq<u8>| s@ == enc_proof_json(pi, pr)
                    implies false by {
                    lemma_proof_json_parts(s@, pi, pr);
                }
                assert(decode_complete(s@, None::<(Vec<Vec<i32>>, Vec<u8>)>));
            }
            None
        }
        Some((pi_v, j)) => {
            let ok_mid = j <= n - 9 && s[j] == 44 && s[j + 1] == 34 && s[j + 2] == 112
                && s[j + 3] == 114 && s[j + 4] == 111 && s[j + 5] == 111 && s[j + 6] == 102
                && s[j + 7] == 34 && s[j + 8] == 58;
            if !ok_mid {
                proof {
                    assert forall|pi: Seq<Seq<i32>>, pr: Seq<u8>| s@ == enc_proof_json(pi, pr)
                        implies false by {
                        lemma_proof_json_parts(s@, pi, pr);
                        assert(j == 17 + enc_rows(pi).len());
                        assert forall|t: int| 0 <= t < 9 implies s@[j + t]
                            == spec_mid()[t] by {
                            assert(s@.subrange(j as int, j + 9)[t] == s@[j + t]);
                        }
                    }
                    assert(decode_complete(s@, None::<(Vec<Vec<i32>>, Vec<u8>)>));
                }
                return None;
            }
            proof {
                assert(s@.subrange(j as int, j + 9) =~= spec_mid());
            }
            let r1 = parse_u8_row(s, j + 9);
            match r1 {
                None => {
                    proof {
                        assert forall|pi: Seq<Seq<i32>>, pr: Seq<u8>| s@ == enc_proof_json(
                            pi, pr) implies false by {
                            lemma_proof_json_parts(s@, pi, pr);
                            assert(j == 17 + enc_rows(pi).len());
                        }
                        assert(decode_complete(s@, None::<(Vec<Vec<i32>>, Vec<u8>)>));
                    }
                    None
                }
                Some((pr_v, k)) => {
                    if k < n && s[k] == 125 && k + 1 == n {
                        proof {
                            assert(s@.subrange(k as int, k + 1) =~= seq![125u8]);
                            assert(s@.subrange(0, j as int) =~= s@.subrange(0, 17)
                                + s@.subrange(17, j as int));
                            assert(s@.subrange(0, j + 9) =~= s@.subrange(0, j as int)
                                + s@.subrange(j as int, j + 9));
                            assert(s@.subrange(0, k as int) =~= s@.subrange(0, j + 9)
                                + s@.subrange(j + 9, k as int));
                            assert(s@ =~= s@.subrange(0, k as int) + s@.subrange(k as int,
                                k + 1));
                            assert(s@ =~= enc_proof_json(rows_view(pi_v@), pr_v@));
                            assert forall|pi: Seq<Seq<i32>>, pr: Seq<u8>| s@
                                == enc_proof_json(pi, pr) implies (Some((pi_v, pr_v)) matches
                                Some(p) && rows_view(p.0@) == pi && p.1@ == pr) by {
                                lemma_proof_json_parts(s@, pi, pr);
                                assert(j == 17 + enc_rows(pi).len());
                                assert(rows_view(pi_v@) == pi);
                                assert(pr_v@ == pr);
                            }
                            assert(decode_complete(s@, Some((pi_v, pr_v))));
                        }
                        Some((pi_v, pr_v))
                    } else {
                        proof {
                            assert forall|pi: Seq<Seq<i32>>, pr: Seq<u8>| s@
                                == enc_proof_json(pi, pr) implies false by {
                                lemma_proof_json_parts(s@, pi, pr);
                                assert(j == 17 + enc_rows(pi).len());
                                assert(k == j + 9 + enc_u8_row(pr).len());
                                assert(s@[k as int] == 125);
                                assert(k + 1 == s@.len());
                            }
                            assert(decode_complete(s@, None::<(Vec<Vec<i32>>, Vec<u8>)>));
                        }
                        None
                    }
                }
            }
        }
    }
}

/// Serializes a proof object into its canonical byte sequence.
pub fn encode_proof(public_inputs: &Vec<Vec<i32>>, proof_bytes: &Vec<u8>) -> (r: Vec<u8>)
    ensures
        r@ == enc_proof_json(rows_view(public_inputs@), proof_bytes@),
{
    let mut out: Vec<u8> = Vec::new();
    out.push(123);
    out.push(34);
    out.push(112);
    out.push(117);
    out.push(98);
    out.push(108);
    out.push(105);
    out.push(99);
    out.push(95);
    out.push(105);
    out.push(110);
    out.push(112);
    out.push(117);
    out.push(116);
    out.push(115);
    out.push(34);
    out.push(58);
    proof {
        assert(out@ =~= spec_header());
    }
    write_rows(&mut out, public_inputs);
    out.push(44);
    out.push(34);
    out.push(112);
    out.push(114);
    out.push(111);
    out.push(111);
    out.push(102);
    out.push(34);
    out.push(58);
    proof {
        assert(out@ =~= spec_header() + enc_rows(rows_view(public_inputs@)) + spec_mid());
    }
    write_u8_row(&mut out, proof_bytes);
    out.push(125);
    proof {
        assert(out@ =~= enc_proof_json(rows_view(public_inputs@), proof_bytes@));
    }
    out
}

} // verus!
